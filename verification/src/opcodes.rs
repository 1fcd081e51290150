//! The opcode stream that stands for a register array in which most registers are zero.
//!
//! An opcode covers a run of consecutive registers that hold one value:
//!
//! | opcode          | bytes                                  | run                          |
//! |-----------------|----------------------------------------|------------------------------|
//! | `ZERO(n)`       | `n - 1`                                | `n` zeros, `1 <= n <= 32`     |
//! | `XZERO(n)`      | `64 + (n - 1) / 256`, `(n - 1) % 256`  | `n` zeros, `33 <= n <= 16384` |
//! | `VAL(rank, n)`  | `128 + 2 * rank + (n - 1)`             | `n` times `rank`, `1 <= rank <= 63`, `1 <= n <= 2` |
//!
//! Every other first byte is no opcode. The opcodes of a stream follow one another without
//! gaps; the registers they cover are numbered in the order of the stream.
use crate::registers::{bounded, zeroed};
use vstd::prelude::*;

verus! {

/// The longest run that `ZERO` covers.
pub const SHORT_RUN: usize = 32;

/// The longest run that `XZERO` covers.
pub const LONG_RUN: usize = 16384;

/// The longest run that `VAL` covers.
pub const VALUE_RUN: usize = 2;

/// The largest rank that `VAL` can carry.
pub const MAX_CODED_RANK: u8 = 63;

/// `n` registers that all hold `value`.
pub open spec fn run(value: u8, n: nat) -> Seq<u8> {
    Seq::new(n, |i: int| value)
}

/// The longest run that one opcode can cover with registers that hold `value`.
pub open spec fn run_cap(value: u8) -> nat {
    if value == 0 {
        LONG_RUN as nat
    } else {
        VALUE_RUN as nat
    }
}

/// The number of registers at the front of `regs` that hold what the first one holds,
/// counted up to `cap`.
pub open spec fn run_length(regs: Seq<u8>, cap: nat) -> nat
    decreases cap,
{
    if regs.len() == 0 || cap == 0 {
        0
    } else if regs.len() >= 2 && regs[1] == regs[0] {
        1 + run_length(regs.skip(1), (cap - 1) as nat)
    } else {
        1
    }
}

/// The bytes of the opcode for `n` registers that hold `value`.
pub open spec fn opcode(value: u8, n: nat) -> Seq<u8> {
    if value != 0 {
        seq![(128 + 2 * value + (n - 1)) as u8]
    } else if n <= SHORT_RUN {
        seq![(n - 1) as u8]
    } else {
        seq![(64 + (n - 1) / 256) as u8, ((n - 1) % 256) as u8]
    }
}

/// The opcode stream of a register array: each opcode covers the longest run that starts
/// where the one before it ended.
pub open spec fn compress(regs: Seq<u8>) -> Seq<u8>
    decreases regs.len(),
{
    if regs.len() == 0 {
        Seq::empty()
    } else {
        let n = run_length(regs, run_cap(regs[0]));
        proof {
            lemma_run_length(regs, run_cap(regs[0]));
        }
        opcode(regs[0], n) + compress(regs.skip(n as int))
    }
}

/// The opcode at the front of `bytes`: the value it repeats, the length of its run and the
/// number of bytes it takes. `None` where `bytes` starts with no opcode.
pub open spec fn front(bytes: Seq<u8>) -> Option<(u8, nat, nat)> {
    if bytes.len() == 0 {
        None
    } else if bytes[0] < 32 {
        Some((0u8, (bytes[0] + 1) as nat, 1nat))
    } else if bytes[0] < 64 {
        None
    } else if bytes[0] < 128 {
        if bytes.len() >= 2 && (bytes[0] - 64) * 256 + bytes[1] >= SHORT_RUN {
            Some((0u8, ((bytes[0] - 64) * 256 + bytes[1] + 1) as nat, 2nat))
        } else {
            None
        }
    } else if bytes[0] < 130 {
        None
    } else {
        Some((((bytes[0] - 128) / 2) as u8, ((bytes[0] - 128) % 2 + 1) as nat, 1nat))
    }
}

/// The register array that an opcode stream stands for. `None` where `bytes` is not a
/// sequence of opcodes.
pub open spec fn expand(bytes: Seq<u8>) -> Option<Seq<u8>>
    decreases bytes.len(),
{
    if bytes.len() == 0 {
        Some(Seq::empty())
    } else {
        match front(bytes) {
            None => None,
            Some((value, n, width)) => following(
                run(value, n),
                expand(bytes.skip(width as int)),
            ),
        }
    }
}

/// `head` put in front of `tail`, where there is a `tail`.
pub open spec fn following(head: Seq<u8>, tail: Option<Seq<u8>>) -> Option<Seq<u8>> {
    match tail {
        None => None,
        Some(rest) => Some(head + rest),
    }
}

/// What a reader accepts of an opcode stream: the array it stands for, provided that it
/// has `expected` registers and none of them exceeds `limit`.
pub open spec fn accepted(bytes: Seq<u8>, expected: nat, limit: int) -> Option<Seq<u8>> {
    match expand(bytes) {
        None => None,
        Some(regs) => if regs.len() == expected && bounded(regs, limit) {
            Some(regs)
        } else {
            None
        },
    }
}

/// A run is at least one register long, stays within the array and the cap, holds one
/// value, and ends only where it must.
pub proof fn lemma_run_length(regs: Seq<u8>, cap: nat)
    requires
        regs.len() > 0,
        cap > 0,
    ensures
        1 <= run_length(regs, cap) <= cap,
        run_length(regs, cap) <= regs.len(),
        forall|i: int| 0 <= i < run_length(regs, cap) ==> #[trigger] regs[i] == regs[0],
        run_length(regs, cap) == cap || run_length(regs, cap) == regs.len() || regs[run_length(
            regs,
            cap,
        ) as int] != regs[0],
    decreases cap,
{
    if regs.len() >= 2 && regs[1] == regs[0] && cap > 1 {
        let tail = regs.skip(1);
        lemma_run_length(tail, (cap - 1) as nat);
        assert forall|i: int| 0 <= i < run_length(regs, cap) implies #[trigger] regs[i]
            == regs[0] by {
            if i > 0 {
                assert(tail[i - 1] == tail[0]);
            }
        }
    } else if regs.len() >= 2 && regs[1] == regs[0] {
        assert(run_length(regs.skip(1), 0) == 0);
    }
}

/// A run of one value that ends where it must is the run that `run_length` measures.
pub proof fn lemma_run_length_is(regs: Seq<u8>, cap: nat, n: nat)
    requires
        1 <= n <= cap,
        n <= regs.len(),
        forall|i: int| 0 <= i < n ==> #[trigger] regs[i] == regs[0],
        n == cap || n == regs.len() || regs[n as int] != regs[0],
    ensures
        run_length(regs, cap) == n,
    decreases cap,
{
    if n > 1 {
        let tail = regs.skip(1);
        assert(regs[1] == regs[0]);
        assert forall|i: int| 0 <= i < n - 1 implies #[trigger] tail[i] == tail[0] by {
            assert(regs[i + 1] == regs[0]);
        }
        lemma_run_length_is(tail, (cap - 1) as nat, (n - 1) as nat);
    } else if regs.len() >= 2 && regs[1] == regs[0] {
        assert(cap == 1);
        assert(run_length(regs.skip(1), 0) == 0);
    }
}

/// An opcode in front of a stream is read back as the run it was written for.
proof fn lemma_front_of_opcode(value: u8, n: nat, rest: Seq<u8>)
    requires
        value <= MAX_CODED_RANK,
        1 <= n <= run_cap(value),
    ensures
        front(opcode(value, n) + rest) == Some((value, n, opcode(value, n).len())),
        (opcode(value, n) + rest).skip(opcode(value, n).len() as int) == rest,
{
    let code = opcode(value, n);
    let whole = code + rest;
    assert(whole[0] == code[0]);
    if value == 0 && n > SHORT_RUN {
        assert(whole[1] == code[1]);
        let high = (n - 1) / 256;
        let low = (n - 1) % 256;
        assert(high * 256 + low == n - 1);
        assert(0 <= high < 64);
    }
    assert(whole.skip(code.len() as int) =~= rest);
}

/// Reading a compressed array gives the array back.
pub proof fn lemma_expand_compress(regs: Seq<u8>)
    requires
        bounded(regs, MAX_CODED_RANK as int),
    ensures
        expand(compress(regs)) == Some(regs),
    decreases regs.len(),
{
    if regs.len() == 0 {
        assert(regs =~= Seq::<u8>::empty());
    } else {
        let value = regs[0];
        let n = run_length(regs, run_cap(value));
        lemma_run_length(regs, run_cap(value));
        let rest = regs.skip(n as int);
        assert(bounded(rest, MAX_CODED_RANK as int)) by {
            assert forall|i: int| 0 <= i < rest.len() implies #[trigger] rest[i]
                <= MAX_CODED_RANK by {
                assert(regs[i + n] <= MAX_CODED_RANK);
            }
        }
        lemma_expand_compress(rest);
        lemma_front_of_opcode(value, n, compress(rest));
        assert(run(value, n) + rest =~= regs);
    }
}

/// Zero registers compress to two bytes for every 16384 of them, or less.
pub proof fn lemma_compress_zeroed_len(n: nat)
    ensures
        compress(zeroed(n)).len() <= 2 + n / 8192,
    decreases n,
{
    if n > 0 {
        let step: nat = if n < LONG_RUN {
            n
        } else {
            LONG_RUN as nat
        };
        lemma_run_length_is(zeroed(n), LONG_RUN as nat, step);
        assert(zeroed(n).skip(step as int) =~= zeroed((n - step) as nat));
        lemma_compress_zeroed_len((n - step) as nat);
        if n <= LONG_RUN {
            assert(compress(zeroed(0)) =~= Seq::<u8>::empty());
        }
    }
}

/// Appends the opcode for `n` registers that hold `value`.
fn push_opcode(out: &mut Vec<u8>, value: u8, n: usize)
    requires
        value <= MAX_CODED_RANK,
        1 <= n <= run_cap(value),
    ensures
        final(out)@ == old(out)@ + opcode(value, n as nat),
{
    if value != 0 {
        out.push(128 + 2 * value + (n - 1) as u8);
    } else if n <= SHORT_RUN {
        out.push((n - 1) as u8);
    } else {
        out.push((64 + (n - 1) / 256) as u8);
        out.push(((n - 1) % 256) as u8);
    }
    proof {
        assert(out@ =~= old(out)@ + opcode(value, n as nat));
    }
}

/// Appends `n` registers that hold `value`.
fn push_run(regs: &mut Vec<u8>, value: u8, n: usize)
    ensures
        final(regs)@ == old(regs)@ + run(value, n as nat),
{
    let mut k: usize = 0;
    proof {
        assert(regs@ =~= old(regs)@ + run(value, 0));
    }
    while k < n
        invariant
            k <= n,
            regs@ == old(regs)@ + run(value, k as nat),
        decreases n - k,
    {
        regs.push(value);
        k = k + 1;
        proof {
            assert(regs@ =~= old(regs)@ + run(value, k as nat));
        }
    }
}

/// Writes a register array as an opcode stream.
pub fn compress_registers(regs: &[u8]) -> (out: Vec<u8>)
    requires
        bounded(regs@, MAX_CODED_RANK as int),
    ensures
        out@ == compress(regs@),
{
    let mut out: Vec<u8> = Vec::new();
    let mut i: usize = 0;
    proof {
        assert(regs@.skip(0) =~= regs@);
        assert(out@ + compress(regs@) =~= compress(regs@));
    }
    while i < regs.len()
        invariant
            i <= regs.len(),
            bounded(regs@, MAX_CODED_RANK as int),
            out@ + compress(regs@.skip(i as int)) == compress(regs@),
        decreases regs.len() - i,
    {
        let value: u8 = regs[i];
        let cap: usize = if value == 0 {
            LONG_RUN
        } else {
            VALUE_RUN
        };
        let mut n: usize = 1;
        while n < cap && i + n < regs.len() && regs[i + n] == value
            invariant
                1 <= n <= cap,
                i + n <= regs.len(),
                value == regs@[i as int],
                forall|k: int| i <= k < i + n ==> #[trigger] regs@[k] == value,
            decreases cap - n,
        {
            n = n + 1;
        }
        proof {
            let tail = regs@.skip(i as int);
            assert(tail[0] == value);
            assert forall|k: int| 0 <= k < n implies #[trigger] tail[k] == tail[0] by {
                assert(regs@[i + k] == value);
            }
            lemma_run_length_is(tail, cap as nat, n as nat);
            assert(tail.skip(n as int) =~= regs@.skip(i + n));
            assert(regs@[i as int] <= MAX_CODED_RANK);
            assert((out@ + opcode(value, n as nat)) + compress(regs@.skip(i + n)) =~= out@
                + compress(tail));
        }
        push_opcode(&mut out, value, n);
        i = i + n;
    }
    proof {
        assert(regs@.skip(i as int) =~= Seq::<u8>::empty());
        assert(out@ + Seq::<u8>::empty() =~= out@);
    }
    out
}

/// Writes the opcode stream of `n` zero registers.
pub fn compress_zeros(n: usize) -> (out: Vec<u8>)
    ensures
        out@ == compress(zeroed(n as nat)),
{
    let mut out: Vec<u8> = Vec::new();
    let mut left: usize = n;
    proof {
        assert(out@ + compress(zeroed(n as nat)) =~= compress(zeroed(n as nat)));
    }
    while left > 0
        invariant
            left <= n,
            out@ + compress(zeroed(left as nat)) == compress(zeroed(n as nat)),
        decreases left,
    {
        let step: usize = if left < LONG_RUN {
            left
        } else {
            LONG_RUN
        };
        proof {
            let tail = zeroed(left as nat);
            lemma_run_length_is(tail, LONG_RUN as nat, step as nat);
            assert(tail.skip(step as int) =~= zeroed((left - step) as nat));
            assert((out@ + opcode(0, step as nat)) + compress(zeroed((left - step) as nat)) =~= out@
                + compress(tail));
        }
        push_opcode(&mut out, 0, step);
        left = left - step;
    }
    proof {
        assert(zeroed(0) =~= Seq::<u8>::empty());
        assert(out@ + Seq::<u8>::empty() =~= out@);
    }
    out
}

/// Reads an opcode stream that must stand for `expected` registers, none above `limit`.
pub fn expand_opcodes(bytes: &[u8], expected: usize, limit: u8) -> (out: Option<Vec<u8>>)
    ensures
        match out {
            Some(regs) => accepted(bytes@, expected as nat, limit as int) == Some(regs@),
            None => accepted(bytes@, expected as nat, limit as int) is None,
        },
{
    let mut regs: Vec<u8> = Vec::new();
    let mut j: usize = 0;
    proof {
        assert(bytes@.skip(0) =~= bytes@);
        if expand(bytes@) is Some {
            assert(regs@ + expand(bytes@).unwrap() =~= expand(bytes@).unwrap());
        }
    }
    while j < bytes.len()
        invariant
            j <= bytes.len(),
            regs.len() <= expected,
            bounded(regs@, limit as int),
            expand(bytes@) == following(regs@, expand(bytes@.skip(j as int))),
        decreases bytes.len() - j,
    {
        let ghost tail = bytes@.skip(j as int);
        let first: u8 = bytes[j];
        proof {
            assert(tail[0] == first);
        }
        let value: u8;
        let n: usize;
        let width: usize;
        if first < 32 {
            value = 0;
            n = first as usize + 1;
            width = 1;
        } else if first < 64 {
            return None;
        } else if first < 128 {
            if j + 1 >= bytes.len() {
                return None;
            }
            let second: u8 = bytes[j + 1];
            proof {
                assert(tail[1] == second);
            }
            let below: usize = (first as usize - 64) * 256 + second as usize;
            if below < SHORT_RUN {
                return None;
            }
            value = 0;
            n = below + 1;
            width = 2;
        } else if first < 130 {
            return None;
        } else {
            value = (first - 128) / 2;
            n = ((first - 128) % 2) as usize + 1;
            width = 1;
        }
        proof {
            assert(front(tail) == Some((value, n as nat, width as nat)));
            assert(tail.skip(width as int) =~= bytes@.skip(j + width));
            let rest = expand(bytes@.skip(j + width));
            assert(expand(tail) == following(run(value, n as nat), rest));
            if rest is Some {
                assert(regs@ + (run(value, n as nat) + rest.unwrap()) =~= (regs@ + run(
                    value,
                    n as nat,
                )) + rest.unwrap());
                let whole = expand(bytes@).unwrap();
                assert(whole.len() >= regs.len() + n);
                assert(whole[regs.len() as int] == value);
            }
            assert(expand(bytes@) == following(regs@ + run(value, n as nat), rest));
        }
        if n > expected - regs.len() {
            return None;
        }
        if value > limit {
            return None;
        }
        push_run(&mut regs, value, n);
        j = j + width;
    }
    proof {
        assert(bytes@.skip(j as int) =~= Seq::<u8>::empty());
        assert(regs@ + Seq::<u8>::empty() =~= regs@);
    }
    if regs.len() != expected {
        return None;
    }
    Some(regs)
}

} // verus!
