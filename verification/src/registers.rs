//! Register arrays: what an observation and a merge do to them, and the statistics that
//! the cardinality formula reads from them.
use vstd::arithmetic::power2::{lemma_pow2_pos, lemma_pow2_strictly_increases, pow2};
use vstd::prelude::*;

verus! {

/// The larger of two ranks.
pub open spec fn higher(a: u8, b: u8) -> u8 {
    if a >= b {
        a
    } else {
        b
    }
}

/// An array of `n` registers that have seen nothing.
pub open spec fn zeroed(n: nat) -> Seq<u8> {
    Seq::new(n, |i: int| 0u8)
}

/// The array after register `idx` has seen `rank`: that register holds the larger of its
/// old value and `rank`, the others are unchanged.
pub open spec fn observe(regs: Seq<u8>, idx: int, rank: u8) -> Seq<u8> {
    regs.update(idx, higher(regs[idx], rank))
}

/// The register-wise maximum of two arrays of one length.
pub open spec fn merged(a: Seq<u8>, b: Seq<u8>) -> Seq<u8> {
    Seq::new(a.len(), |i: int| higher(a[i], b[i]))
}

/// Whether every register holds at most `limit`.
pub open spec fn bounded(regs: Seq<u8>, limit: int) -> bool {
    forall|i: int| 0 <= i < regs.len() ==> #[trigger] regs[i] <= limit
}

/// The number of registers that hold 0.
pub open spec fn zero_count(regs: Seq<u8>) -> nat
    decreases regs.len(),
{
    if regs.len() == 0 {
        0
    } else {
        zero_count(regs.drop_last()) + if regs.last() == 0 {
            1nat
        } else {
            0nat
        }
    }
}

/// `2^(64 - rank)`: the term `2^(-rank)` of the harmonic sum, scaled by `2^64` so that it
/// is a whole number. A rank above 64 contributes nothing.
pub open spec fn inverse_weight(rank: u8) -> nat {
    if rank <= 64 {
        pow2((64 - rank) as nat)
    } else {
        0
    }
}

/// The sum of `2^(-r)` over all registers `r`, scaled by `2^64`.
pub open spec fn inverse_sum(regs: Seq<u8>) -> nat
    decreases regs.len(),
{
    if regs.len() == 0 {
        0
    } else {
        inverse_sum(regs.drop_last()) + inverse_weight(regs.last())
    }
}

/// A weight is at most `2^64`, and a higher rank weighs no more than a lower one.
pub proof fn lemma_inverse_weight(a: u8, b: u8)
    ensures
        inverse_weight(a) <= 0x1_0000_0000_0000_0000,
        a <= b ==> inverse_weight(b) <= inverse_weight(a),
        a <= 64 ==> inverse_weight(a) >= 1,
{
    vstd::arithmetic::power2::lemma2_to64_rest();
    if a <= 64 {
        lemma_pow2_pos((64 - a) as nat);
        if a > 0 {
            lemma_pow2_strictly_increases((64 - a) as nat, 64);
        }
        if a < b && b <= 64 {
            lemma_pow2_strictly_increases((64 - b) as nat, (64 - a) as nat);
        }
    }
}

/// The scaled sum of `n` registers is at most `n * 2^64`.
pub proof fn lemma_inverse_sum_bound(regs: Seq<u8>)
    ensures
        inverse_sum(regs) <= regs.len() * 0x1_0000_0000_0000_0000,
    decreases regs.len(),
{
    if regs.len() > 0 {
        lemma_inverse_sum_bound(regs.drop_last());
        lemma_inverse_weight(regs.last(), regs.last());
    }
}

/// There are no more zero registers than registers.
pub proof fn lemma_zero_count_bound(regs: Seq<u8>)
    ensures
        zero_count(regs) <= regs.len(),
    decreases regs.len(),
{
    if regs.len() > 0 {
        lemma_zero_count_bound(regs.drop_last());
    }
}

/// In a fresh array every register is zero.
pub proof fn lemma_zeroed_statistics(n: nat)
    ensures
        zero_count(zeroed(n)) == n,
        inverse_sum(zeroed(n)) == n * 0x1_0000_0000_0000_0000,
    decreases n,
{
    if n > 0 {
        assert(zeroed(n).drop_last() =~= zeroed((n - 1) as nat));
        lemma_zeroed_statistics((n - 1) as nat);
        vstd::arithmetic::power2::lemma2_to64_rest();
    }
}

/// Raising one register changes the statistics by that register's share alone.
proof fn lemma_statistics_of_update(regs: Seq<u8>, idx: int, value: u8)
    requires
        0 <= idx < regs.len(),
    ensures
        zero_count(regs.update(idx, value)) + (if regs[idx] == 0 { 1nat } else { 0nat })
            == zero_count(regs) + (if value == 0 { 1nat } else { 0nat }),
        inverse_sum(regs.update(idx, value)) + inverse_weight(regs[idx]) == inverse_sum(regs)
            + inverse_weight(value),
    decreases regs.len(),
{
    let after = regs.update(idx, value);
    if idx == regs.len() - 1 {
        assert(after.drop_last() =~= regs.drop_last());
    } else {
        assert(after.drop_last() =~= regs.drop_last().update(idx, value));
        lemma_statistics_of_update(regs.drop_last(), idx, value);
    }
}

/// An observation lowers no register, and can only lower the number of zero registers and
/// the harmonic sum.
pub proof fn lemma_observe_monotone(regs: Seq<u8>, idx: int, rank: u8)
    requires
        0 <= idx < regs.len(),
    ensures
        observe(regs, idx, rank).len() == regs.len(),
        forall|i: int| 0 <= i < regs.len() ==> regs[i] <= #[trigger] observe(regs, idx, rank)[i],
        zero_count(observe(regs, idx, rank)) <= zero_count(regs),
        inverse_sum(observe(regs, idx, rank)) <= inverse_sum(regs),
{
    lemma_statistics_of_update(regs, idx, higher(regs[idx], rank));
    lemma_inverse_weight(regs[idx], higher(regs[idx], rank));
}

/// Observing the same rank at the same register a second time changes nothing.
pub proof fn lemma_observe_idempotent(regs: Seq<u8>, idx: int, rank: u8)
    requires
        0 <= idx < regs.len(),
    ensures
        observe(observe(regs, idx, rank), idx, rank) == observe(regs, idx, rank),
{
    assert(observe(observe(regs, idx, rank), idx, rank) =~= observe(regs, idx, rank));
}

/// Merging does not depend on the order of its two arguments.
pub proof fn lemma_merged_commutative(a: Seq<u8>, b: Seq<u8>)
    requires
        a.len() == b.len(),
    ensures
        merged(a, b) == merged(b, a),
{
    assert(merged(a, b) =~= merged(b, a));
}

/// Merging three arrays gives the same array however they are grouped.
pub proof fn lemma_merged_associative(a: Seq<u8>, b: Seq<u8>, c: Seq<u8>)
    requires
        a.len() == b.len(),
        b.len() == c.len(),
    ensures
        merged(merged(a, b), c) == merged(a, merged(b, c)),
{
    assert(merged(merged(a, b), c) =~= merged(a, merged(b, c)));
}

/// Merging with a fresh array, on either side, gives the array back.
pub proof fn lemma_merged_identity(a: Seq<u8>)
    ensures
        merged(a, zeroed(a.len())) == a,
        merged(zeroed(a.len()), a) == a,
{
    assert(merged(a, zeroed(a.len())) =~= a);
    assert(merged(zeroed(a.len()), a) =~= a);
}

/// A merge keeps the bound that both arrays meet, and lowers no register of either.
pub proof fn lemma_merged_bounds(a: Seq<u8>, b: Seq<u8>, limit: int)
    requires
        a.len() == b.len(),
        bounded(a, limit),
        bounded(b, limit),
    ensures
        bounded(merged(a, b), limit),
        forall|i: int| 0 <= i < a.len() ==> a[i] <= #[trigger] merged(a, b)[i],
        forall|i: int| 0 <= i < a.len() ==> b[i] <= #[trigger] merged(a, b)[i],
{
    assert forall|i: int| 0 <= i < merged(a, b).len() implies #[trigger] merged(a, b)[i]
        <= limit by {
        assert(a[i] <= limit);
        assert(b[i] <= limit);
    }
}

/// Raises register `idx` to `rank` unless it already holds as much.
pub fn raise(regs: &mut Vec<u8>, idx: usize, rank: u8)
    requires
        idx < old(regs).len(),
    ensures
        final(regs)@ == observe(old(regs)@, idx as int, rank),
{
    if rank > regs[idx] {
        regs[idx] = rank;
    }
    proof {
        assert(regs@ =~= observe(old(regs)@, idx as int, rank));
    }
}

/// Whether every register holds at most `limit`.
pub fn within(regs: &[u8], limit: u8) -> (ok: bool)
    ensures
        ok == bounded(regs@, limit as int),
{
    let mut i: usize = 0;
    while i < regs.len()
        invariant
            i <= regs.len(),
            forall|k: int| 0 <= k < i ==> #[trigger] regs@[k] <= limit,
        decreases regs.len() - i,
    {
        if regs[i] > limit {
            return false;
        }
        i = i + 1;
    }
    true
}

/// The number of registers that hold 0.
pub fn count_zeros(regs: &[u8]) -> (zeros: usize)
    ensures
        zeros == zero_count(regs@),
{
    let mut zeros: usize = 0;
    let mut i: usize = 0;
    while i < regs.len()
        invariant
            i <= regs.len(),
            zeros == zero_count(regs@.take(i as int)),
            zeros <= i,
        decreases regs.len() - i,
    {
        proof {
            assert(regs@.take(i + 1).drop_last() =~= regs@.take(i as int));
        }
        if regs[i] == 0 {
            zeros = zeros + 1;
        }
        i = i + 1;
    }
    proof {
        assert(regs@.take(i as int) =~= regs@);
    }
    zeros
}

/// The sum of `2^(-r)` over all registers `r`, scaled by `2^64`.
pub fn sum_inverses(regs: &[u8]) -> (sum: u128)
    ensures
        sum == inverse_sum(regs@),
{
    let mut sum: u128 = 0;
    let mut i: usize = 0;
    while i < regs.len()
        invariant
            i <= regs.len(),
            sum == inverse_sum(regs@.take(i as int)),
            sum <= i * 0x1_0000_0000_0000_0000,
        decreases regs.len() - i,
    {
        let rank: u8 = regs[i];
        proof {
            assert(regs@.take(i + 1).drop_last() =~= regs@.take(i as int));
            lemma_inverse_weight(rank, rank);
        }
        let weight: u128 = if rank == 0 {
            proof {
                vstd::arithmetic::power2::lemma2_to64_rest();
            }
            0x1_0000_0000_0000_0000u128
        } else if rank <= 64 {
            let shift: u64 = 64 - rank as u64;
            proof {
                vstd::bits::lemma_u64_pow2_no_overflow(shift as nat);
                vstd::bits::lemma_u64_shl_is_mul(1, shift);
            }
            let bit: u64 = 1u64 << shift;
            bit as u128
        } else {
            0
        };
        sum = sum + weight;
        i = i + 1;
    }
    proof {
        assert(regs@.take(i as int) =~= regs@);
    }
    sum
}

/// The register-wise maximum of two arrays of one length.
pub fn merge_registers(a: &[u8], b: &[u8]) -> (out: Vec<u8>)
    requires
        a.len() == b.len(),
    ensures
        out@ == merged(a@, b@),
{
    let mut out: Vec<u8> = Vec::with_capacity(a.len());
    let mut i: usize = 0;
    while i < a.len()
        invariant
            i <= a.len(),
            a.len() == b.len(),
            out@ == merged(a@, b@).take(i as int),
        decreases a.len() - i,
    {
        let x: u8 = a[i];
        let y: u8 = b[i];
        out.push(if x >= y { x } else { y });
        proof {
            assert(out@ =~= merged(a@, b@).take(i + 1));
        }
        i = i + 1;
    }
    proof {
        assert(out@ =~= merged(a@, b@));
    }
    out
}

} // verus!
