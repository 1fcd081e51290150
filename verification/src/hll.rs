//! The estimator: a register array that starts compressed and turns flat once for all.
use crate::bits::{
    index_of, lemma_index_bounds, max_rank, rank_of, register_count,
    register_index, register_rank, valid_precision, MAX_PRECISION, MIN_PRECISION,
};
use crate::hashing::hash64;
use crate::list::CompressedList;
use crate::opcodes::{compress, lemma_compress_zeroed_len, MAX_CODED_RANK};
use crate::registers::{
    bounded, count_zeros, higher, inverse_sum, lemma_merged_bounds, lemma_zero_count_bound,
    merge_registers, merged, observe, raise, sum_inverses, zero_count, zeroed,
};
use std::collections::HashMap;
use std::hash::Hash;
use vstd::prelude::*;

verus! {

/// The number of pending observations above which a sparse estimator merges them into its
/// compressed list.
pub const PENDING_LIMIT: usize = 64;

/// Why an operation on an estimator was refused.
#[derive(Debug, Clone, Copy, PartialEq, Eq, Structural)]
pub enum HllError {
    /// The precision lies outside `MIN_PRECISION..=MAX_PRECISION`.
    InvalidPrecision,
    /// Two estimators of different precision were to be merged.
    PrecisionMismatch,
    /// The bytes are not the encoding of an estimator.
    MalformedEncoding,
}

/// A distinct-count estimator of `m = 2^p` registers.
#[derive(Debug)]
pub enum Hll {
    /// Few registers are set: the array is a compressed list, and observations wait in
    /// `set`, keyed by register, until the next flush.
    Sparse { m: u32, p: u8, set: HashMap<u32, u8>, list: CompressedList },
    /// One byte per register.
    Dense { m: u32, p: u8, registers: Vec<u8> },
}

/// The array `regs` with every pending observation applied.
pub open spec fn raised(regs: Seq<u8>, pending: Map<u32, u8>) -> Seq<u8> {
    Seq::new(
        regs.len(),
        |i: int|
            if pending.contains_key(i as u32) {
                higher(regs[i], pending[i as u32])
            } else {
                regs[i]
            },
    )
}

impl View for Hll {
    type V = Seq<u8>;

    /// The logical register array: what is stored, with the pending observations applied.
    open spec fn view(&self) -> Seq<u8> {
        raised(self.stored(), self.pending())
    }
}

impl Hll {
    /// The precision.
    pub open spec fn p(&self) -> u8 {
        match self {
            Hll::Sparse { p, .. } => *p,
            Hll::Dense { p, .. } => *p,
        }
    }

    /// The number of registers.
    pub open spec fn m(&self) -> u32 {
        match self {
            Hll::Sparse { m, .. } => *m,
            Hll::Dense { m, .. } => *m,
        }
    }

    /// Whether the estimator is in dense mode.
    pub open spec fn dense(&self) -> bool {
        self is Dense
    }

    /// The register array as it is stored, without the pending observations.
    pub open spec fn stored(&self) -> Seq<u8> {
        match self {
            Hll::Sparse { list, .. } => list@,
            Hll::Dense { registers, .. } => registers@,
        }
    }

    /// The observations that wait for the next flush, by register.
    pub open spec fn pending(&self) -> Map<u32, u8> {
        match self {
            Hll::Sparse { set, .. } => set@,
            Hll::Dense { .. } => Map::empty(),
        }
    }

    /// The estimator is one that the operations of this module produce.
    pub open spec fn wf(&self) -> bool {
        &&& valid_precision(self.p())
        &&& self.m() == register_count(self.p())
        &&& self.stored().len() == self.m()
        &&& bounded(self.stored(), max_rank(self.p()))
        &&& match self {
            Hll::Sparse { set, list, .. } => {
                &&& list.wf()
                &&& list.encoded().len() < self.m()
                &&& set@.len() <= PENDING_LIMIT
                &&& forall|k: u32| #[trigger]
                    set@.contains_key(k) ==> k < self.m() && 1 <= set@[k] <= max_rank(self.p())
            },
            Hll::Dense { .. } => true,
        }
    }

    /// What a flush makes of `before`: the same array with nothing pending, dense where
    /// `before` was dense or where the compressed array no longer is smaller than the flat
    /// one.
    pub open spec fn flushes_to(before: Hll, after: Hll) -> bool {
        &&& after.p() == before.p()
        &&& after.m() == before.m()
        &&& after.stored() == before@
        &&& after.pending() == Map::<u32, u8>::empty()
        &&& after.dense() <==> before.dense() || compress(before@).len() >= before.m()
    }

    /// What the observation of `rank` at register `idx` makes of `before`.
    ///
    /// A dense estimator raises the register in place. A sparse one leaves itself alone
    /// where the same or a higher rank already waits for that register; else it records the
    /// rank as pending, and flushes when more than `PENDING_LIMIT` observations wait.
    pub open spec fn steps_to(before: Hll, after: Hll, idx: u32, rank: u8) -> bool {
        let grown = before.pending().insert(idx, rank);
        &&& after.p() == before.p()
        &&& after.m() == before.m()
        &&& if before.dense() {
            after.dense() && after.stored() == observe(before.stored(), idx as int, rank)
        } else if before.pending().contains_key(idx) && before.pending()[idx] >= rank {
            after == before
        } else if grown.len() <= PENDING_LIMIT {
            !after.dense() && after.stored() == before.stored() && after.pending() == grown
        } else {
            &&& after.stored() == raised(before.stored(), grown)
            &&& after.pending() == Map::<u32, u8>::empty()
            &&& after.dense() <==> compress(after.stored()).len() >= before.m()
        }
    }

    /// What the addition of a value with the digest `hash` makes of `before`: register
    /// `index_of(hash, p)` has seen `rank_of(hash, p)`.
    pub open spec fn adds_to(before: Hll, after: Hll, hash: u64) -> bool {
        &&& after@ == observe(
            before@,
            index_of(hash, before.p()),
            rank_of(hash, before.p()) as u8,
        )
        &&& Hll::steps_to(
            before,
            after,
            index_of(hash, before.p()) as u32,
            rank_of(hash, before.p()) as u8,
        )
    }

    /// What a merge makes of `a` and `b`: every register holds the larger of the two it is
    /// merged from, nothing is pending, and the mode is dense where `a` or `b` is dense or
    /// where the compressed array would not be smaller than the flat one.
    pub open spec fn merges_to(a: Hll, b: Hll, out: Hll) -> bool {
        &&& out.p() == a.p()
        &&& out.m() == a.m()
        &&& out@ == merged(a@, b@)
        &&& out.pending() == Map::<u32, u8>::empty()
        &&& out.dense() <==> a.dense() || b.dense() || compress(merged(a@, b@)).len() >= a.m()
    }

    /// An empty estimator of precision `precision`, in sparse mode.
    pub fn new(precision: u8) -> (out: Result<Hll, HllError>)
        ensures
            match out {
                Ok(hll) => {
                    &&& valid_precision(precision)
                    &&& hll.wf()
                    &&& hll.p() == precision
                    &&& !hll.dense()
                    &&& hll.pending() == Map::<u32, u8>::empty()
                    &&& hll@ == zeroed(register_count(precision))
                },
                Err(e) => !valid_precision(precision) && e == HllError::InvalidPrecision,
            },
    {
        if precision > MAX_PRECISION || precision < MIN_PRECISION {
            return Err(HllError::InvalidPrecision);
        }
        proof {
            lemma_index_bounds(0, precision);
            vstd::bits::lemma_u32_shl_is_mul(1, precision as u32);
            lemma_compress_zeroed_len(register_count(precision));
            lemma_raised_nothing(zeroed(register_count(precision)));
        }
        let m: u32 = 1u32 << precision as u32;
        let hll = Hll::Sparse {
            m,
            p: precision,
            set: HashMap::new(),
            list: CompressedList::new(m as usize),
        };
        Ok(hll)
    }

    /// The precision.
    pub fn precision(&self) -> (p: u8)
        ensures
            p == self.p(),
    {
        match self {
            Hll::Sparse { p, .. } => *p,
            Hll::Dense { p, .. } => *p,
        }
    }

    /// The number of registers.
    pub fn register_count(&self) -> (m: u32)
        ensures
            m == self.m(),
    {
        match self {
            Hll::Sparse { m, .. } => *m,
            Hll::Dense { m, .. } => *m,
        }
    }

    /// Whether the estimator is in dense mode.
    pub fn is_dense(&self) -> (dense: bool)
        ensures
            dense == self.dense(),
    {
        match self {
            Hll::Sparse { .. } => false,
            Hll::Dense { .. } => true,
        }
    }

    /// The logical register array.
    pub fn registers(&self) -> (regs: Vec<u8>)
        requires
            self.wf(),
        ensures
            regs@ == self@,
    {
        match self {
            Hll::Sparse { m, set, list, .. } => fold_pending(list, set, *m),
            Hll::Dense { registers, .. } => {
                proof {
                    lemma_raised_nothing(registers@);
                }
                vstd::slice::slice_to_vec(registers.as_slice())
            },
        }
    }

    /// The estimator that holds `regs`: sparse while the compressed array is smaller than
    /// the flat one, else dense.
    pub(crate) fn hold(p: u8, m: u32, regs: Vec<u8>) -> (hll: Hll)
        requires
            valid_precision(p),
            m == register_count(p),
            regs.len() == m,
            bounded(regs@, max_rank(p)),
        ensures
            hll.wf(),
            hll.p() == p,
            hll.stored() == regs@,
            hll.pending() == Map::<u32, u8>::empty(),
            hll.dense() <==> compress(regs@).len() >= m,
    {
        proof {
            assert forall|i: int| 0 <= i < regs@.len() implies #[trigger] regs@[i]
                <= MAX_CODED_RANK by {
                assert(regs@[i] <= max_rank(p));
            }
        }
        let list = CompressedList::from_registers(regs.as_slice());
        if list.encoded_len() >= m as usize {
            Hll::Dense { m, p, registers: regs }
        } else {
            Hll::Sparse { m, p, set: HashMap::new(), list }
        }
    }

    /// Merges the pending observations into the stored array, and turns dense where the
    /// compressed array no longer is smaller than the flat one.
    pub fn flush(&mut self)
        requires
            old(self).wf(),
        ensures
            final(self).wf(),
            final(self)@ == old(self)@,
            Hll::flushes_to(*old(self), *final(self)),
    {
        let next: Option<Hll> = match &*self {
            Hll::Dense { registers, .. } => {
                proof {
                    lemma_raised_nothing(registers@);
                }
                None
            },
            Hll::Sparse { m, p, set, list } => {
                if set.is_empty() {
                    proof {
                        assert(set@ =~= Map::<u32, u8>::empty());
                        lemma_raised_nothing(list@);
                    }
                    None
                } else {
                    let regs = fold_pending(list, set, *m);
                    proof {
                        lemma_raised_bounded(list@, set@, max_rank(*p));
                    }
                    Some(Hll::hold(*p, *m, regs))
                }
            },
        };
        if let Some(hll) = next {
            proof {
                lemma_raised_nothing(hll.stored());
            }
            *self = hll;
        }
    }

    /// Records that register `idx` has seen `rank`.
    pub fn add_rank(&mut self, idx: u32, rank: u8)
        requires
            old(self).wf(),
            idx < old(self).m(),
            1 <= rank <= max_rank(old(self).p()),
        ensures
            final(self).wf(),
            final(self)@ == observe(old(self)@, idx as int, rank),
            Hll::steps_to(*old(self), *final(self), idx, rank),
    {
        let next: Option<Hll> = match self {
            Hll::Dense { registers, .. } => {
                proof {
                    lemma_raised_nothing(registers@);
                    lemma_raised_nothing(observe(registers@, idx as int, rank));
                }
                raise(registers, idx as usize, rank);
                None
            },
            Hll::Sparse { m, p, set, list } => {
                let waiting: bool = match set.get(&idx) {
                    Some(r) => *r >= rank,
                    None => false,
                };
                proof {
                    lemma_raised_insert(list@, set@, idx, rank);
                    lemma_raised_bounded(list@, set@.insert(idx, rank), max_rank(*p));
                }
                if waiting {
                    None
                } else if set.len() >= PENDING_LIMIT && !set.contains_key(&idx) {
                    let mut regs = fold_pending(list, set, *m);
                    raise(&mut regs, idx as usize, rank);
                    Some(Hll::hold(*p, *m, regs))
                } else {
                    set.insert(idx, rank);
                    None
                }
            },
        };
        if let Some(hll) = next {
            proof {
                lemma_raised_nothing(hll.stored());
            }
            *self = hll;
        }
    }

    /// Records the observation of a value by its 64-bit hash: the top `p` bits select the
    /// register, the rest give the rank.
    pub fn add_hash(&mut self, hash: u64)
        requires
            old(self).wf(),
        ensures
            final(self).wf(),
            Hll::adds_to(*old(self), *final(self), hash),
    {
        let p = self.precision();
        let idx = register_index(hash, p);
        let rank = register_rank(hash, p);
        self.add_rank(idx, rank);
    }

    /// Records the observation of `value`, by its digest.
    ///
    /// The digest comes from outside, so the contract says what holds of every digest: the
    /// estimator takes the step that `add_hash` takes for it.
    pub fn add<T: Hash>(&mut self, value: &T)
        requires
            old(self).wf(),
        ensures
            final(self).wf(),
            exists|hash: u64| #[trigger] Hll::adds_to(*old(self), *final(self), hash),
    {
        let hash = hash64(value);
        self.add_hash(hash);
    }

    /// The number of registers that hold 0, after a flush.
    pub fn count_zeros(&mut self) -> (zeros: u32)
        requires
            old(self).wf(),
        ensures
            final(self).wf(),
            final(self)@ == old(self)@,
            Hll::flushes_to(*old(self), *final(self)),
            zeros == zero_count(old(self)@),
    {
        self.flush();
        match self {
            Hll::Sparse { list, .. } => list.zeros(),
            Hll::Dense { registers, .. } => {
                proof {
                    lemma_zero_count_bound(registers@);
                }
                count_zeros(registers.as_slice()) as u32
            },
        }
    }

    /// The sum of `2^(-r)` over all registers `r`, scaled by `2^64`, after a flush.
    pub fn sum_inverses(&mut self) -> (sum: u128)
        requires
            old(self).wf(),
        ensures
            final(self).wf(),
            final(self)@ == old(self)@,
            Hll::flushes_to(*old(self), *final(self)),
            sum == inverse_sum(old(self)@),
    {
        self.flush();
        match self {
            Hll::Sparse { list, .. } => {
                let regs = list.to_registers();
                sum_inverses(regs.as_slice())
            },
            Hll::Dense { registers, .. } => sum_inverses(registers.as_slice()),
        }
    }

    /// The union of two estimators of one precision: every register holds the larger of
    /// the two it is merged from. The result is dense where either estimator is, or where
    /// the compressed array would not be smaller than the flat one.
    pub fn merge(a: &Hll, b: &Hll) -> (out: Result<Hll, HllError>)
        requires
            a.wf(),
            b.wf(),
        ensures
            match out {
                Ok(hll) => a.p() == b.p() && hll.wf() && Hll::merges_to(*a, *b, hll),
                Err(e) => a.p() != b.p() && e == HllError::PrecisionMismatch,
            },
    {
        let p = a.precision();
        if p != b.precision() {
            return Err(HllError::PrecisionMismatch);
        }
        let m = a.register_count();
        let left = a.registers();
        let right = b.registers();
        let regs = merge_registers(left.as_slice(), right.as_slice());
        proof {
            lemma_raised_bounded(a.stored(), a.pending(), max_rank(p));
            lemma_raised_bounded(b.stored(), b.pending(), max_rank(p));
            lemma_merged_bounds(a@, b@, max_rank(p));
            lemma_raised_nothing(regs@);
        }
        if a.is_dense() || b.is_dense() {
            Ok(Hll::Dense { m, p, registers: regs })
        } else {
            Ok(Hll::hold(p, m, regs))
        }
    }

    /// Merges `other` into this estimator. Where the precisions differ, the estimator is
    /// left as it was.
    pub fn merge_into(&mut self, other: &Hll) -> (out: Result<(), HllError>)
        requires
            old(self).wf(),
            other.wf(),
        ensures
            final(self).wf(),
            match out {
                Ok(_) => old(self).p() == other.p() && Hll::merges_to(
                    *old(self),
                    *other,
                    *final(self),
                ),
                Err(e) => {
                    &&& old(self).p() != other.p()
                    &&& e == HllError::PrecisionMismatch
                    &&& *final(self) == *old(self)
                },
            },
    {
        match Hll::merge(&*self, other) {
            Ok(hll) => {
                *self = hll;
                Ok(())
            },
            Err(e) => Err(e),
        }
    }
}

/// The stored array with the pending observations applied.
fn fold_pending(list: &CompressedList, set: &HashMap<u32, u8>, m: u32) -> (regs: Vec<u8>)
    requires
        list.wf(),
        list@.len() == m,
    ensures
        regs@ == raised(list@, set@),
{
    let mut regs = list.to_registers();
    let mut i: u32 = 0;
    while i < m
        invariant
            i <= m,
            regs@.len() == m,
            list@.len() == m,
            forall|k: int| 0 <= k < i ==> #[trigger] regs@[k] == raised(list@, set@)[k],
            forall|k: int| i <= k < m ==> #[trigger] regs@[k] == list@[k],
        decreases m - i,
    {
        match set.get(&i) {
            Some(r) => {
                raise(&mut regs, i as usize, *r);
            },
            None => {},
        }
        i = i + 1;
    }
    proof {
        assert(regs@ =~= raised(list@, set@));
    }
    regs
}

/// With nothing pending the array is as it is stored.
pub proof fn lemma_raised_nothing(regs: Seq<u8>)
    ensures
        raised(regs, Map::<u32, u8>::empty()) == regs,
{
    assert(raised(regs, Map::<u32, u8>::empty()) =~= regs);
}

/// Recording an observation as pending is observing it, unless the same or a higher rank
/// already waits for the register: then observing it changes nothing.
pub proof fn lemma_raised_insert(regs: Seq<u8>, pending: Map<u32, u8>, idx: u32, rank: u8)
    requires
        idx < regs.len() <= u32::MAX,
    ensures
        pending.contains_key(idx) && pending[idx] >= rank ==> observe(
            raised(regs, pending),
            idx as int,
            rank,
        ) == raised(regs, pending),
        !(pending.contains_key(idx) && pending[idx] >= rank) ==> raised(
            regs,
            pending.insert(idx, rank),
        ) == observe(raised(regs, pending), idx as int, rank),
{
    let before = raised(regs, pending);
    if pending.contains_key(idx) && pending[idx] >= rank {
        assert(observe(before, idx as int, rank) =~= before);
    } else {
        let after = raised(regs, pending.insert(idx, rank));
        assert forall|i: int| 0 <= i < regs.len() implies after[i] == observe(
            before,
            idx as int,
            rank,
        )[i] by {
            if i as u32 != idx {
                assert(i != idx);
            }
        }
        assert(after =~= observe(before, idx as int, rank));
    }
}

/// Pending observations within a bound keep an array within it.
pub proof fn lemma_raised_bounded(regs: Seq<u8>, pending: Map<u32, u8>, limit: int)
    requires
        bounded(regs, limit),
        forall|k: u32| #[trigger] pending.contains_key(k) ==> pending[k] <= limit,
    ensures
        bounded(raised(regs, pending), limit),
        raised(regs, pending).len() == regs.len(),
{
    assert forall|i: int| 0 <= i < regs.len() implies #[trigger] raised(regs, pending)[i]
        <= limit by {
        assert(regs[i] <= limit);
    }
}

} // verus!
