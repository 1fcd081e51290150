//! What holds of every estimator, stated over the register arrays and the steps that the
//! contracts of the operations speak of.
use crate::bits::{index_of, lemma_index_bounds, max_rank, rank_of, register_count};
use crate::hll::{lemma_raised_bounded, lemma_raised_nothing, Hll};
use crate::registers::{
    inverse_sum, lemma_merged_associative, lemma_merged_commutative, lemma_merged_identity,
    lemma_observe_idempotent, lemma_observe_monotone, lemma_zeroed_statistics, zero_count, zeroed,
};
use crate::wire::{lemma_parsed_wire, parsed, wire};
use vstd::prelude::*;

verus! {

/// Whether state `i + 1` of `trace` comes from state `i` by the addition of some value.
pub open spec fn added_at(trace: Seq<Hll>, i: int) -> bool {
    exists|hash: u64| #[trigger] Hll::adds_to(trace[i], trace[i + 1], hash)
}

/// Whether every state of `trace` but the first comes from the one before it by the
/// addition of some value.
pub open spec fn additions(trace: Seq<Hll>) -> bool {
    forall|i: int| 0 <= i < trace.len() - 1 ==> #[trigger] added_at(trace, i)
}

/// A new estimator has `2^p` registers, all of them zero: the number of zero registers
/// and the harmonic sum are those of an estimator that has seen nothing.
pub proof fn lemma_fresh(hll: Hll)
    requires
        hll.wf(),
        hll@ == zeroed(register_count(hll.p())),
    ensures
        hll@.len() == register_count(hll.p()),
        zero_count(hll@) == register_count(hll.p()),
        inverse_sum(hll@) == register_count(hll.p()) * 0x1_0000_0000_0000_0000,
{
    lemma_zeroed_statistics(register_count(hll.p()));
}

/// Adding a value lowers no register; the number of zero registers and the harmonic sum,
/// from which the estimate is computed, can only fall.
pub proof fn lemma_add_monotone(before: Hll, after: Hll, hash: u64)
    requires
        before.wf(),
        Hll::adds_to(before, after, hash),
    ensures
        after@.len() == before@.len(),
        forall|i: int| 0 <= i < before@.len() ==> before@[i] <= #[trigger] after@[i],
        zero_count(after@) <= zero_count(before@),
        inverse_sum(after@) <= inverse_sum(before@),
{
    lemma_index_bounds(hash, before.p());
    lemma_observe_monotone(
        before@,
        index_of(hash, before.p()),
        rank_of(hash, before.p()) as u8,
    );
}

/// Adding a value a second time leaves the register array and the mode as the first
/// addition left them.
pub proof fn lemma_add_idempotent(before: Hll, once: Hll, twice: Hll, hash: u64)
    requires
        before.wf(),
        once.wf(),
        Hll::adds_to(before, once, hash),
        Hll::adds_to(once, twice, hash),
    ensures
        twice@ == once@,
        twice.dense() == once.dense(),
{
    lemma_index_bounds(hash, before.p());
    lemma_observe_idempotent(
        before@,
        index_of(hash, before.p()),
        rank_of(hash, before.p()) as u8,
    );
    if !once.dense() {
        let idx = index_of(hash, before.p()) as u32;
        let rank = rank_of(hash, before.p()) as u8;
        let grown = once.pending().insert(idx, rank);
        if !(once.pending().contains_key(idx) && once.pending()[idx] >= rank) {
            assert(once.pending() =~= Map::<u32, u8>::empty());
            assert(grown.dom() =~= set![idx]);
        }
    }
}

/// A dense estimator stays dense, whatever is added to it and however often.
pub proof fn lemma_dense_for_good(trace: Seq<Hll>)
    requires
        trace.len() > 0,
        additions(trace),
        trace[0].dense(),
    ensures
        forall|i: int| 0 <= i < trace.len() ==> (#[trigger] trace[i]).dense(),
    decreases trace.len(),
{
    if trace.len() > 1 {
        let shorter = trace.drop_last();
        assert(additions(shorter)) by {
            assert forall|i: int| 0 <= i < shorter.len() - 1 implies #[trigger] added_at(
                shorter,
                i,
            ) by {
                assert(added_at(trace, i));
                let hash = choose|hash: u64| #[trigger] Hll::adds_to(trace[i], trace[i + 1], hash);
                assert(Hll::adds_to(shorter[i], shorter[i + 1], hash));
            }
        }
        lemma_dense_for_good(shorter);
        let last = trace.len() - 1;
        assert(shorter[last - 1].dense());
        assert(added_at(trace, last - 1));
        assert forall|i: int| 0 <= i < trace.len() implies (#[trigger] trace[i]).dense() by {
            if i < last {
                assert(shorter[i].dense());
            }
        }
    }
}

/// A flush and a merge keep the estimator dense as well.
pub proof fn lemma_dense_kept(before: Hll, other: Hll, after: Hll)
    requires
        before.dense(),
        Hll::flushes_to(before, after) || Hll::merges_to(before, other, after) || Hll::merges_to(
            other,
            before,
            after,
        ),
    ensures
        after.dense(),
{
}

/// Merging two estimators gives the same register array and the same mode in either
/// order.
pub proof fn lemma_merge_commutative(a: Hll, b: Hll, ab: Hll, ba: Hll)
    requires
        a.wf(),
        b.wf(),
        a.p() == b.p(),
        Hll::merges_to(a, b, ab),
        Hll::merges_to(b, a, ba),
    ensures
        ab@ == ba@,
        ab.dense() == ba.dense(),
{
    lemma_raised_bounded(a.stored(), a.pending(), max_rank(a.p()));
    lemma_raised_bounded(b.stored(), b.pending(), max_rank(b.p()));
    lemma_merged_commutative(a@, b@);
}

/// Merging three estimators gives the same register array however they are grouped.
pub proof fn lemma_merge_associative(a: Hll, b: Hll, c: Hll, ab: Hll, bc: Hll, left: Hll, right: Hll)
    requires
        a.wf(),
        b.wf(),
        c.wf(),
        a.p() == b.p(),
        b.p() == c.p(),
        Hll::merges_to(a, b, ab),
        Hll::merges_to(ab, c, left),
        Hll::merges_to(b, c, bc),
        Hll::merges_to(a, bc, right),
    ensures
        left@ == right@,
{
    lemma_raised_bounded(a.stored(), a.pending(), max_rank(a.p()));
    lemma_raised_bounded(b.stored(), b.pending(), max_rank(b.p()));
    lemma_raised_bounded(c.stored(), c.pending(), max_rank(c.p()));
    lemma_merged_associative(a@, b@, c@);
}

/// Merging with a new estimator of the same precision, on either side, gives the register
/// array back.
pub proof fn lemma_merge_identity(a: Hll, fresh: Hll, left: Hll, right: Hll)
    requires
        a.wf(),
        fresh.p() == a.p(),
        fresh@ == zeroed(register_count(a.p())),
        Hll::merges_to(a, fresh, left),
        Hll::merges_to(fresh, a, right),
    ensures
        left@ == a@,
        right@ == a@,
{
    lemma_raised_bounded(a.stored(), a.pending(), max_rank(a.p()));
    lemma_merged_identity(a@);
}

/// What a flushed estimator encodes to is an encoding, and decoding it gives back the
/// precision, the mode and the register array, in sparse as in dense mode.
pub proof fn lemma_decode_encode(hll: Hll, back: Hll)
    requires
        hll.wf(),
        hll.pending() == Map::<u32, u8>::empty(),
        Hll::decodes_to(wire(hll.p(), hll.dense(), hll@), back),
    ensures
        parsed(wire(hll.p(), hll.dense(), hll@)) is Some,
        back.p() == hll.p(),
        back@ == hll@,
        back.dense() == hll.dense(),
{
    lemma_raised_nothing(hll.stored());
    lemma_parsed_wire(hll.p(), hll.dense(), hll@);
}

} // verus!
