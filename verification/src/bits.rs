//! Decomposition of a 64-bit hash into a register index and a rank.
use vstd::arithmetic::power2::{lemma_pow2_pos, lemma_pow2_strictly_increases, pow2};
use vstd::bits::{lemma_u64_low_bits_mask_is_mod, lemma_u64_shr_is_div, low_bits_mask};
use vstd::prelude::*;
use vstd::std_specs::bits::{axiom_u64_leading_zeros, u64_leading_zeros};

verus! {

/// The number written by bits `lo..hi` of `bits`, bit 0 being the least significant.
/// Bits at position 64 and above are zero.
pub open spec fn bit_range(bits: u64, hi: int, lo: int) -> int {
    (bits as int / pow2(lo as nat) as int) % (pow2((hi - lo) as nat) as int)
}

/// Extracts bits `lo..hi` of `bits`, right-aligned.
///
/// A range of 64 or more bits keeps every bit from `lo` upwards; a range that starts
/// at bit 64 or above is empty.
pub fn eb64(bits: u64, hi: u8, lo: u8) -> (r: u64)
    requires
        lo <= hi,
    ensures
        r == bit_range(bits, hi as int, lo as int),
{
    let diff: u8 = hi - lo;
    if lo >= 64 {
        proof {
            lemma_pow2_pos(diff as nat);
            vstd::arithmetic::power2::lemma2_to64_rest();
            if lo > 64 {
                lemma_pow2_strictly_increases(64, lo as nat);
            }
            vstd::arithmetic::div_mod::lemma_basic_div(bits as int, pow2(lo as nat) as int);
            vstd::arithmetic::div_mod::lemma_small_mod(0, pow2(diff as nat));
        }
        return 0;
    }
    let shifted: u64 = bits >> lo;
    proof {
        lemma_u64_shr_is_div(bits, lo as u64);
    }
    if diff >= 64 {
        proof {
            vstd::arithmetic::power2::lemma2_to64_rest();
            if diff > 64 {
                lemma_pow2_strictly_increases(64, diff as nat);
            }
            vstd::arithmetic::div_mod::lemma_small_mod(shifted as nat, pow2(diff as nat));
        }
        shifted
    } else {
        proof {
            vstd::bits::lemma_u64_pow2_no_overflow(diff as nat);
            vstd::bits::lemma_u64_shl_is_mul(1, diff as u64);
        }
        let mask: u64 = (1u64 << diff) - 1;
        proof {
            assert(mask == low_bits_mask(diff as nat));
            lemma_u64_low_bits_mask_is_mod(shifted, diff as nat);
        }
        shifted & mask
    }
}

/// The smallest precision an estimator may have.
pub const MIN_PRECISION: u8 = 4;

/// The largest precision an estimator may have.
pub const MAX_PRECISION: u8 = 18;

/// Whether `p` is a precision an estimator may have.
pub open spec fn valid_precision(p: u8) -> bool {
    MIN_PRECISION <= p <= MAX_PRECISION
}

/// The number of registers of an estimator of precision `p`.
pub open spec fn register_count(p: u8) -> nat {
    pow2(p as nat)
}

/// The largest rank a register of an estimator of precision `p` can hold.
pub open spec fn max_rank(p: u8) -> int {
    65 - p
}

/// The register that `hash` selects at precision `p`: the number written by its top `p` bits.
pub open spec fn index_of(hash: u64, p: u8) -> int {
    hash as int / pow2((64 - p) as nat) as int
}

/// The low `64 - p` bits of `hash` moved to the top of the word, followed by a guard bit
/// that bounds the number of leading zeros by `64 - p`.
pub open spec fn guarded_remainder(hash: u64, p: u8) -> u64 {
    (hash << (p as u64)) | (1u64 << ((p - 1) as u64))
}

/// The rank of `hash` at precision `p`: one more than the number of zero bits that lead the
/// part of the hash below its top `p` bits.
pub open spec fn rank_of(hash: u64, p: u8) -> int {
    u64_leading_zeros(guarded_remainder(hash, p)) + 1
}

/// A rank lies between 1 and `max_rank(p)`.
pub proof fn lemma_rank_bounds(hash: u64, p: u8)
    requires
        valid_precision(p),
    ensures
        1 <= rank_of(hash, p) <= max_rank(p),
{
    let w = guarded_remainder(hash, p);
    let j: u64 = (p - 1) as u64;
    axiom_u64_leading_zeros(w);
    let shifted: u64 = hash << (p as u64);
    assert(((shifted | (1u64 << j)) >> j) & 1u64 == 1u64) by (bit_vector)
        requires
            j < 64,
    ;
    if u64_leading_zeros(w) > 64 - p {
        assert((w >> j) & 1u64 == 0u64);
    }
}

/// A register index lies below the register count.
pub proof fn lemma_index_bounds(hash: u64, p: u8)
    requires
        valid_precision(p),
    ensures
        0 <= index_of(hash, p) < register_count(p),
        register_count(p) <= 0x4_0000,
        register_count(p) >= 16,
{
    let low = pow2((64 - p) as nat) as int;
    let high = pow2(p as nat) as int;
    lemma_pow2_pos((64 - p) as nat);
    vstd::arithmetic::power2::lemma_pow2_adds((64 - p) as nat, p as nat);
    vstd::arithmetic::power2::lemma2_to64();
    vstd::arithmetic::power2::lemma2_to64_rest();
    assert(hash as int / low < high) by (nonlinear_arith)
        requires
            0 <= hash as int,
            (hash as int) < low * high,
            low > 0,
    ;
    assert(0 <= hash as int / low) by (nonlinear_arith)
        requires
            0 <= hash as int,
            low > 0,
    ;
    if p < 18 {
        lemma_pow2_strictly_increases(p as nat, 18);
    }
    if p > 4 {
        lemma_pow2_strictly_increases(4, p as nat);
    }
}

/// The register that `hash` selects at precision `p`.
pub fn register_index(hash: u64, p: u8) -> (idx: u32)
    requires
        valid_precision(p),
    ensures
        idx == index_of(hash, p),
        idx < register_count(p),
{
    let top: u64 = eb64(hash, 64, 64 - p);
    proof {
        lemma_index_bounds(hash, p);
        vstd::arithmetic::div_mod::lemma_small_mod(index_of(hash, p) as nat, pow2(p as nat));
    }
    top as u32
}

/// The rank of `hash` at precision `p`.
pub fn register_rank(hash: u64, p: u8) -> (rank: u8)
    requires
        valid_precision(p),
    ensures
        rank == rank_of(hash, p),
        1 <= rank <= max_rank(p),
{
    let w: u64 = (hash << (p as u64)) | (1u64 << ((p - 1) as u64));
    proof {
        lemma_rank_bounds(hash, p);
    }
    let zeros: u32 = w.leading_zeros();
    (zeros + 1) as u8
}

} // verus!
