//! The 64-bit digest of a value, taken with the standard library's SipHash 2-4 hasher under
//! its fixed default keys.
use std::hash::{Hash, Hasher, SipHasher};
use vstd::prelude::*;

verus! {

/// `std::hash::SipHasher`, carried through as an opaque value.
#[verifier::external_type_specification]
#[verifier::external_body]
#[allow(deprecated)]
pub struct ExSipHasher(SipHasher);

/// Calls `SipHasher::new`, which makes a hasher with both keys zero. Nothing is claimed of
/// the hasher.
#[verifier::external_body]
#[allow(deprecated)]
pub(crate) fn fresh_hasher() -> SipHasher {
    SipHasher::new()
}

/// Calls `Hash::hash`, which feeds `value` to the hasher. Nothing is claimed of the state
/// the hasher is left in.
#[verifier::external_body]
#[allow(deprecated)]
pub(crate) fn feed<T: Hash>(value: &T, state: &mut SipHasher) {
    value.hash(state)
}

/// Calls `Hasher::finish`, which gives the digest of what the hasher was fed. Nothing is
/// claimed of the digest.
#[verifier::external_body]
#[allow(deprecated)]
pub(crate) fn digest(state: &SipHasher) -> u64 {
    state.finish()
}

/// The digest of `value`. Every 64-bit number may come back.
pub fn hash64<T: Hash>(value: &T) -> u64 {
    let mut state = fresh_hasher();
    feed(value, &mut state);
    digest(&state)
}

} // verus!
