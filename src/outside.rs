//! Calls into outside crates, each behind a contract that the verified code
//! relies on.
use rand::seq::SliceRandom;
use range_check::Check;
use vstd::prelude::*;

verus! {

/// Relies on `uuid::Uuid::new_v4` and `Uuid::as_u128`: a fresh random
/// identifier, as its 128 bits. Nothing is promised about its value.
#[verifier::external_body]
pub(crate) fn fresh_id() -> (r: u128) {
    uuid::Uuid::new_v4().as_u128()
}

/// Relies on `rand::seq::SliceRandom::shuffle` with `rand::thread_rng`: the
/// elements are permuted in some random order, none added or lost.
#[verifier::external_body]
pub(crate) fn shuffle<T>(v: &mut Vec<T>)
    ensures
        final(v)@.to_multiset() == old(v)@.to_multiset(),
{
    v.shuffle(&mut rand::thread_rng());
}

/// Relies on `range_check::Check::check_range` over `lo..hi`: `Ok(v)` when
/// `lo <= v < hi`, otherwise an error whose `outside_value` is `v`.
#[verifier::external_body]
pub(crate) fn check_range(v: u8, lo: u8, hi: u8) -> (r: Result<u8, u8>)
    ensures
        r == (if lo <= v < hi { Ok::<u8, u8>(v) } else { Err::<u8, u8>(v) }),
{
    v.check_range(lo..hi).map_err(|e| e.outside_value)
}

} // verus!
