//! Trusted wrappers around the random number generator.

use rand::Rng;
use vstd::prelude::*;

verus! {

/// Relies on rand::random: a uniformly sampled u64; nothing is promised
/// of the value itself.
#[verifier::external_body]
pub(crate) fn random_u64() -> u64 {
    rand::random::<u64>()
}

/// Relies on rand::Rng::gen_range over 0..bound: the range is non-empty,
/// so the call returns a value strictly below `bound`.
#[verifier::external_body]
pub(crate) fn random_u64_below(bound: u64) -> (r: u64)
    requires
        bound >= 1,
    ensures
        r < bound,
{
    rand::thread_rng().gen_range(0..bound)
}

/// Relies on rand::random: a uniformly sampled byte; nothing is promised
/// of the value itself.
#[verifier::external_body]
pub(crate) fn random_u8() -> u8 {
    rand::random::<u8>()
}

} // verus!
