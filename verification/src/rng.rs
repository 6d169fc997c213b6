//! The source of randomness for the network's stochastic choices.

use vstd::prelude::*;
use rand::RngExt;

verus! {

/// Relies on rand's `RngExt::random_range` over `0..bound`: a draw from the
/// thread-local generator, uniform over the non-empty range. Nothing more is
/// assumed of the value than that it lies below `bound`; two calls on the same
/// bound may differ.
#[verifier::external_body]
pub(crate) fn rand_below(bound: u128) -> (r: u128)
    requires
        bound > 0,
    ensures
        r < bound,
{
    rand::rng().random_range(0..bound)
}

/// A random index below `bound`.
pub(crate) fn rand_index(bound: usize) -> (r: usize)
    requires
        bound > 0,
    ensures
        r < bound,
{
    let v = rand_below(bound as u128);
    assert(v < bound as u128);
    v as usize
}

} // verus!
