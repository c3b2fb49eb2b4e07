//! Trusted access to the process random source.

use vstd::prelude::*;
use rand::RngExt;
use rand::seq::SliceRandom;
use crate::game::Orientation;

verus! {

/// Relies on rand's `RngExt::random_range` on the thread-local generator: it
/// returns a uniformly distributed value inside the given range, and only
/// panics when the range is empty, which the precondition rules out.
#[verifier::external_body]
pub(crate) fn rand_range(lo: u32, hi: u32) -> (r: u32)
    requires
        lo <= hi,
    ensures
        lo <= r <= hi,
{
    rand::rng().random_range(lo..=hi)
}

/// Relies on rand's `SliceRandom::shuffle`: it permutes the slice in place,
/// so afterwards the vector holds the same elements as a multiset.
#[verifier::external_body]
pub(crate) fn shuffle_moves(v: &mut Vec<(usize, Orientation)>)
    ensures
        final(v)@.len() == old(v)@.len(),
        final(v)@.to_multiset() == old(v)@.to_multiset(),
{
    v.shuffle(&mut rand::rng());
}

} // verus!
