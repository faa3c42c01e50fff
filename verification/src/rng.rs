//! The only seam to the random number generator: a uniform draw below a
//! bound and an in-place shuffle. Everything that consumes randomness takes
//! the drawn values as plain arguments and is verified for every outcome.

use vstd::prelude::*;
use rand::RngExt;
use rand::seq::SliceRandom;

verus! {

/// Relies on rand's `RngExt::random_range` over `0..n`: the draw is uniform
/// in the half-open range, so always strictly below `n`; the call panics only
/// on an empty range, which the bound on `n` rules out.
#[verifier::external_body]
pub fn draw_below(n: u32) -> (r: u32)
    requires
        n > 0,
    ensures
        r < n,
{
    rand::rng().random_range(0..n)
}

/// Relies on rand's `SliceRandom::shuffle`: a permutation of the slice is
/// picked and applied in place, so the elements are rearranged but none is
/// added, dropped or changed.
#[verifier::external_body]
pub fn shuffle_vec<T>(v: &mut Vec<T>)
    ensures
        final(v)@.len() == old(v)@.len(),
        final(v)@.to_multiset() == old(v)@.to_multiset(),
{
    v.shuffle(&mut rand::rng());
}

} // verus!
