//! The one source of randomness this crate relies on.

use vstd::prelude::*;

verus! {

/// Relies on `rand::random_range` over `0..bound`: the sample lies in the
/// range, which is not empty. Nothing else is assumed of a random draw.
#[verifier::external_body]
pub fn random_below(bound: usize) -> (r: usize)
    requires
        bound > 0,
    ensures
        r < bound,
{
    rand::random_range(0..bound)
}

} // verus!
