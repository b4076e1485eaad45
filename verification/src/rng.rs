//! The one random draw the index needs.

use vstd::prelude::*;

verus! {

/// Relies on `rand::Rng::gen_range` over `0..bound`: some value below
/// `bound`; nothing more can be said of a random draw.
#[verifier::external_body]
pub(crate) fn rand_below(bound: usize) -> (r: usize)
    requires
        bound > 0,
    ensures
        r < bound,
{
    rand::Rng::gen_range(&mut rand::thread_rng(), 0..bound)
}

} // verus!
