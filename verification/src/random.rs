//! The one nondeterministic input of the simulation: a uniformly drawn
//! integer below a bound, used to pick a route and a speed at spawn time.

use vstd::prelude::*;

verus! {

/// Relies on rand's `Rng::gen_range` over the range `0..bound`: the sampled
/// value lies in the range; the range is nonempty, so the call does not
/// panic.  Nothing is assumed about the distribution, so every caller is
/// verified for every possible outcome.
#[verifier::external_body]
pub(crate) fn random_below(bound: u64) -> (r: u64)
    requires
        bound > 0,
    ensures
        r < bound,
{
    rand::Rng::gen_range(&mut rand::thread_rng(), 0..bound)
}

} // verus!
