//! The randomness the search draws on: a seeded pseudo-random
//! generator, injected once at the start of a run so that runs are
//! reproducible.

use rand::rngs::StdRng;
use rand::RngExt;
use rand::SeedableRng;
use vstd::prelude::*;

verus! {

#[verifier::external_type_specification]
#[verifier::external_body]
pub struct ExStdRng(StdRng);

/// Relies on rand's `StdRng::seed_from_u64`: builds a reproducible
/// generator from a plain seed.
#[verifier::external_body]
fn std_rng_from_seed(seed: u64) -> (r: StdRng) {
    StdRng::seed_from_u64(seed)
}

/// Relies on rand's `RngExt::random_range` over `0..bound`: returns
/// a value of that non-empty range.
#[verifier::external_body]
fn std_rng_below(rng: &mut StdRng, bound: u64) -> (r: u64)
    requires
        bound > 0,
    ensures
        r < bound,
{
    rng.random_range(0..bound)
}

/// A seeded source of random numbers. Runs that share a seed share
/// their whole draw sequence.
pub struct RandomSource {
    rng: StdRng,
}

impl RandomSource {
    /// A source whose draws are determined by `seed`.
    pub fn from_seed(seed: u64) -> (r: RandomSource) {
        RandomSource { rng: std_rng_from_seed(seed) }
    }

    /// Draws a number below `bound`.
    pub fn next_below(&mut self, bound: u64) -> (r: u64)
        requires
            bound > 0,
        ensures
            r < bound,
    {
        std_rng_below(&mut self.rng, bound)
    }
}

} // verus!
