//! A concrete random-index source backed by the `rand` crate.

use vstd::prelude::*;
use crate::Rng;

verus! {

#[verifier::external_type_specification]
#[verifier::external_body]
pub struct ExSmallRng(rand::rngs::SmallRng);

/// Relies on rand's `SeedableRng::from_entropy`: a fresh generator seeded
/// from the operating system's entropy source. Nothing can be promised of
/// its state; it aborts only if the entropy source itself fails.
#[verifier::external_body]
fn small_rng_from_entropy() -> rand::rngs::SmallRng {
    rand::SeedableRng::from_entropy()
}

/// Relies on rand's `SeedableRng::seed_from_u64`: a generator built from
/// the given seed, never panicking. Nothing is promised of its state.
#[verifier::external_body]
fn small_rng_from_seed(seed: u64) -> rand::rngs::SmallRng {
    rand::SeedableRng::seed_from_u64(seed)
}

/// Relies on rand's `Rng::gen_range` over `0..bound`: a sample within the
/// range. It panics only on an empty range, which the precondition rules
/// out.
#[verifier::external_body]
fn sample_below(rng: &mut rand::rngs::SmallRng, bound: usize) -> (r: usize)
    requires
        bound >= 1,
    ensures
        r < bound,
{
    rand::Rng::gen_range(rng, 0..bound)
}

/// A small, fast pseudorandom generator, seeded from the machine's entropy
/// source or from a fixed seed.
pub struct EntropyRng {
    rng: rand::rngs::SmallRng,
}

impl EntropyRng {
    /// A generator seeded from the operating system's entropy source.
    pub fn from_entropy() -> (r: EntropyRng) {
        EntropyRng { rng: small_rng_from_entropy() }
    }

    /// A generator in the fixed state that `seed` determines; useful where
    /// a run must be repeatable.
    pub fn from_seed(seed: u64) -> (r: EntropyRng) {
        EntropyRng { rng: small_rng_from_seed(seed) }
    }
}

impl Rng for EntropyRng {
    fn next_below(&mut self, bound: usize) -> (r: usize) {
        sample_below(&mut self.rng, bound)
    }
}

} // verus!
