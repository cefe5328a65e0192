//! Verifiable core of a Monte Carlo path tracer.
//!
//! Rendering itself is dominated by floating-point geometry and shading,
//! which live outside this crate. What stands here is everything the
//! renderer decides with exact values: the structure of the bounding-volume
//! hierarchy built over the scene, the permutation tables behind the
//! gradient-noise texture, the binary pixel-map format the framebuffer is
//! written to, the generic ordering helpers, and the path-depth cutoff.

use vstd::prelude::*;

pub mod bvh;
pub mod integrator;
pub mod math;
pub mod perlin;
pub mod ppm;
pub mod random;

verus! {

/// A source of uniformly distributed random indices.
///
/// The renderer draws from many independent generators (one per worker);
/// the verified algorithms only ever need a bounded index, so that is all
/// the trait promises.
pub trait Rng {
    /// Draws one index below `bound`.
    fn next_below(&mut self, bound: usize) -> (r: usize)
        requires
            bound >= 1,
        ensures
            r < bound,
    ;
}

} // verus!
