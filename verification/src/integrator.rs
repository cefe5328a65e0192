//! The path integrator's termination rule.
//!
//! The integrator itself adds and multiplies floating-point radiance and
//! lives with the renderer; the rule that bounds its recursion is exact and
//! stands here.

use vstd::prelude::*;

verus! {

/// A path is followed through at most this many scattering events; deeper
/// bounces contribute emission only. A hard cap, not Russian roulette: the
/// cost per sample stays predictable at the price of a slight negative bias
/// on very deep paths.
pub const MAX_DEPTH: usize = 50;

/// Whether a path that has already scattered `depth` times may scatter
/// once more.
pub fn depth_allows_scatter(depth: usize) -> (r: bool)
    ensures
        r <==> depth < MAX_DEPTH,
{
    depth < MAX_DEPTH
}

} // verus!
