use finales_funkeln::integrator::{depth_allows_scatter, MAX_DEPTH};
use finales_funkeln::math::{clamp, partial_max, partial_min};
use finales_funkeln::perlin::{corner_index, identity_permutation, shuffle};
use finales_funkeln::random::EntropyRng;
use finales_funkeln::Rng;

/// A deterministic random source for tests: hands out the given values in
/// turn, reduced into range.
struct ScriptedRng {
    values: Vec<usize>,
    next: usize,
}

impl ScriptedRng {
    fn new(values: Vec<usize>) -> ScriptedRng {
        ScriptedRng { values, next: 0 }
    }
}

impl Rng for ScriptedRng {
    fn next_below(&mut self, bound: usize) -> usize {
        let v = if self.values.is_empty() {
            0
        } else {
            let v = self.values[self.next % self.values.len()];
            self.next += 1;
            v
        };
        v % bound
    }
}

#[test]
fn partial_min_orders_integers() {
    assert_eq!(partial_min(1u64, 2u64), 1);
    assert_eq!(partial_min(2u64, 1u64), 1);
    assert_eq!(partial_min(-3i32, 4i32), -3);
    assert_eq!(partial_min(7u8, 7u8), 7);
}

#[test]
fn partial_max_orders_integers() {
    assert_eq!(partial_max(1u64, 2u64), 2);
    assert_eq!(partial_max(2u64, 1u64), 2);
    assert_eq!(partial_max(-3i32, 4i32), 4);
}

#[test]
fn partial_min_on_floats_prefers_second_when_unordered() {
    assert_eq!(partial_min(1.5f64, 2.5f64), 1.5);
    assert_eq!(partial_max(1.5f64, 2.5f64), 2.5);
    // An unordered pair (NaN on the left) falls through to the second operand.
    assert!(partial_min(f64::NAN, 1.0f64) == 1.0);
    assert!(partial_max(f64::NAN, 1.0f64) == 1.0);
    // NaN on the right wins the comparison the same way.
    assert!(partial_min(1.0f64, f64::NAN).is_nan());
}

#[test]
fn clamp_forces_into_interval() {
    assert_eq!(clamp(5u64, 1u64, 3u64), 3);
    assert_eq!(clamp(0u64, 1u64, 3u64), 1);
    assert_eq!(clamp(2u64, 1u64, 3u64), 2);
    assert_eq!(clamp(2.5f32, 0.0f32, 1.0f32), 1.0);
    assert_eq!(clamp(-0.5f32, 0.0f32, 1.0f32), 0.0);
    assert_eq!(clamp(0.25f32, 0.0f32, 1.0f32), 0.25);
}

#[test]
fn depth_cutoff_is_fifty() {
    assert_eq!(MAX_DEPTH, 50);
    assert!(depth_allows_scatter(0));
    assert!(depth_allows_scatter(49));
    assert!(!depth_allows_scatter(50));
    assert!(!depth_allows_scatter(51));
}

#[test]
fn identity_permutation_counts_up() {
    let p = identity_permutation();
    assert_eq!(p.len(), 256);
    for (i, v) in p.iter().enumerate() {
        assert_eq!(*v, i);
    }
}

#[test]
fn shuffle_keeps_a_permutation() {
    let mut p = identity_permutation();
    let mut rng = EntropyRng::from_entropy();
    shuffle(&mut p, &mut rng);
    assert_eq!(p.len(), 256);
    let mut sorted = p.clone();
    sorted.sort_unstable();
    for (i, v) in sorted.iter().enumerate() {
        assert_eq!(*v, i);
    }
}

#[test]
fn shuffle_with_scripted_swaps() {
    // Swapping with the chosen index leaves each element somewhere; the
    // result is still a permutation even for a fixed script.
    let mut p = identity_permutation();
    let mut rng = ScriptedRng::new(vec![0, 3, 7, 11]);
    shuffle(&mut p, &mut rng);
    let mut sorted = p.clone();
    sorted.sort_unstable();
    for (i, v) in sorted.iter().enumerate() {
        assert_eq!(*v, i);
    }
}

#[test]
fn corner_index_on_identity_tables_is_xor_of_masked_coordinates() {
    let px = identity_permutation();
    let py = identity_permutation();
    let pz = identity_permutation();
    // (12+1) ^ (7+0) ^ (300+1 masked to 45): 13 ^ 7 ^ 45 == 39.
    let r = corner_index(&px, &py, &pz, 12, 7, 300, 1, 0, 1);
    assert_eq!(r, (13usize & 255) ^ (7usize & 255) ^ (301usize & 255));
    assert_eq!(r, 13 ^ 7 ^ 45);
}

#[test]
fn corner_index_stays_in_table() {
    let mut px = identity_permutation();
    let mut py = identity_permutation();
    let mut pz = identity_permutation();
    let mut rng = EntropyRng::from_seed(7);
    shuffle(&mut px, &mut rng);
    shuffle(&mut py, &mut rng);
    shuffle(&mut pz, &mut rng);
    for i in 0..300usize {
        for d in 0..2usize {
            let r = corner_index(&px, &py, &pz, i, 2 * i, 3 * i, d, 1 - d, d);
            assert!(r < 256);
        }
    }
}

#[test]
fn entropy_rng_stays_below_bound() {
    let mut rng = EntropyRng::from_entropy();
    for bound in 1..100usize {
        for _ in 0..20 {
            assert!(rng.next_below(bound) < bound);
        }
    }
    let mut seeded = EntropyRng::from_seed(42);
    for _ in 0..1000 {
        assert!(seeded.next_below(3) < 3);
    }
}
