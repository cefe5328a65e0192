use finales_funkeln::bvh::{build, AxisKeys, BvhError, BvhItem, BvhTree};
use finales_funkeln::random::EntropyRng;
use finales_funkeln::Rng;

/// A deterministic random source: always picks the given axis.
struct FixedAxis(usize);

impl Rng for FixedAxis {
    fn next_below(&mut self, bound: usize) -> usize {
        self.0 % bound
    }
}

fn keyed(id: usize, x: u64, y: u64, z: u64) -> BvhItem {
    BvhItem { id, keys: Some(AxisKeys { x: Some(x), y: Some(y), z: Some(z) }) }
}

fn leaf_ids(t: &BvhTree, out: &mut Vec<usize>) {
    match t {
        BvhTree::Leaf(id) => out.push(*id),
        BvhTree::Node(l, r) => {
            leaf_ids(l, out);
            leaf_ids(r, out);
        }
    }
}

fn leaf_count(t: &BvhTree) -> usize {
    match t {
        BvhTree::Leaf(_) => 1,
        BvhTree::Node(l, r) => leaf_count(l) + leaf_count(r),
    }
}

/// Checks the split rule on every node: of three the left child takes two,
/// otherwise the left child takes half, rounded down.
fn well_split(t: &BvhTree) -> bool {
    match t {
        BvhTree::Leaf(_) => true,
        BvhTree::Node(l, r) => {
            let n = leaf_count(l) + leaf_count(r);
            let want = if n == 3 { 2 } else { n / 2 };
            leaf_count(l) == want && well_split(l) && well_split(r)
        }
    }
}

#[test]
fn too_few_elements_zero_and_one() {
    let mut rng = EntropyRng::from_entropy();
    match build(Vec::new(), &mut rng) {
        Err(BvhError::TooFewElements(n)) => assert_eq!(n, 0),
        other => panic!("expected a too-few failure, got {:?}", other),
    }
    match build(vec![keyed(0, 1, 2, 3)], &mut rng) {
        Err(BvhError::TooFewElements(n)) => assert_eq!(n, 1),
        other => panic!("expected a too-few failure, got {:?}", other),
    }
}

#[test]
fn missing_bounding_box_is_reported() {
    let mut rng = EntropyRng::from_entropy();
    let items = vec![keyed(0, 1, 1, 1), BvhItem { id: 1, keys: None }];
    assert!(matches!(build(items, &mut rng), Err(BvhError::MissingBoundingBox)));
}

#[test]
fn missing_bounding_box_beats_invalid() {
    let mut rng = EntropyRng::from_entropy();
    let items = vec![
        BvhItem { id: 0, keys: Some(AxisKeys { x: None, y: None, z: None }) },
        BvhItem { id: 1, keys: None },
    ];
    assert!(matches!(build(items, &mut rng), Err(BvhError::MissingBoundingBox)));
}

#[test]
fn invalid_bounding_box_on_every_axis() {
    // With the comparison undefined along all three axes, whichever axis
    // is drawn the build must fail the same way.
    let mut rng = EntropyRng::from_entropy();
    let items = vec![
        keyed(0, 1, 1, 1),
        BvhItem { id: 1, keys: Some(AxisKeys { x: None, y: None, z: None }) },
    ];
    assert!(matches!(build(items, &mut rng), Err(BvhError::InvalidBoundingBox)));
}

#[test]
fn two_items_become_two_ordered_leaves() {
    // Both items carry the same key order on every axis, so whatever axis
    // is drawn the sorted order is the same.
    let mut rng = EntropyRng::from_entropy();
    let items = vec![keyed(7, 9, 9, 9), keyed(3, 2, 2, 2)];
    match build(items, &mut rng) {
        Ok(BvhTree::Node(l, r)) => {
            assert!(matches!(*l, BvhTree::Leaf(3)));
            assert!(matches!(*r, BvhTree::Leaf(7)));
        }
        other => panic!("expected a two-leaf node, got {:?}", other),
    }
}

#[test]
fn three_items_split_two_and_one() {
    let mut rng = FixedAxis(0);
    let items = vec![keyed(0, 30, 30, 30), keyed(1, 10, 10, 10), keyed(2, 20, 20, 20)];
    match build(items, &mut rng) {
        Ok(t) => {
            assert!(well_split(&t));
            let mut ids = Vec::new();
            leaf_ids(&t, &mut ids);
            // Sorted by key: 1 (10), 2 (20), 0 (30); the first two recurse
            // into the left node, the last becomes the right leaf.
            assert_eq!(ids, vec![1, 2, 0]);
            match t {
                BvhTree::Node(l, r) => {
                    assert!(matches!(*r, BvhTree::Leaf(0)));
                    assert!(matches!(*l, BvhTree::Node(_, _)));
                }
                BvhTree::Leaf(_) => panic!("the root must be a node"),
            }
        }
        other => panic!("expected a tree, got {:?}", other),
    }
}

#[test]
fn sorting_follows_the_chosen_axis() {
    // Keys order one way along x and the opposite way along y.
    let items = vec![keyed(0, 1, 9, 5), keyed(1, 9, 1, 5)];
    let mut along_x = FixedAxis(0);
    match build(items.clone(), &mut along_x) {
        Ok(BvhTree::Node(l, r)) => {
            assert!(matches!(*l, BvhTree::Leaf(0)));
            assert!(matches!(*r, BvhTree::Leaf(1)));
        }
        other => panic!("expected a two-leaf node, got {:?}", other),
    }
    let mut along_y = FixedAxis(1);
    match build(items, &mut along_y) {
        Ok(BvhTree::Node(l, r)) => {
            assert!(matches!(*l, BvhTree::Leaf(1)));
            assert!(matches!(*r, BvhTree::Leaf(0)));
        }
        other => panic!("expected a two-leaf node, got {:?}", other),
    }
}

#[test]
fn every_item_lands_in_exactly_one_leaf() {
    let mut rng = EntropyRng::from_entropy();
    for n in 2..40usize {
        let items: Vec<BvhItem> =
            (0..n).map(|i| keyed(i, (i * 37 % 11) as u64, (i * 13 % 7) as u64, i as u64)).collect();
        let tree = build(items, &mut rng).expect("a valid input must build");
        assert!(well_split(&tree));
        let mut ids = Vec::new();
        leaf_ids(&tree, &mut ids);
        assert_eq!(ids.len(), n);
        ids.sort_unstable();
        for (i, id) in ids.iter().enumerate() {
            assert_eq!(*id, i);
        }
    }
}

#[test]
fn describe_names_each_failure() {
    assert_eq!(
        BvhError::MissingBoundingBox.describe(),
        "Encountered an object without a bounding box during BVH construction"
    );
    assert_eq!(
        BvhError::InvalidBoundingBox.describe(),
        "Encountered an object with an invalid bounding box during BVH construction"
    );
    assert_eq!(
        BvhError::TooFewElements(1).describe(),
        "BVH construction needs at least two objects but was given 1"
    );
    assert_eq!(
        BvhError::TooFewElements(0).describe(),
        "BVH construction needs at least two objects but was given 0"
    );
    assert_eq!(
        BvhError::TooFewElements(235).describe(),
        "BVH construction needs at least two objects but was given 235"
    );
    assert_eq!(
        BvhError::TooFewElements(42).describe(),
        "BVH construction needs at least two objects but was given 42"
    );
}

#[test]
fn leaves_come_out_in_key_order() {
    // Keys agree on every axis, so whatever axis each node draws, the
    // leaves must read left to right in ascending key order.
    let mut rng = EntropyRng::from_seed(11);
    for n in 2..20usize {
        let items: Vec<BvhItem> = (0..n)
            .map(|i| {
                let key = ((n - i) * 10) as u64;
                keyed(i, key, key, key)
            })
            .collect();
        let tree = build(items, &mut rng).expect("a valid input must build");
        let mut ids = Vec::new();
        leaf_ids(&tree, &mut ids);
        // Item i carries key (n - i) * 10, so ascending keys mean
        // descending ids.
        for (pos, id) in ids.iter().enumerate() {
            assert_eq!(*id, n - 1 - pos);
        }
    }
}
