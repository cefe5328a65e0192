//! Structure of the bounding-volume hierarchy.
//!
//! The geometric half of the hierarchy — the boxes themselves, the slab
//! test, box unions — is floating point and lives with the renderer. What
//! stands here is everything exact about construction: each object is
//! offered under an integer sort key per axis that orders exactly as its
//! box's minimum coordinate does, a random axis is chosen per node, the
//! objects are sorted along it and split by fixed rules, and every object
//! ends up in exactly one leaf of the finished tree.

use vstd::prelude::*;
use vstd::seq_lib::*;
use vstd::string::StringExecFns;
use crate::Rng;

verus! {

/// Why a hierarchy could not be built.
#[derive(Clone, Copy, Debug, PartialEq, Eq, Structural)]
pub enum BvhError {
    /// An object could not report a bounding box at all.
    MissingBoundingBox,
    /// A bounds comparison was undefined (a coordinate was not a number).
    InvalidBoundingBox,
    /// Fewer than two objects were offered; the count is carried along.
    TooFewElements(u8),
}

/// The character standing for the decimal digit `d`.
pub open spec fn decimal_digit_char(d: nat) -> char
    recommends
        d < 10,
{
    ((48 + d) as u8) as char
}

/// The decimal numeral of `n`, most significant digit first, without
/// leading zeros.
pub open spec fn decimal_chars(n: nat) -> Seq<char>
    decreases n,
{
    if n < 10 {
        seq![decimal_digit_char(n)]
    } else {
        decimal_chars(n / 10) + seq![decimal_digit_char(n % 10)]
    }
}

/// A one-character string slice holding the decimal digit `d`.
fn digit_str(d: u8) -> (s: &'static str)
    requires
        d < 10,
    ensures
        s@ =~= seq![decimal_digit_char(d as nat)],
{
    if d == 0 {
        proof { reveal_strlit("0"); }
        "0"
    } else if d == 1 {
        proof { reveal_strlit("1"); }
        "1"
    } else if d == 2 {
        proof { reveal_strlit("2"); }
        "2"
    } else if d == 3 {
        proof { reveal_strlit("3"); }
        "3"
    } else if d == 4 {
        proof { reveal_strlit("4"); }
        "4"
    } else if d == 5 {
        proof { reveal_strlit("5"); }
        "5"
    } else if d == 6 {
        proof { reveal_strlit("6"); }
        "6"
    } else if d == 7 {
        proof { reveal_strlit("7"); }
        "7"
    } else if d == 8 {
        proof { reveal_strlit("8"); }
        "8"
    } else {
        proof { reveal_strlit("9"); }
        "9"
    }
}

/// Appends the decimal numeral of `n` to `s`.
fn append_decimal_u8(s: &mut String, n: u8)
    ensures
        final(s)@ == old(s)@ + decimal_chars(n as nat),
{
    if n >= 100 {
        s.append(digit_str(n / 100));
    }
    if n >= 10 {
        s.append(digit_str((n / 10) % 10));
    }
    s.append(digit_str(n % 10));
    proof {
        let v = n as nat;
        if v >= 100 {
            assert(v / 10 / 10 == v / 100);
            assert(decimal_chars(v) == decimal_chars(v / 10) + seq![decimal_digit_char(v % 10)]);
            assert(decimal_chars(v / 10) == decimal_chars(v / 100) + seq![
                decimal_digit_char(v / 10 % 10),
            ]);
            assert(decimal_chars(v / 100) =~= seq![decimal_digit_char(v / 100)]);
            assert(final(s)@ =~= old(s)@ + decimal_chars(v));
        } else if v >= 10 {
            assert(decimal_chars(v / 10) =~= seq![decimal_digit_char(v / 10)]);
            assert(v / 10 == v / 10 % 10);
            assert(final(s)@ =~= old(s)@ + decimal_chars(v));
        } else {
            assert(final(s)@ =~= old(s)@ + decimal_chars(v));
        }
    }
}

impl BvhError {
    /// What `describe` returns for each variant.
    pub open spec fn message(self) -> Seq<char> {
        match self {
            BvhError::MissingBoundingBox => "Encountered an object without a bounding box during BVH construction"@,
            BvhError::InvalidBoundingBox => "Encountered an object with an invalid bounding box during BVH construction"@,
            BvhError::TooFewElements(n) => "BVH construction needs at least two objects but was given "@
                + decimal_chars(n as nat),
        }
    }

    /// A human-readable account of the failure.
    pub fn describe(&self) -> (s: String)
        ensures
            s@ == self.message(),
    {
        match self {
            BvhError::MissingBoundingBox => String::from_str(
                "Encountered an object without a bounding box during BVH construction",
            ),
            BvhError::InvalidBoundingBox => String::from_str(
                "Encountered an object with an invalid bounding box during BVH construction",
            ),
            BvhError::TooFewElements(n) => {
                let mut s = String::from_str(
                    "BVH construction needs at least two objects but was given ",
                );
                append_decimal_u8(&mut s, *n);
                s
            },
        }
    }
}

/// Per-axis sort keys for one object: the minimum coordinate of its
/// bounding box along each axis, carried as an integer that orders exactly
/// as the coordinate does. `None` marks an axis along which comparison is
/// undefined (the coordinate is not a number).
#[derive(Clone, Copy, Debug)]
pub struct AxisKeys {
    pub x: Option<u64>,
    pub y: Option<u64>,
    pub z: Option<u64>,
}

/// One object offered to the hierarchy: the caller's identifier for it,
/// and its sort keys — `None` where it cannot report a bounding box at all.
#[derive(Clone, Copy, Debug)]
pub struct BvhItem {
    pub id: usize,
    pub keys: Option<AxisKeys>,
}

/// The shape of a finished hierarchy: leaves carry the identifiers the
/// caller supplied, inner nodes own exactly two subtrees.
#[derive(Debug)]
pub enum BvhTree {
    Leaf(usize),
    Node(Box<BvhTree>, Box<BvhTree>),
}

/// The sort key of `it` along `axis` (0, 1 or 2), if it has one.
pub open spec fn item_key(it: BvhItem, axis: int) -> Option<u64> {
    match it.keys {
        Some(k) => if axis == 0 {
            k.x
        } else if axis == 1 {
            k.y
        } else {
            k.z
        },
        None => None,
    }
}

/// The identifiers at the leaves, left to right.
pub open spec fn leaf_ids(t: BvhTree) -> Seq<usize>
    decreases t,
{
    match t {
        BvhTree::Leaf(id) => seq![id],
        BvhTree::Node(l, r) => leaf_ids(*l) + leaf_ids(*r),
    }
}

/// How many objects the tree holds.
pub open spec fn leaf_count(t: BvhTree) -> nat {
    leaf_ids(t).len()
}

/// How many of `n` sorted objects go into the left subtree: of three, the
/// first two; otherwise the first half, rounded down.
pub open spec fn split_left(n: nat) -> nat {
    if n == 3 {
        2
    } else {
        n / 2
    }
}

/// Every inner node splits its objects by the fixed rule.
pub open spec fn well_split(t: BvhTree) -> bool
    decreases t,
{
    match t {
        BvhTree::Leaf(_) => true,
        BvhTree::Node(l, r) => {
            &&& well_split(*l)
            &&& well_split(*r)
            &&& leaf_count(*l) == split_left(leaf_count(*l) + leaf_count(*r))
        },
    }
}

/// The identifiers of the items, in order.
pub open spec fn ids_of(items: Seq<BvhItem>) -> Seq<usize> {
    items.map_values(|it: BvhItem| it.id)
}

/// Some item cannot report a bounding box.
pub open spec fn has_missing(items: Seq<BvhItem>) -> bool {
    exists|i: int| 0 <= i < items.len() && items[i].keys is None
}

/// Every item has a sort key along every axis.
pub open spec fn complete(items: Seq<BvhItem>) -> bool {
    forall|i: int, a: int| 0 <= i < items.len() && 0 <= a < 3 ==> item_key(items[i], a) is Some
}

/// The items are ordered by their key along `axis`.
pub open spec fn sorted_by_axis(items: Seq<BvhItem>, axis: int) -> bool {
    forall|i: int, j: int|
        0 <= i < j < items.len() ==> #[trigger] item_key(items[i], axis).unwrap()
            <= #[trigger] item_key(items[j], axis).unwrap()
}

/// The item carrying `id`; meaningful where ids are distinct and the id
/// occurs.
pub open spec fn item_of(items: Seq<BvhItem>, id: usize) -> BvhItem {
    items[choose|k: int| 0 <= k < items.len() && items[k].id == id]
}

/// Along `axis`, every object named on the left sorts no later than every
/// object named on the right.
pub open spec fn keys_le_on(
    items: Seq<BvhItem>,
    left: Seq<usize>,
    right: Seq<usize>,
    axis: int,
) -> bool {
    forall|i: int, j: int|
        0 <= i < left.len() && 0 <= j < right.len() ==> #[trigger] item_key(
            item_of(items, left[i]),
            axis,
        ).unwrap() <= #[trigger] item_key(item_of(items, right[j]), axis).unwrap()
}

/// The spatial partition the hierarchy is for: at every inner node some
/// axis orders each object of the left subtree before each object of the
/// right subtree.
pub open spec fn partitioned(t: BvhTree, items: Seq<BvhItem>) -> bool
    decreases t,
{
    match t {
        BvhTree::Leaf(_) => true,
        BvhTree::Node(l, r) => {
            &&& partitioned(*l, items)
            &&& partitioned(*r, items)
            &&& exists|axis: int|
                0 <= axis < 3 && keys_le_on(items, leaf_ids(*l), leaf_ids(*r), axis)
        },
    }
}

/// With distinct ids, looking an item's own id up gives that item back.
proof fn lemma_item_of_member(items: Seq<BvhItem>, x: BvhItem)
    requires
        ids_of(items).no_duplicates(),
        items.contains(x),
    ensures
        item_of(items, x.id) == x,
{
    let m = choose|m: int| 0 <= m < items.len() && items[m] == x;
    assert(items[m].id == x.id);
    let k = choose|k: int| 0 <= k < items.len() && items[k].id == x.id;
    assert(0 <= k < items.len() && items[k].id == x.id);
    if k != m {
        assert(ids_of(items)[k] == items[k].id);
        assert(ids_of(items)[m] == items[m].id);
        assert(false);
    }
}

/// Distinct ids survive any reordering of the items.
proof fn lemma_no_duplicates_transfer(a: Seq<usize>, b: Seq<usize>)
    requires
        a.to_multiset() == b.to_multiset(),
        a.no_duplicates(),
    ensures
        b.no_duplicates(),
{
    a.lemma_multiset_has_no_duplicates();
    b.lemma_multiset_has_no_duplicates_conv();
}

/// A tree partitioned with respect to some of the items is partitioned
/// with respect to all of them, since each id resolves to the same item.
proof fn lemma_partitioned_embed(t: BvhTree, sub: Seq<BvhItem>, items: Seq<BvhItem>)
    requires
        partitioned(t, sub),
        ids_of(items).no_duplicates(),
        forall|q: int| 0 <= q < sub.len() ==> items.contains(#[trigger] sub[q]),
        forall|id: usize| leaf_ids(t).contains(id) ==> ids_of(sub).contains(id),
    ensures
        partitioned(t, items),
    decreases t,
{
    match t {
        BvhTree::Leaf(_) => {},
        BvhTree::Node(l, r) => {
            assert forall|id: usize| leaf_ids(*l).contains(id) implies ids_of(sub).contains(
                id,
            ) by {
                let k = choose|k: int| 0 <= k < leaf_ids(*l).len() && leaf_ids(*l)[k] == id;
                assert(leaf_ids(t)[k] == id);
                assert(leaf_ids(t).contains(id));
            }
            assert forall|id: usize| leaf_ids(*r).contains(id) implies ids_of(sub).contains(
                id,
            ) by {
                let k = choose|k: int| 0 <= k < leaf_ids(*r).len() && leaf_ids(*r)[k] == id;
                assert(leaf_ids(t)[leaf_ids(*l).len() + k] == id);
                assert(leaf_ids(t).contains(id));
            }
            lemma_partitioned_embed(*l, sub, items);
            lemma_partitioned_embed(*r, sub, items);
            let axis = choose|axis: int|
                0 <= axis < 3 && keys_le_on(sub, leaf_ids(*l), leaf_ids(*r), axis);
            assert forall|i: int, j: int|
                0 <= i < leaf_ids(*l).len() && 0 <= j < leaf_ids(*r).len() implies #[trigger] item_key(
                item_of(items, leaf_ids(*l)[i]),
                axis,
            ).unwrap() <= #[trigger] item_key(item_of(items, leaf_ids(*r)[j]), axis).unwrap() by {
                let lid = leaf_ids(*l)[i];
                let rid = leaf_ids(*r)[j];
                assert(leaf_ids(*l).contains(lid));
                assert(leaf_ids(*r).contains(rid));
                assert(ids_of(sub).contains(lid));
                assert(ids_of(sub).contains(rid));
                let kl = choose|k: int| 0 <= k < sub.len() && ids_of(sub)[k] == lid;
                let kr = choose|k: int| 0 <= k < sub.len() && ids_of(sub)[k] == rid;
                assert(sub[kl].id == lid && sub[kr].id == rid);
                assert(item_of(sub, lid) == sub[choose|k: int|
                    0 <= k < sub.len() && sub[k].id == lid]);
                let cl = choose|k: int| 0 <= k < sub.len() && sub[k].id == lid;
                let cr = choose|k: int| 0 <= k < sub.len() && sub[k].id == rid;
                assert(0 <= cl < sub.len() && sub[cl].id == lid);
                assert(0 <= cr < sub.len() && sub[cr].id == rid);
                lemma_item_of_member(items, sub[cl]);
                lemma_item_of_member(items, sub[cr]);
                assert(item_of(items, lid) == sub[cl]);
                assert(item_of(items, rid) == sub[cr]);
                assert(item_key(item_of(sub, lid), axis).unwrap() <= item_key(
                    item_of(sub, rid),
                    axis,
                ).unwrap());
            }
            assert(keys_le_on(items, leaf_ids(*l), leaf_ids(*r), axis));
        },
    }
}

/// Cutting a sorted run in two puts every left object before every right
/// object along the sort axis.
proof fn lemma_split_partition(
    items: Seq<BvhItem>,
    sorted: Seq<BvhItem>,
    axis: int,
    split: int,
    lseq: Seq<usize>,
    rseq: Seq<usize>,
)
    requires
        0 <= axis < 3,
        sorted_by_axis(sorted, axis),
        sorted.to_multiset() == items.to_multiset(),
        ids_of(items).no_duplicates(),
        0 <= split <= sorted.len(),
        lseq.to_multiset() == ids_of(sorted.subrange(0, split)).to_multiset(),
        rseq.to_multiset() == ids_of(sorted.subrange(split, sorted.len() as int)).to_multiset(),
    ensures
        keys_le_on(items, lseq, rseq, axis),
{
    broadcast use group_to_multiset_ensures;

    let lpart = sorted.subrange(0, split);
    let rpart = sorted.subrange(split, sorted.len() as int);
    assert forall|i: int, j: int|
        0 <= i < lseq.len() && 0 <= j < rseq.len() implies #[trigger] item_key(
        item_of(items, lseq[i]),
        axis,
    ).unwrap() <= #[trigger] item_key(item_of(items, rseq[j]), axis).unwrap() by {
        let lid = lseq[i];
        let rid = rseq[j];
        assert(lseq.contains(lid));
        assert(rseq.contains(rid));
        lemma_multiset_contains_transfer(lseq, ids_of(lpart), lid);
        lemma_multiset_contains_transfer(rseq, ids_of(rpart), rid);
        assert(ids_of(lpart).contains(lid));
        assert(ids_of(rpart).contains(rid));
        let kl = choose|k: int| 0 <= k < lpart.len() && ids_of(lpart)[k] == lid;
        let kr = choose|k: int| 0 <= k < rpart.len() && ids_of(rpart)[k] == rid;
        assert(lpart[kl].id == lid && rpart[kr].id == rid);
        assert(lpart[kl] == sorted[kl]);
        assert(rpart[kr] == sorted[split + kr]);
        assert(sorted.contains(sorted[kl]));
        assert(sorted.contains(sorted[split + kr]));
        lemma_multiset_contains_transfer(sorted, items, sorted[kl]);
        lemma_multiset_contains_transfer(sorted, items, sorted[split + kr]);
        lemma_item_of_member(items, sorted[kl]);
        lemma_item_of_member(items, sorted[split + kr]);
        if kl < split + kr {
            assert(item_key(sorted[kl], axis).unwrap() <= item_key(
                sorted[split + kr],
                axis,
            ).unwrap());
        } else {
            assert(false);
        }
    }
}

/// The sort key of `it` along `axis`.
fn axis_key_of(it: BvhItem, axis: usize) -> (r: u64)
    requires
        axis < 3,
        item_key(it, axis as int) is Some,
    ensures
        Some(r) == item_key(it, axis as int),
{
    let k = it.keys.unwrap();
    if axis == 0 {
        k.x.unwrap()
    } else if axis == 1 {
        k.y.unwrap()
    } else {
        k.z.unwrap()
    }
}

/// Sorts the items by their key along `axis`, keeping exactly the same
/// collection of items.
fn sort_by_axis(items: Vec<BvhItem>, axis: usize) -> (out: Vec<BvhItem>)
    requires
        axis < 3,
        forall|i: int| 0 <= i < items@.len() ==> item_key(items@[i], axis as int) is Some,
    ensures
        out@.len() == items@.len(),
        out@.to_multiset() == items@.to_multiset(),
        ids_of(out@).to_multiset() == ids_of(items@).to_multiset(),
        sorted_by_axis(out@, axis as int),
        forall|i: int| 0 <= i < out@.len() ==> item_key(out@[i], axis as int) is Some,
{
    let n = items.len();
    let mut out: Vec<BvhItem> = Vec::new();
    let mut idx: usize = 0;
    proof {
        assert(items@.subrange(0, 0) =~= Seq::<BvhItem>::empty());
        assert(out@.to_multiset() =~= items@.subrange(0, 0).to_multiset());
        assert(ids_of(out@) =~= ids_of(items@.subrange(0, 0)));
    }
    while idx < n
        invariant
            n == items@.len(),
            axis < 3,
            forall|i: int| 0 <= i < items@.len() ==> item_key(items@[i], axis as int) is Some,
            idx <= n,
            out@.len() == idx,
            out@.to_multiset() == items@.subrange(0, idx as int).to_multiset(),
            ids_of(out@).to_multiset() == ids_of(items@.subrange(0, idx as int)).to_multiset(),
            sorted_by_axis(out@, axis as int),
            forall|i: int| 0 <= i < out@.len() ==> item_key(out@[i], axis as int) is Some,
        decreases n - idx,
    {
        let it = items[idx];
        let key = axis_key_of(it, axis);
        let mut p: usize = 0;
        while p < out.len() && axis_key_of(out[p], axis) <= key
            invariant
                axis < 3,
                p <= out.len(),
                forall|i: int| 0 <= i < out@.len() ==> item_key(out@[i], axis as int) is Some,
                Some(key) == item_key(it, axis as int),
                forall|q: int|
                    0 <= q < p ==> #[trigger] item_key(out@[q], axis as int).unwrap() <= key,
            decreases out.len() - p,
        {
            p += 1;
        }
        let ghost pre = out@;
        out.insert(p, it);
        proof {
            to_multiset_insert(pre, p as int, it);
            let prefix = items@.subrange(0, idx as int);
            assert(items@.subrange(0, idx as int + 1) =~= prefix.push(items@[idx as int]));
            to_multiset_build(prefix, items@[idx as int]);
            assert(out@.to_multiset() == items@.subrange(0, idx as int + 1).to_multiset());

            assert(ids_of(out@) =~= ids_of(pre).insert(p as int, it.id));
            to_multiset_insert(ids_of(pre), p as int, it.id);
            assert(ids_of(items@.subrange(0, idx as int + 1)) =~= ids_of(prefix).push(it.id));
            to_multiset_build(ids_of(prefix), it.id);
            assert(ids_of(out@).to_multiset() == ids_of(
                items@.subrange(0, idx as int + 1),
            ).to_multiset());

            assert forall|i: int, j: int| 0 <= i < j < out@.len() implies #[trigger] item_key(
                out@[i],
                axis as int,
            ).unwrap() <= #[trigger] item_key(out@[j], axis as int).unwrap() by {
                if j < p {
                    assert(out@[i] == pre[i] && out@[j] == pre[j]);
                } else if i > p {
                    assert(out@[i] == pre[i - 1] && out@[j] == pre[j - 1]);
                } else if i == p && j > p {
                    assert(out@[i] == it && out@[j] == pre[j - 1]);
                    assert(p < pre.len() + 1);
                    assert(key <= item_key(pre[p as int], axis as int).unwrap() || p == pre.len());
                    assert(item_key(pre[p as int], axis as int).unwrap() <= item_key(
                        pre[j - 1],
                        axis as int,
                    ).unwrap() || p as int == j - 1);
                } else if i < p && j == p {
                    assert(out@[i] == pre[i] && out@[j] == it);
                } else {
                    assert(i < p && j > p);
                    assert(out@[i] == pre[i] && out@[j] == pre[j - 1]);
                    assert(item_key(pre[i], axis as int).unwrap() <= key);
                    assert(key <= item_key(pre[p as int], axis as int).unwrap() || p == pre.len());
                    assert(item_key(pre[p as int], axis as int).unwrap() <= item_key(
                        pre[j - 1],
                        axis as int,
                    ).unwrap() || p as int == j - 1);
                }
            }
        }
        idx += 1;
    }
    proof {
        assert(items@.subrange(0, n as int) =~= items@);
    }
    out
}

/// An item of `s` is an item of `t` whenever the two hold the same
/// collection.
proof fn lemma_multiset_contains_transfer<A>(s: Seq<A>, t: Seq<A>, x: A)
    requires
        s.to_multiset() == t.to_multiset(),
        s.contains(x),
    ensures
        t.contains(x),
{
    broadcast use group_to_multiset_ensures;

    assert(s.to_multiset().count(x) > 0);
    assert(t.to_multiset().count(x) > 0);
}

/// Builds the hierarchy's structure over the given items.
///
/// A random axis is chosen for every node, the items are sorted along it
/// by their integer keys, and the sorted run is split: of two items each
/// becomes a leaf, of three the first two recurse and the last becomes a
/// leaf, and a longer run is halved. The finished tree splits every node
/// by that rule and holds exactly the identifiers offered, each in one
/// leaf. Construction fails — before any node is built — when fewer than
/// two items are offered, when an item has no bounding box, or when a
/// comparison along a chosen axis is undefined.
pub fn build<R: Rng>(items: Vec<BvhItem>, rng: &mut R) -> (res: Result<BvhTree, BvhError>)
    ensures
        match res {
            Ok(t) => {
                &&& items@.len() >= 2
                &&& !has_missing(items@)
                &&& t matches BvhTree::Node(_, _)
                &&& well_split(t)
                &&& leaf_ids(t).to_multiset() == ids_of(items@).to_multiset()
            },
            Err(e) => match e {
                BvhError::TooFewElements(n) => items@.len() < 2 && n == items@.len() as u8,
                BvhError::MissingBoundingBox => items@.len() >= 2 && has_missing(items@),
                BvhError::InvalidBoundingBox => items@.len() >= 2 && !has_missing(items@)
                    && !complete(items@),
            },
        },
        items@.len() < 2 ==> res == Err::<BvhTree, BvhError>(BvhError::TooFewElements(items@.len() as u8)),
        items@.len() >= 2 && has_missing(items@) ==> res == Err::<BvhTree, BvhError>(BvhError::MissingBoundingBox),
        items@.len() >= 2 && complete(items@) ==> res is Ok,
        ids_of(items@).no_duplicates() ==> (res matches Ok(t) ==> partitioned(t, items@)),
    decreases items@.len(),
{
    let n = items.len();
    if n < 2 {
        return Err(BvhError::TooFewElements(n as u8));
    }

    let mut i: usize = 0;
    while i < n
        invariant
            n == items@.len(),
            n >= 2,
            i <= n,
            forall|q: int| 0 <= q < i ==> items@[q].keys is Some,
        decreases n - i,
    {
        if items[i].keys.is_none() {
            proof {
                assert(items@[i as int].keys is None);
                assert(has_missing(items@));
                assert(item_key(items@[i as int], 0) is None);
                assert(!complete(items@));
            }
            return Err(BvhError::MissingBoundingBox);
        }
        i += 1;
    }
    assert(!has_missing(items@));

    let axis = rng.next_below(3);

    let mut j: usize = 0;
    while j < n
        invariant
            n == items@.len(),
            n >= 2,
            axis < 3,
            j <= n,
            forall|q: int| 0 <= q < items@.len() ==> items@[q].keys is Some,
            forall|q: int| 0 <= q < j ==> item_key(items@[q], axis as int) is Some,
        decreases n - j,
    {
        let k = items[j].keys.unwrap();
        let ko = if axis == 0 {
            k.x
        } else if axis == 1 {
            k.y
        } else {
            k.z
        };
        if ko.is_none() {
            proof {
                assert(item_key(items@[j as int], axis as int) is None);
                assert(!complete(items@));
                assert(forall|q: int| 0 <= q < items@.len() ==> !(items@[q].keys is None));
                assert(!has_missing(items@));
            }
            return Err(BvhError::InvalidBoundingBox);
        }
        j += 1;
    }

    proof {
        assert(forall|q: int| 0 <= q < items@.len() ==> !(items@[q].keys is None));
        assert(!has_missing(items@));
    }
    let sorted = sort_by_axis(items, axis);
    let ghost sorted_view = sorted@;
    proof {
        assert forall|q: int| 0 <= q < sorted_view.len() implies #[trigger] sorted_view[q].keys
            is Some by {
            assert(item_key(sorted_view[q], axis as int) is Some);
        }
    }

    if n == 2 {
        let t = BvhTree::Node(
            Box::new(BvhTree::Leaf(sorted[0].id)),
            Box::new(BvhTree::Leaf(sorted[1].id)),
        );
        proof {
            let ghost a = sorted_view[0].id;
            let ghost b = sorted_view[1].id;
            assert(leaf_ids(BvhTree::Leaf(a)) == seq![a]);
            assert(leaf_ids(BvhTree::Leaf(b)) == seq![b]);
            assert(leaf_ids(t) == seq![a] + seq![b]);
            assert(leaf_ids(t) =~= ids_of(sorted_view));
            assert(leaf_count(BvhTree::Leaf(a)) == 1);
            assert(leaf_count(BvhTree::Leaf(b)) == 1);
            assert(split_left(2) == 1);
            assert(well_split(BvhTree::Leaf(a)));
            assert(well_split(BvhTree::Leaf(b)));
            assert(well_split(t));
            if ids_of(items@).no_duplicates() {
                lemma_no_duplicates_transfer(ids_of(items@), ids_of(sorted_view));
                assert(ids_of(sorted_view.subrange(0, 1)) =~= seq![a]);
                assert(ids_of(sorted_view.subrange(1, 2)) =~= seq![b]);
                lemma_split_partition(items@, sorted_view, axis as int, 1, seq![a], seq![b]);
                assert(partitioned(BvhTree::Leaf(a), items@));
                assert(partitioned(BvhTree::Leaf(b), items@));
                assert(exists|ax: int|
                    0 <= ax < 3 && keys_le_on(items@, seq![a], seq![b], ax)) by {
                    assert(keys_le_on(items@, seq![a], seq![b], axis as int));
                }
                assert(partitioned(t, items@));
            }
        }
        return Ok(t);
    }

    let mut left_items = sorted;
    let split = if n == 3 {
        2
    } else {
        n / 2
    };
    let right_items = left_items.split_off(split);
    let ghost left_view = left_items@;
    let ghost right_view = right_items@;
    proof {
        assert(sorted_view =~= left_view + right_view);
        assert forall|q: int| 0 <= q < left_view.len() implies sorted_view.contains(
            #[trigger] left_view[q],
        ) by {
            assert(sorted_view[q] == left_view[q]);
        }
        assert forall|q: int| 0 <= q < right_view.len() implies sorted_view.contains(
            #[trigger] right_view[q],
        ) by {
            assert(sorted_view[q + left_view.len()] == right_view[q]);
        }
        assert(left_view =~= sorted_view.subrange(0, split as int));
        assert(right_view =~= sorted_view.subrange(split as int, sorted_view.len() as int));
    }

    let left_tree = match build(left_items, rng) {
        Ok(t) => t,
        Err(e) => {
            proof {
                lemma_sub_error_transfer(left_view, sorted_view, items@, e, axis as int);
            }
            return Err(e);
        },
    };

    if n == 3 {
        let t = BvhTree::Node(Box::new(left_tree), Box::new(BvhTree::Leaf(right_items[0].id)));
        proof {
            broadcast use group_to_multiset_ensures;

            assert(leaf_ids(BvhTree::Leaf(right_view[0].id)) == seq![right_view[0].id]);
            assert(leaf_ids(t) == leaf_ids(left_tree) + seq![right_view[0].id]);
            assert(ids_of(sorted_view) =~= ids_of(left_view) + ids_of(right_view));
            assert(ids_of(right_view) =~= seq![right_view[0].id]);
            lemma_multiset_commutative(leaf_ids(left_tree), seq![right_view[0].id]);
            lemma_multiset_commutative(ids_of(left_view), ids_of(right_view));
            assert(leaf_ids(t).to_multiset() == ids_of(items@).to_multiset());
            assert(leaf_count(left_tree) == ids_of(left_view).to_multiset().len());
            assert(ids_of(left_view).len() == 2);
            assert(leaf_count(BvhTree::Leaf(right_view[0].id)) == 1);
            assert(leaf_ids(left_tree).len() == leaf_ids(left_tree).to_multiset().len());
            assert(ids_of(left_view).len() == ids_of(left_view).to_multiset().len());
            assert(leaf_count(left_tree) == 2);
            assert(leaf_count(t) == leaf_count(left_tree) + 1);
            assert(split_left(3) == 2);
            assert(well_split(BvhTree::Leaf(right_view[0].id)));
            assert(well_split(t));
            if ids_of(items@).no_duplicates() {
                let c = right_view[0].id;
                lemma_no_duplicates_transfer(ids_of(items@), ids_of(sorted_view));
                assert forall|q1: int, q2: int|
                    0 <= q1 < ids_of(left_view).len() && 0 <= q2 < ids_of(left_view).len() && q1
                        != q2 implies ids_of(left_view)[q1] != ids_of(left_view)[q2] by {
                    assert(ids_of(left_view)[q1] == ids_of(sorted_view)[q1]);
                    assert(ids_of(left_view)[q2] == ids_of(sorted_view)[q2]);
                }
                assert(ids_of(left_view).no_duplicates());
                assert(partitioned(left_tree, left_view));
                assert forall|q: int| 0 <= q < left_view.len() implies items@.contains(
                    #[trigger] left_view[q],
                ) by {
                    lemma_multiset_contains_transfer(sorted_view, items@, left_view[q]);
                }
                assert forall|id: usize| leaf_ids(left_tree).contains(id) implies ids_of(
                    left_view,
                ).contains(id) by {
                    assert(leaf_ids(left_tree).to_multiset().count(id) > 0);
                    assert(ids_of(left_view).to_multiset().count(id) > 0);
                }
                lemma_partitioned_embed(left_tree, left_view, items@);
                assert(ids_of(sorted_view.subrange(2, 3)) =~= seq![c]);
                lemma_split_partition(
                    items@,
                    sorted_view,
                    axis as int,
                    2,
                    leaf_ids(left_tree),
                    seq![c],
                );
                assert(partitioned(BvhTree::Leaf(c), items@));
                assert(exists|ax: int|
                    0 <= ax < 3 && keys_le_on(items@, leaf_ids(left_tree), seq![c], ax)) by {
                    assert(keys_le_on(items@, leaf_ids(left_tree), seq![c], axis as int));
                }
                assert(partitioned(t, items@));
            }
        }
        return Ok(t);
    }

    let right_tree = match build(right_items, rng) {
        Ok(t) => t,
        Err(e) => {
            proof {
                lemma_sub_error_transfer(right_view, sorted_view, items@, e, axis as int);
            }
            return Err(e);
        },
    };

    let t = BvhTree::Node(Box::new(left_tree), Box::new(right_tree));
    proof {
        broadcast use group_to_multiset_ensures;

        assert(leaf_ids(t) == leaf_ids(left_tree) + leaf_ids(right_tree));
        assert(ids_of(sorted_view) =~= ids_of(left_view) + ids_of(right_view));
        lemma_multiset_commutative(leaf_ids(left_tree), leaf_ids(right_tree));
        lemma_multiset_commutative(ids_of(left_view), ids_of(right_view));
        assert(leaf_ids(t).to_multiset() == ids_of(items@).to_multiset());
        assert(leaf_ids(left_tree).len() == leaf_ids(left_tree).to_multiset().len());
        assert(leaf_ids(right_tree).len() == leaf_ids(right_tree).to_multiset().len());
        assert(leaf_count(left_tree) == ids_of(left_view).to_multiset().len());
        assert(leaf_count(right_tree) == ids_of(right_view).to_multiset().len());
        assert(ids_of(left_view).len() == left_view.len());
        assert(ids_of(right_view).len() == right_view.len());
        assert(leaf_count(t) == n);
        assert(split_left(n as nat) == n as nat / 2);
        assert(well_split(t));
        if ids_of(items@).no_duplicates() {
            lemma_no_duplicates_transfer(ids_of(items@), ids_of(sorted_view));
            assert forall|q1: int, q2: int|
                0 <= q1 < ids_of(left_view).len() && 0 <= q2 < ids_of(left_view).len() && q1
                    != q2 implies ids_of(left_view)[q1] != ids_of(left_view)[q2] by {
                assert(ids_of(left_view)[q1] == ids_of(sorted_view)[q1]);
                assert(ids_of(left_view)[q2] == ids_of(sorted_view)[q2]);
            }
            assert(ids_of(left_view).no_duplicates());
            assert forall|q1: int, q2: int|
                0 <= q1 < ids_of(right_view).len() && 0 <= q2 < ids_of(right_view).len() && q1
                    != q2 implies ids_of(right_view)[q1] != ids_of(right_view)[q2] by {
                assert(ids_of(right_view)[q1] == ids_of(sorted_view)[q1 + left_view.len()]);
                assert(ids_of(right_view)[q2] == ids_of(sorted_view)[q2 + left_view.len()]);
            }
            assert(ids_of(right_view).no_duplicates());
            assert(partitioned(left_tree, left_view));
            assert(partitioned(right_tree, right_view));
            assert forall|q: int| 0 <= q < left_view.len() implies items@.contains(
                #[trigger] left_view[q],
            ) by {
                lemma_multiset_contains_transfer(sorted_view, items@, left_view[q]);
            }
            assert forall|q: int| 0 <= q < right_view.len() implies items@.contains(
                #[trigger] right_view[q],
            ) by {
                lemma_multiset_contains_transfer(sorted_view, items@, right_view[q]);
            }
            assert forall|id: usize| leaf_ids(left_tree).contains(id) implies ids_of(
                left_view,
            ).contains(id) by {
                assert(leaf_ids(left_tree).to_multiset().count(id) > 0);
                assert(ids_of(left_view).to_multiset().count(id) > 0);
            }
            assert forall|id: usize| leaf_ids(right_tree).contains(id) implies ids_of(
                right_view,
            ).contains(id) by {
                assert(leaf_ids(right_tree).to_multiset().count(id) > 0);
                assert(ids_of(right_view).to_multiset().count(id) > 0);
            }
            lemma_partitioned_embed(left_tree, left_view, items@);
            lemma_partitioned_embed(right_tree, right_view, items@);
            lemma_split_partition(
                items@,
                sorted_view,
                axis as int,
                split as int,
                leaf_ids(left_tree),
                leaf_ids(right_tree),
            );
            assert(exists|ax: int|
                0 <= ax < 3 && keys_le_on(items@, leaf_ids(left_tree), leaf_ids(right_tree), ax))
                by {
                assert(keys_le_on(items@, leaf_ids(left_tree), leaf_ids(right_tree), axis as int));
            }
            assert(partitioned(t, items@));
        }
    }
    Ok(t)
}

/// Carries a recursive construction failure on a sub-run back to the run
/// it was cut from: the sub-run is at least two items, none of its items
/// is missing a box, so only an undefined comparison remains, and the item
/// that caused it is an item of the whole run.
proof fn lemma_sub_error_transfer(
    sub: Seq<BvhItem>,
    whole: Seq<BvhItem>,
    whole_input: Seq<BvhItem>,
    e: BvhError,
    axis: int,
)
    requires
        sub.len() >= 2,
        forall|q: int| 0 <= q < sub.len() ==> whole.contains(#[trigger] sub[q]),
        forall|q: int| 0 <= q < whole.len() ==> item_key(#[trigger] whole[q], axis) is Some,
        whole.to_multiset() == whole_input.to_multiset(),
        match e {
            BvhError::TooFewElements(n) => sub.len() < 2 && n == sub.len() as u8,
            BvhError::MissingBoundingBox => sub.len() >= 2 && has_missing(sub),
            BvhError::InvalidBoundingBox => sub.len() >= 2 && !has_missing(sub) && !complete(sub),
        },
    ensures
        e == BvhError::InvalidBoundingBox,
        !complete(whole_input),
{
    match e {
        BvhError::TooFewElements(_) => {
            assert(false);
        },
        BvhError::MissingBoundingBox => {
            let q = choose|q: int| 0 <= q < sub.len() && sub[q].keys is None;
            assert(whole.contains(sub[q]));
            let w = choose|w: int| 0 <= w < whole.len() && whole[w] == sub[q];
            assert(item_key(whole[w], axis) is Some);
            assert(false);
        },
        BvhError::InvalidBoundingBox => {
            assert(!complete(sub));
            let (q, a): (int, int) = choose|q: int, a: int|
                0 <= q < sub.len() && 0 <= a < 3 && !(item_key(sub[q], a) is Some);
            assert(whole.contains(sub[q]));
            lemma_multiset_contains_transfer(whole, whole_input, sub[q]);
            let w = choose|w: int| 0 <= w < whole_input.len() && whole_input[w] == sub[q];
            assert(!(item_key(whole_input[w], a) is Some));
            assert(!complete(whole_input));
        },
    }
}

} // verus!
