//! Permutation tables behind the gradient-noise texture.
//!
//! The noise itself interpolates floating-point gradients and lives with
//! the renderer. What stands here is the exact part: the three index
//! tables are genuine permutations of `0..256`, and the XOR-combination
//! that picks a gradient for a lattice corner always lands inside the
//! gradient table.

use vstd::prelude::*;
use vstd::seq_lib::*;
use crate::Rng;

verus! {

/// The table holds each of `0..256` exactly once.
pub open spec fn is_permutation(s: Seq<usize>) -> bool {
    &&& s.len() == 256
    &&& forall|i: int| 0 <= i < s.len() ==> s[i] < 256
    &&& forall|i: int, j: int| 0 <= i < j < s.len() ==> s[i] != s[j]
}

/// The table `0, 1, ..., 255`.
pub fn identity_permutation() -> (p: Vec<usize>)
    ensures
        is_permutation(p@),
        forall|i: int| 0 <= i < 256 ==> p@[i] == i,
{
    let mut p: Vec<usize> = Vec::new();
    let mut i: usize = 0;
    while i < 256
        invariant
            i <= 256,
            p@.len() == i,
            forall|q: int| 0 <= q < i ==> p@[q] == q,
        decreases 256 - i,
    {
        p.push(i);
        i += 1;
    }
    p
}

/// Exchanging two entries keeps the same collection of values.
proof fn lemma_swap_keeps_multiset(s: Seq<usize>, i: int, j: int)
    requires
        0 <= i < s.len(),
        0 <= j < s.len(),
    ensures
        s.update(i, s[j]).update(j, s[i]).to_multiset() == s.to_multiset(),
{
    broadcast use group_to_multiset_ensures;

    let t = s.update(i, s[j]).update(j, s[i]);
    if i == j {
        assert(t =~= s);
    } else {
        let t1 = s.update(i, s[j]);
        assert(t1 =~= s.remove(i).insert(i, s[j]));
        to_multiset_remove(s, i);
        to_multiset_insert(s.remove(i), i, s[j]);
        assert(t1.to_multiset() =~= s.to_multiset().remove(s[i]).insert(s[j]));
        assert(t1[j] == s[j]);
        assert(t =~= t1.remove(j).insert(j, s[i]));
        to_multiset_remove(t1, j);
        to_multiset_insert(t1.remove(j), j, s[i]);
        assert(t.to_multiset() =~= t1.to_multiset().remove(s[j]).insert(s[i]));
        assert(s.contains(s[i]));
        assert(s.to_multiset().count(s[i]) > 0);
        assert(t.to_multiset() =~= s.to_multiset());
    }
}

/// Exchanging two entries keeps the table a permutation.
proof fn lemma_swap_keeps_permutation(s: Seq<usize>, i: int, j: int)
    requires
        is_permutation(s),
        0 <= i < s.len(),
        0 <= j < s.len(),
    ensures
        is_permutation(s.update(i, s[j]).update(j, s[i])),
{
    let t = s.update(i, s[j]).update(j, s[i]);
    assert forall|q: int, r: int| 0 <= q < r < t.len() implies t[q] != t[r] by {
        let sq = if q == j {
            i
        } else if q == i {
            j
        } else {
            q
        };
        let sr = if r == j {
            i
        } else if r == i {
            j
        } else {
            r
        };
        assert(t[q] == s[sq] && t[r] == s[sr]);
        assert(sq != sr);
        if sq < sr {
            assert(s[sq] != s[sr]);
        } else {
            assert(s[sr] != s[sq]);
        }
    }
}

/// Reorders the table in place by one pass of random transpositions, from
/// the last entry down: the same values come back, in some order, and a
/// permutation of `0..256` remains one.
pub fn shuffle<R: Rng>(p: &mut Vec<usize>, rng: &mut R)
    requires
        old(p)@.len() >= 1,
    ensures
        final(p)@.to_multiset() == old(p)@.to_multiset(),
        is_permutation(old(p)@) ==> is_permutation(final(p)@),
{
    let n = p.len();
    let mut i: usize = n - 1;
    while i >= 1
        invariant
            n == p@.len(),
            p@.len() == old(p)@.len(),
            p@.to_multiset() == old(p)@.to_multiset(),
            is_permutation(old(p)@) ==> is_permutation(p@),
            i < n,
        decreases i,
    {
        let j = rng.next_below(i + 1);
        let a = p[i];
        let b = p[j];
        let ghost pre = p@;
        p.set(i, b);
        p.set(j, a);
        proof {
            assert(p@ =~= pre.update(i as int, pre[j as int]).update(j as int, pre[i as int]));
            lemma_swap_keeps_multiset(pre, i as int, j as int);
            if is_permutation(old(p)@) {
                lemma_swap_keeps_permutation(pre, i as int, j as int);
            }
        }
        i -= 1;
    }
}

/// Where a lattice coordinate lands in a table: its low eight bits.
pub open spec fn table_slot(c: int) -> int {
    ((c as usize) & 255) as int
}

/// The gradient-table index for the lattice corner `(i+di, j+dj, k+dk)`:
/// each coordinate is folded into the table by its low eight bits, sent
/// through its axis's permutation, and the three results are combined by
/// XOR — which never leaves `0..256`.
pub fn corner_index(
    perm_x: &Vec<usize>,
    perm_y: &Vec<usize>,
    perm_z: &Vec<usize>,
    i: usize,
    j: usize,
    k: usize,
    di: usize,
    dj: usize,
    dk: usize,
) -> (r: usize)
    requires
        is_permutation(perm_x@),
        is_permutation(perm_y@),
        is_permutation(perm_z@),
        i + di <= usize::MAX,
        j + dj <= usize::MAX,
        k + dk <= usize::MAX,
    ensures
        r < 256,
        r == (perm_x@[table_slot(i + di)] ^ perm_y@[table_slot(j + dj)] ^ perm_z@[table_slot(
            k + dk,
        )]),
{
    let px = i + di;
    let py = j + dj;
    let pz = k + dk;
    let sx = px & 255;
    let sy = py & 255;
    let sz = pz & 255;
    proof {
        assert((px & 255) < 256 && (py & 255) < 256 && (pz & 255) < 256) by (bit_vector);
    }
    let a = perm_x[sx];
    let b = perm_y[sy];
    let c = perm_z[sz];
    let r = a ^ b ^ c;
    proof {
        assert(a < 256 && b < 256 && c < 256 ==> (a ^ b ^ c) < 256) by (bit_vector);
    }
    r
}

} // verus!
