//! The lazy segment tree: an implicit, array-backed, perfectly balanced
//! binary tree over a power-of-two number of leaves, supporting range
//! aggregate queries and range updates in logarithmic time, with pending
//! updates propagated down the tree only when a descendant is visited.
//!
//! Node `1` is the root and node `k`'s children are `2k` and `2k+1`; nodes
//! `n..2n` are the leaves. Each node stores an `aggregate` and a `pending`
//! update; the pending tag of a node has already been folded into that
//! node's own aggregate but not yet into its children's.

use vstd::prelude::*;
use vstd::arithmetic::power2::pow2;
use crate::algebra::{LazyApply, Monoid};
use crate::folds::{apply_all, apply_within, fold};

verus! {

/// Node `j` lies in the subtree rooted at node `k` (both in heap order,
/// root = 1). Defined by walking from `j` up through its ancestors.
pub open spec fn in_subtree(k: int, j: int) -> bool
    decreases j,
{
    if j <= 0 {
        false
    } else if j == k {
        true
    } else if j == 1 {
        false
    } else {
        in_subtree(k, j / 2)
    }
}

/// The subtree rooted at node `k` is a perfect binary tree of height `h`
/// whose leaves are exactly leaf slots of a tree with `n` leaves.
pub open spec fn full(n: int, k: int, h: nat) -> bool
    decreases h,
{
    if h == 0 {
        n <= k < 2 * n
    } else {
        1 <= k < n && full(n, 2 * k, (h - 1) as nat) && full(n, 2 * k + 1, (h - 1) as nat)
    }
}

/// The logical leaf values of the subtree rooted at `k`, in left-to-right
/// order: the stored leaf aggregates with every pending tag on the path
/// from `k` downward applied, nearest tag first.
pub open spec fn leaves<V: LazyApply<L>, L: Monoid>(d: Seq<V>, lz: Seq<L>, n: int, k: int) -> Seq<
    V,
>
    decreases 2 * n - k,
{
    if 1 <= k < n {
        apply_all(leaves(d, lz, n, 2 * k) + leaves(d, lz, n, 2 * k + 1), lz[k])
    } else {
        seq![V::sapply(d[k], lz[k])]
    }
}

/// The true aggregate of the subtree rooted at `k`: the left-to-right fold
/// of its logical leaf values.
pub open spec fn agg<V: LazyApply<L>, L: Monoid>(d: Seq<V>, lz: Seq<L>, n: int, k: int) -> V {
    fold(leaves(d, lz, n, k))
}

/// The defining per-node invariant: an internal node's stored aggregate is
/// the combine of its children's true aggregates. (The node's own pending
/// tag is *not* part of its stored aggregate; the children's pending tags
/// are accounted for in their true aggregates.)
pub open spec fn inv_at<V: LazyApply<L>, L: Monoid>(d: Seq<V>, lz: Seq<L>, n: int, k: int) -> bool {
    d[k] == V::sop(agg(d, lz, n, 2 * k), agg(d, lz, n, 2 * k + 1))
}

// ---------------------------------------------------------------------
// Structural facts about `in_subtree`.
// ---------------------------------------------------------------------

/// A node's index is a lower bound for every index in its subtree.
pub proof fn lemma_subtree_bound(k: int, j: int)
    requires
        in_subtree(k, j),
        k >= 1,
    ensures
        k <= j,
    decreases j,
{
    if j == k {
    } else {
        lemma_subtree_bound(k, j / 2);
    }
}

/// A node and its two children lie in its subtree.
pub proof fn lemma_subtree_children(k: int)
    requires
        k >= 1,
    ensures
        in_subtree(k, k),
        in_subtree(k, 2 * k),
        in_subtree(k, 2 * k + 1),
{
    assert((2 * k) / 2 == k);
    assert((2 * k + 1) / 2 == k);
    assert(in_subtree(k, k));
    assert(in_subtree(k, 2 * k));
    assert(in_subtree(k, 2 * k + 1));
}

/// Subtree membership is transitive.
pub proof fn lemma_subtree_trans(a: int, b: int, c: int)
    requires
        in_subtree(a, b),
        in_subtree(b, c),
    ensures
        in_subtree(a, c),
    decreases c,
{
    if c == b {
    } else {
        lemma_subtree_trans(a, b, c / 2);
    }
}

/// A strict descendant of `k` lies in the subtree of one of `k`'s children.
pub proof fn lemma_subtree_step(k: int, j: int)
    requires
        in_subtree(k, j),
        j != k,
        k >= 1,
    ensures
        in_subtree(2 * k, j) || in_subtree(2 * k + 1, j),
    decreases j,
{
    if j / 2 == k {
        assert(j == 2 * k || j == 2 * k + 1);
    } else {
        lemma_subtree_step(k, j / 2);
    }
}

/// Two nodes whose subtrees share a node are comparable: one contains the
/// other.
pub proof fn lemma_subtree_comparable(k: int, j: int, i: int)
    requires
        in_subtree(k, i),
        in_subtree(j, i),
    ensures
        in_subtree(k, j) || in_subtree(j, k),
    decreases i,
{
    if i == k || i == j {
    } else {
        lemma_subtree_comparable(k, j, i / 2);
    }
}

/// The subtrees of the two children of a node are disjoint from each other
/// and do not contain the node itself.
pub proof fn lemma_sibling_disjoint(k: int)
    requires
        k >= 1,
    ensures
        !in_subtree(2 * k, 2 * k + 1),
        !in_subtree(2 * k + 1, 2 * k),
        !in_subtree(2 * k, k),
        !in_subtree(2 * k + 1, k),
    decreases k,
{
    if in_subtree(2 * k, 2 * k + 1) {
        lemma_subtree_bound(2 * k, 2 * k + 1);
        assert(in_subtree(2 * k, (2 * k + 1) / 2));
        lemma_subtree_bound(2 * k, k);
    }
    if in_subtree(2 * k + 1, 2 * k) {
        lemma_subtree_bound(2 * k + 1, 2 * k);
    }
    if in_subtree(2 * k, k) {
        lemma_subtree_bound(2 * k, k);
    }
    if in_subtree(2 * k + 1, k) {
        lemma_subtree_bound(2 * k + 1, k);
    }
}

/// The root's subtree contains every node.
pub proof fn lemma_root_contains(j: int)
    requires
        j >= 1,
    ensures
        in_subtree(1, j),
    decreases j,
{
    if j == 1 {
    } else {
        lemma_root_contains(j / 2);
    }
}

/// Integer maximum.
pub open spec fn imax(a: int, b: int) -> int {
    if a >= b {
        a
    } else {
        b
    }
}

/// Integer minimum.
pub open spec fn imin(a: int, b: int) -> int {
    if a <= b {
        a
    } else {
        b
    }
}

/// In a tree with a power-of-two number of leaves, a node whose leaf span
/// `[k * 2^h, (k+1) * 2^h)` lies within the leaf slots `[n, 2n)` roots a
/// perfect subtree of height `h`.
pub proof fn lemma_full_node(n: int, k: int, h: nat)
    requires
        n >= 1,
        k >= 1,
        k * pow2(h) >= n,
        (k + 1) * pow2(h) <= 2 * n,
    ensures
        full(n, k, h),
    decreases h,
{
    vstd::arithmetic::power2::lemma_pow2_pos(h);
    if h == 0 {
        assert(pow2(0) == 1) by {
            vstd::arithmetic::power2::lemma2_to64();
        }
    } else {
        let g = (h - 1) as nat;
        vstd::arithmetic::power2::lemma_pow2_unfold(h);
        vstd::arithmetic::power2::lemma_pow2_pos(g);
        let p = pow2(g) as int;
        assert(p >= 1);
        assert(2 * (k + 1) <= (k + 1) * (2 * p)) by (nonlinear_arith)
            requires
                p >= 1,
                k >= 1,
        ;
        assert(k < n);
        assert((2 * k) * p == k * (2 * p)) by (nonlinear_arith);
        assert((2 * k + 2) * p == (k + 1) * (2 * p)) by (nonlinear_arith);
        assert((2 * k) * p <= (2 * k + 1) * p <= (2 * k + 2) * p) by (nonlinear_arith)
            requires
                p >= 1,
                k >= 1,
        ;
        lemma_full_node(n, 2 * k, g);
        lemma_full_node(n, 2 * k + 1, g);
    }
}

// ---------------------------------------------------------------------
// Facts about `leaves`.
// ---------------------------------------------------------------------

/// Every subtree has at least one logical leaf.
pub proof fn lemma_leaves_len_pos<V: LazyApply<L>, L: Monoid>(d: Seq<V>, lz: Seq<L>, n: int, k: int)
    ensures
        leaves(d, lz, n, k).len() >= 1,
    decreases 2 * n - k,
{
    if 1 <= k < n {
        lemma_leaves_len_pos(d, lz, n, 2 * k);
        lemma_leaves_len_pos(d, lz, n, 2 * k + 1);
    }
}

/// A perfect subtree of height `h` has exactly `2^h` logical leaves.
pub proof fn lemma_full_leaves_len<V: LazyApply<L>, L: Monoid>(
    d: Seq<V>,
    lz: Seq<L>,
    n: int,
    k: int,
    h: nat,
)
    requires
        full(n, k, h),
    ensures
        leaves(d, lz, n, k).len() == pow2(h),
    decreases h,
{
    if h == 0 {
        assert(pow2(0) == 1) by {
            vstd::arithmetic::power2::lemma2_to64();
        }
    } else {
        lemma_full_leaves_len(d, lz, n, 2 * k, (h - 1) as nat);
        lemma_full_leaves_len(d, lz, n, 2 * k + 1, (h - 1) as nat);
        vstd::arithmetic::power2::lemma_pow2_unfold(h);
    }
}

/// The logical leaves of a subtree depend only on the pending tags inside
/// the subtree and the stored aggregates of its leaf nodes.
pub proof fn lemma_leaves_congruent<V: LazyApply<L>, L: Monoid>(
    d1: Seq<V>,
    lz1: Seq<L>,
    d2: Seq<V>,
    lz2: Seq<L>,
    n: int,
    k: int,
)
    requires
        1 <= k < 2 * n,
        forall|i: int|
            1 <= i < 2 * n && in_subtree(k, i) ==> lz1[i] == lz2[i] && (i >= n ==> d1[i] == d2[i]),
    ensures
        leaves(d1, lz1, n, k) == leaves(d2, lz2, n, k),
    decreases 2 * n - k,
{
    if 1 <= k < n {
        lemma_subtree_children(k);
        assert forall|i: int| 1 <= i < 2 * n && in_subtree(2 * k, i) implies lz1[i] == lz2[i] && (
        i >= n ==> d1[i] == d2[i]) by {
            lemma_subtree_trans(k, 2 * k, i);
        }
        assert forall|i: int| 1 <= i < 2 * n && in_subtree(2 * k + 1, i) implies lz1[i] == lz2[i]
            && (i >= n ==> d1[i] == d2[i]) by {
            lemma_subtree_trans(k, 2 * k + 1, i);
        }
        lemma_leaves_congruent(d1, lz1, d2, lz2, n, 2 * k);
        lemma_leaves_congruent(d1, lz1, d2, lz2, n, 2 * k + 1);
        assert(lz1[k] == lz2[k]);
    } else {
        assert(in_subtree(k, k));
        assert(lz1[k] == lz2[k] && d1[k] == d2[k]);
        assert(leaves(d1, lz1, n, k) =~= leaves(d2, lz2, n, k));
    }
}

/// Composing a fresh tag onto a node's pending tag applies that tag to
/// every logical leaf of the node's subtree.
pub proof fn lemma_compose_at_root<V: LazyApply<L>, L: Monoid>(
    d: Seq<V>,
    lz: Seq<L>,
    n: int,
    k: int,
    t: L,
)
    requires
        1 <= k < 2 * n,
        lz.len() == 2 * n,
    ensures
        leaves(d, lz.update(k, L::sop(lz[k], t)), n, k) == apply_all(leaves(d, lz, n, k), t),
{
    let lz2 = lz.update(k, L::sop(lz[k], t));
    if 1 <= k < n {
        assert forall|i: int| 1 <= i < 2 * n && in_subtree(2 * k, i) implies lz[i] == lz2[i] && (i
            >= n ==> d[i] == d[i]) by {
            lemma_subtree_bound(2 * k, i);
        }
        assert forall|i: int| 1 <= i < 2 * n && in_subtree(2 * k + 1, i) implies lz[i] == lz2[i]
            && (i >= n ==> d[i] == d[i]) by {
            lemma_subtree_bound(2 * k + 1, i);
        }
        lemma_leaves_congruent(d, lz, d, lz2, n, 2 * k);
        lemma_leaves_congruent(d, lz, d, lz2, n, 2 * k + 1);
        let body = leaves(d, lz, n, 2 * k) + leaves(d, lz, n, 2 * k + 1);
        assert(leaves(d, lz2, n, k) == apply_all(body, L::sop(lz[k], t)));
        crate::folds::lemma_apply_all_compose::<V, L>(body, lz[k], t);
        assert(apply_all(leaves(d, lz, n, k), t) == apply_all(apply_all(body, lz[k]), t));
    } else {
        V::lemma_compose(d[k], lz[k], t);
        assert(leaves(d, lz2, n, k) =~= apply_all(leaves(d, lz, n, k), t));
    }
}

/// If nothing outside the subtree of `k` changed and the logical leaves of
/// `k` itself are unchanged, then the logical leaves of every node that is
/// not a strict descendant of `k` are unchanged.
pub proof fn lemma_preserve_outside<V: LazyApply<L>, L: Monoid>(
    d1: Seq<V>,
    lz1: Seq<L>,
    d2: Seq<V>,
    lz2: Seq<L>,
    n: int,
    k: int,
    j: int,
)
    requires
        1 <= k < 2 * n,
        1 <= j < 2 * n,
        forall|i: int| 1 <= i < 2 * n && !in_subtree(k, i) ==> d1[i] == d2[i] && lz1[i] == lz2[i],
        leaves(d1, lz1, n, k) == leaves(d2, lz2, n, k),
        !in_subtree(k, j) || j == k,
    ensures
        leaves(d1, lz1, n, j) == leaves(d2, lz2, n, j),
    decreases 2 * n - j,
{
    if j == k {
    } else if !in_subtree(j, k) {
        // The subtrees of `j` and `k` are disjoint, so nothing under `j`
        // changed.
        assert forall|i: int| 1 <= i < 2 * n && in_subtree(j, i) implies lz1[i] == lz2[i] && (i
            >= n ==> d1[i] == d2[i]) by {
            if in_subtree(k, i) {
                lemma_subtree_comparable(k, j, i);
            }
        }
        lemma_leaves_congruent(d1, lz1, d2, lz2, n, j);
    } else {
        // `j` is a strict ancestor of `k`; recurse toward `k`.
        if 1 <= j < n {
            lemma_subtree_step(j, k);
            lemma_sibling_disjoint(j);
            assert(!in_subtree(k, 2 * j) || 2 * j == k) by {
                if in_subtree(k, 2 * j) {
                    if in_subtree(2 * j, k) {
                        lemma_subtree_bound(k, 2 * j);
                        lemma_subtree_bound(2 * j, k);
                    } else {
                        lemma_subtree_trans(2 * j + 1, k, 2 * j);
                    }
                }
            }
            assert(!in_subtree(k, 2 * j + 1) || 2 * j + 1 == k) by {
                if in_subtree(k, 2 * j + 1) {
                    if in_subtree(2 * j + 1, k) {
                        lemma_subtree_bound(k, 2 * j + 1);
                        lemma_subtree_bound(2 * j + 1, k);
                    } else {
                        lemma_subtree_trans(2 * j, k, 2 * j + 1);
                    }
                }
            }
            lemma_preserve_outside(d1, lz1, d2, lz2, n, k, 2 * j);
            lemma_preserve_outside(d1, lz1, d2, lz2, n, k, 2 * j + 1);
            assert(lz1[j] == lz2[j]);
        } else {
            // `j` is a leaf outside the subtree of `k`, so its own cells
            // are unchanged.
            assert(d1[j] == d2[j] && lz1[j] == lz2[j]);
            assert(leaves(d1, lz1, n, j) =~= leaves(d2, lz2, n, j));
        }
    }
}

/// In a tree whose pending tags are all the identity, the logical leaves
/// of the subtree of `k` are exactly the stored leaf aggregates of its leaf
/// slots `[k * 2^h, (k+1) * 2^h)`.
pub proof fn lemma_plain_leaves<V: LazyApply<L>, L: Monoid>(
    d: Seq<V>,
    lz: Seq<L>,
    n: int,
    k: int,
    h: nat,
)
    requires
        full(n, k, h),
        d.len() == 2 * n,
        lz.len() == 2 * n,
        forall|i: int| 0 <= i < 2 * n ==> lz[i] == L::sid(),
    ensures
        k * pow2(h) >= n,
        (k + 1) * pow2(h) <= 2 * n,
        leaves(d, lz, n, k) == d.subrange(k * pow2(h), (k + 1) * pow2(h)),
    decreases h,
{
    if h == 0 {
        assert(pow2(0) == 1) by {
            vstd::arithmetic::power2::lemma2_to64();
        }
        V::lemma_apply_id(d[k]);
        assert(leaves(d, lz, n, k) =~= d.subrange(k, k + 1));
    } else {
        let g = (h - 1) as nat;
        vstd::arithmetic::power2::lemma_pow2_unfold(h);
        vstd::arithmetic::power2::lemma_pow2_pos(g);
        let p = pow2(g) as int;
        assert((2 * k) * p == k * (2 * p)) by (nonlinear_arith);
        assert((2 * k + 2) * p == (k + 1) * (2 * p)) by (nonlinear_arith);
        lemma_plain_leaves(d, lz, n, 2 * k, g);
        lemma_plain_leaves(d, lz, n, 2 * k + 1, g);
        crate::folds::lemma_apply_all_id::<V, L>(
            leaves(d, lz, n, 2 * k) + leaves(d, lz, n, 2 * k + 1),
        );
        assert(leaves(d, lz, n, k) == leaves(d, lz, n, 2 * k) + leaves(d, lz, n, 2 * k + 1));
        assert((2 * k + 1) * p == (2 * k) * p + p) by (nonlinear_arith);
        let lo = (2 * k) * p;
        let m1 = (2 * k + 1) * p;
        let hi2 = (2 * k + 2) * p;
        assert(lo <= m1 && m1 <= hi2) by (nonlinear_arith)
            requires
                p >= 1,
                k >= 1,
                lo == (2 * k) * p,
                m1 == (2 * k + 1) * p,
                hi2 == (2 * k + 2) * p,
        ;
        assert(lo >= n && hi2 <= 2 * n);
        assert(0 <= lo && lo <= m1 && m1 <= hi2 && hi2 <= d.len());
        assert forall|i: int|
            0 <= i < hi2 - lo implies (d.subrange(lo, m1) + d.subrange(m1, hi2))[i] == d.subrange(
            lo,
            hi2,
        )[i] by {}
        assert(d.subrange(lo, m1) + d.subrange(m1, hi2) =~= d.subrange(lo, hi2));
        assert(d.subrange((2 * k) * p, (2 * k + 1) * p) + d.subrange(
            (2 * k + 1) * p,
            (2 * k + 2) * p,
        ) =~= d.subrange((2 * k) * p, (2 * k + 2) * p));
        assert(leaves(d, lz, n, k) == d.subrange((2 * k) * p, (2 * k + 2) * p));
        assert(k * pow2(h) == (2 * k) * p && (k + 1) * pow2(h) == (2 * k + 2) * p);
    }
}

/// In a tree whose cells are all identity elements, every logical leaf is
/// the identity and every subtree's true aggregate is the identity.
pub proof fn lemma_const_tree<V: LazyApply<L>, L: Monoid>(d: Seq<V>, lz: Seq<L>, n: int, k: int)
    requires
        1 <= k < 2 * n,
        d.len() == 2 * n,
        lz.len() == 2 * n,
        forall|i: int| 0 <= i < 2 * n ==> d[i] == V::sid() && lz[i] == L::sid(),
    ensures
        leaves(d, lz, n, k).len() >= 1,
        forall|i: int| 0 <= i < leaves(d, lz, n, k).len() ==> leaves(d, lz, n, k)[i] == V::sid(),
        agg(d, lz, n, k) == V::sid(),
    decreases 2 * n - k,
{
    lemma_leaves_len_pos(d, lz, n, k);
    if 1 <= k < n {
        lemma_const_tree(d, lz, n, 2 * k);
        lemma_const_tree(d, lz, n, 2 * k + 1);
        let body = leaves(d, lz, n, 2 * k) + leaves(d, lz, n, 2 * k + 1);
        assert forall|i: int|
            0 <= i < leaves(d, lz, n, k).len() implies leaves(d, lz, n, k)[i] == V::sid() by {
            V::lemma_apply_id(body[i]);
        }
        crate::folds::lemma_fold_const_id(leaves(d, lz, n, k));
    } else {
        V::lemma_apply_id(d[k]);
        crate::folds::lemma_fold_singleton(V::sid());
        assert(leaves(d, lz, n, k) =~= seq![V::sid()]);
    }
}

/// A lazy segment tree over combine values `V` and pending-update tags `L`.
///
/// `data` and `lazy` are the two node arrays, 1-based: entry `0` is unused,
/// entries `1..n` are internal nodes, entries `n..2n` are leaves. `n` is the
/// (power-of-two) leaf count and `height` its exponent: `n == 2^height`.
pub struct SegmentTree<V, L> {
    n: usize,
    height: usize,
    data: Vec<V>,
    lazy: Vec<L>,
}

impl<V: LazyApply<L>, L: Monoid> SegmentTree<V, L> {
    /// Basic shape: both arrays have `2n` entries and `n` is `2^height`.
    pub closed spec fn shape(self) -> bool {
        &&& self.n >= 1
        &&& self.data@.len() == 2 * self.n
        &&& self.lazy@.len() == 2 * self.n
        &&& self.n == pow2(self.height as nat)
    }

    /// The logical leaf values under node `k`.
    pub closed spec fn leaves_at(self, k: int) -> Seq<V> {
        leaves(self.data@, self.lazy@, self.n as int, k)
    }

    /// The true aggregate under node `k`.
    pub closed spec fn agg_at(self, k: int) -> V {
        agg(self.data@, self.lazy@, self.n as int, k)
    }

    /// The per-node invariant at internal node `k`.
    pub closed spec fn node_ok(self, k: int) -> bool {
        inv_at(self.data@, self.lazy@, self.n as int, k)
    }

    /// Well-formedness: shape plus the invariant at every internal node.
    pub closed spec fn wf(self) -> bool {
        &&& self.shape()
        &&& forall|j: int| 1 <= j < self.n ==> #[trigger] self.node_ok(j)
    }

    /// The tree's logical contents: the leaf values under the root, with
    /// every pending tag accounted for.
    pub closed spec fn model(self) -> Seq<V> {
        self.leaves_at(1)
    }

    /// Pushes node `k`'s pending tag: composes it onto both children's
    /// pending tags, applies it to `k`'s own stored aggregate, and clears
    /// it. A no-op when nothing is pending. The logical leaves of `k` (and
    /// of every node that is not a strict descendant of `k`) are unchanged;
    /// afterwards `k`'s stored aggregate is its true aggregate.
    fn propagate(&mut self, k: usize)
        requires
            old(self).shape(),
            1 <= k < 2 * old(self).n,
            k < old(self).n ==> old(self).node_ok(k as int),
        ensures
            final(self).n == old(self).n,
            final(self).height == old(self).height,
            final(self).shape(),
            final(self).lazy@[k as int] == L::sid(),
            final(self).data@[k as int] == final(self).agg_at(k as int),
            forall|j: int|
                1 <= j < 2 * final(self).n && j != k ==> final(self).data@[j] == old(
                    self,
                ).data@[j],
            forall|j: int|
                1 <= j < 2 * final(self).n && j != k && j != 2 * (k as int) && j != 2 * (
                k as int) + 1 ==> final(self).lazy@[j] == old(self).lazy@[j],
            forall|j: int|
                1 <= j < 2 * final(self).n && j != 2 * (k as int) && j != 2 * (k as int) + 1
                    ==> final(self).leaves_at(j) == old(self).leaves_at(j),
            k < final(self).n ==> final(self).node_ok(k as int),
            forall|j: int|
                1 <= j < final(self).n && j != k && old(self).node_ok(j) ==> final(self).node_ok(j),
    {
        let ghost d0 = old(self).data@;
        let ghost z0 = old(self).lazy@;
        let ghost ni = old(self).n as int;
        let ghost ki = k as int;
        let dn = self.data.len();
        let lz = self.lazy[k];
        proof {
            lemma_subtree_children(ki);
        }
        if L::is_id(&lz) {
            proof {
                Self::lemma_idle_node(d0, z0, ni, ki);
                assert forall|j: int|
                    1 <= j < 2 * ni && j != 2 * ki && j != 2 * ki + 1 implies self.leaves_at(j)
                    == old(self).leaves_at(j) by {}
            }
            return ;
        }
        if k < self.n {
            let zl = self.lazy[2 * k];
            let zr = self.lazy[2 * k + 1];
            self.lazy[2 * k] = L::op(&zl, &lz);
            self.lazy[2 * k + 1] = L::op(&zr, &lz);
        }
        let d = self.data[k];
        self.data[k] = V::apply(&d, &lz);
        self.lazy[k] = L::id();
        proof {
            let d1 = self.data@;
            let z1 = self.lazy@;
            lemma_sibling_disjoint(ki);
            if ki < ni {
                // The children's logical leaves have absorbed the tag.
                let za = z0.update(2 * ki, L::sop(z0[2 * ki], z0[ki]));
                let zb = z0.update(2 * ki + 1, L::sop(z0[2 * ki + 1], z0[ki]));
                let la = leaves(d0, z0, ni, 2 * ki);
                let lb = leaves(d0, z0, ni, 2 * ki + 1);
                lemma_compose_at_root(d0, z0, ni, 2 * ki, z0[ki]);
                lemma_compose_at_root(d0, z0, ni, 2 * ki + 1, z0[ki]);
                assert forall|i: int|
                    1 <= i < 2 * ni && in_subtree(2 * ki, i) implies z1[i] == za[i] && (i >= ni
                    ==> d1[i] == d0[i]) by {
                    lemma_subtree_bound(2 * ki, i);
                    if in_subtree(2 * ki, 2 * ki + 1) {
                        lemma_subtree_bound(2 * ki, 2 * ki + 1);
                    }
                }
                lemma_leaves_congruent(d1, z1, d0, za, ni, 2 * ki);
                assert forall|i: int|
                    1 <= i < 2 * ni && in_subtree(2 * ki + 1, i) implies z1[i] == zb[i] && (i >= ni
                    ==> d1[i] == d0[i]) by {
                    lemma_subtree_bound(2 * ki + 1, i);
                }
                lemma_leaves_congruent(d1, z1, d0, zb, ni, 2 * ki + 1);
                assert(leaves(d1, z1, ni, 2 * ki) == apply_all(la, z0[ki]));
                assert(leaves(d1, z1, ni, 2 * ki + 1) == apply_all(lb, z0[ki]));
                // The node's own logical leaves are unchanged.
                crate::folds::lemma_apply_all_id::<V, L>(
                    leaves(d1, z1, ni, 2 * ki) + leaves(d1, z1, ni, 2 * ki + 1),
                );
                crate::folds::lemma_apply_all_concat::<V, L>(la, lb, z0[ki]);
                assert(leaves(d1, z1, ni, ki) == apply_all(la + lb, z0[ki]));
                assert(leaves(d1, z1, ni, ki) == leaves(d0, z0, ni, ki));
                // The invariant is restored at `k` ...
                lemma_leaves_len_pos(d0, z0, ni, 2 * ki);
                lemma_leaves_len_pos(d0, z0, ni, 2 * ki + 1);
                crate::folds::lemma_fold_apply_all::<V, L>(la, z0[ki]);
                crate::folds::lemma_fold_apply_all::<V, L>(lb, z0[ki]);
                V::lemma_distribute(fold(la), fold(lb), z0[ki]);
                assert(self.node_ok(ki));
                // ... and the stored aggregate is now the true aggregate.
                crate::folds::lemma_fold_concat::<V>(
                    leaves(d1, z1, ni, 2 * ki),
                    leaves(d1, z1, ni, 2 * ki + 1),
                );
                crate::folds::lemma_apply_all_id::<V, L>(
                    leaves(d1, z1, ni, 2 * ki) + leaves(d1, z1, ni, 2 * ki + 1),
                );
                assert(self.data@[ki] == self.agg_at(ki));
            } else {
                // Leaf: the stored value absorbs the tag.
                V::lemma_apply_id(d1[ki]);
                assert(leaves(d1, z1, ni, ki) =~= leaves(d0, z0, ni, ki));
                crate::folds::lemma_fold_singleton(d1[ki]);
                assert(self.data@[ki] == self.agg_at(ki));
            }
            // Nothing outside the strict subtree of `k` observes a change.
            assert forall|j: int|
                1 <= j < 2 * ni && j != 2 * ki && j != 2 * ki + 1 implies self.leaves_at(j)
                == old(self).leaves_at(j) by {
                Self::lemma_untouched(d0, z0, d1, z1, ni, ki, j);
            }
            assert forall|j: int|
                1 <= j < ni && j != ki && old(self).node_ok(j) implies self.node_ok(j) by {
                assert(self.leaves_at(2 * j) == old(self).leaves_at(2 * j));
                assert(self.leaves_at(2 * j + 1) == old(self).leaves_at(2 * j + 1));
                assert(self.data@[j] == old(self).data@[j]);
            }
        }
    }

    /// After any state change confined to the subtree of `k` that preserves
    /// `k`'s logical leaves, every node that is not one of `k`'s strict
    /// descendants keeps its logical leaves. Specialized to the cells
    /// `propagate` writes.
    proof fn lemma_untouched(
        d0: Seq<V>,
        z0: Seq<L>,
        d1: Seq<V>,
        z1: Seq<L>,
        ni: int,
        ki: int,
        j: int,
    )
        requires
            1 <= ki < 2 * ni,
            1 <= j < 2 * ni,
            j != 2 * ki && j != 2 * ki + 1,
            leaves(d1, z1, ni, ki) == leaves(d0, z0, ni, ki),
            forall|i: int| 1 <= i < 2 * ni && i != ki ==> d1[i] == d0[i],
            forall|i: int|
                1 <= i < 2 * ni && i != ki && i != 2 * ki && i != 2 * ki + 1 ==> z1[i] == z0[i],
        ensures
            leaves(d1, z1, ni, j) == leaves(d0, z0, ni, j),
    {
        lemma_subtree_children(ki);
        if in_subtree(ki, j) && j != ki {
            lemma_subtree_step(ki, j);
            if in_subtree(2 * ki, j) {
                lemma_subtree_bound(2 * ki, j);
            } else {
                lemma_subtree_bound(2 * ki + 1, j);
            }
            // `j` is at least two levels below `k`'s children, so none of
            // the written cells lies in its subtree.
            assert forall|i: int|
                1 <= i < 2 * ni && in_subtree(j, i) implies z1[i] == z0[i] && (i >= ni ==> d1[i]
                == d0[i]) by {
                lemma_subtree_bound(j, i);
            }
            lemma_leaves_congruent(d1, z1, d0, z0, ni, j);
        } else {
            assert forall|i: int|
                1 <= i < 2 * ni && !in_subtree(ki, i) implies d1[i] == d0[i] && z1[i] == z0[i] by {}
            lemma_preserve_outside(d1, z1, d0, z0, ni, ki, j);
        }
    }

    /// A node with no pending tag whose invariant holds stores its true
    /// aggregate.
    proof fn lemma_idle_node(d: Seq<V>, lz: Seq<L>, ni: int, ki: int)
        requires
            1 <= ki < 2 * ni,
            lz[ki] == L::sid(),
            1 <= ki < ni ==> inv_at(d, lz, ni, ki),
        ensures
            d[ki] == agg(d, lz, ni, ki),
    {
        if ki < ni {
            let la = leaves(d, lz, ni, 2 * ki);
            let lb = leaves(d, lz, ni, 2 * ki + 1);
            crate::folds::lemma_apply_all_id::<V, L>(la + lb);
            crate::folds::lemma_fold_concat::<V>(la, lb);
        } else {
            V::lemma_apply_id(d[ki]);
            crate::folds::lemma_fold_singleton(d[ki]);
        }
    }

    /// The root's subtree is perfect of height `height`, and the model has
    /// exactly `n` entries.
    proof fn lemma_shape_full(self)
        requires
            self.shape(),
        ensures
            full(self.n as int, 1, self.height as nat),
            self.model().len() == self.n,
    {
        let ni = self.n as int;
        let h = self.height as nat;
        assert(1 * pow2(h) == pow2(h));
        assert((1 + 1) * pow2(h) == 2 * pow2(h));
        lemma_full_node(ni, 1, h);
        lemma_full_leaves_len(self.data@, self.lazy@, ni, 1, h);
    }

    /// Answers a range query within the subtree of node `k`, which covers
    /// positions `[node_lo, node_hi)` and is perfect of height `hh`:
    /// returns the fold of the logical leaves at the positions where
    /// `[l, r)` meets `[node_lo, node_hi)`. Pending tags move down the
    /// tree, but every node's logical leaves outside the strict subtree of
    /// `k` -- and those of `k` itself -- are unchanged.
    #[verifier::rlimit(100)]
    fn query_node(
        &mut self,
        k: usize,
        node_lo: usize,
        node_hi: usize,
        hh: usize,
        l: usize,
        r: usize,
    ) -> (res: V)
        requires
            old(self).shape(),
            full(old(self).n as int, k as int, hh as nat),
            node_lo + pow2(hh as nat) == node_hi,
            l <= r,
            forall|j: int|
                1 <= j < old(self).n && in_subtree(k as int, j) ==> old(self).node_ok(j),
        ensures
            final(self).n == old(self).n,
            final(self).height == old(self).height,
            final(self).shape(),
            forall|j: int|
                1 <= j < 2 * final(self).n && !in_subtree(k as int, j) ==> final(self).data@[j]
                    == old(self).data@[j] && final(self).lazy@[j] == old(self).lazy@[j],
            forall|j: int|
                1 <= j < 2 * final(self).n && (!in_subtree(k as int, j) || j == k) ==> final(self).leaves_at(j)
                    == old(self).leaves_at(j),
            forall|j: int|
                1 <= j < final(self).n && in_subtree(k as int, j) ==> final(self).node_ok(j),
            forall|j: int|
                1 <= j < final(self).n && !in_subtree(k as int, j) && old(self).node_ok(j)
                    ==> final(self).node_ok(j),
            (r <= node_lo || node_hi <= l) ==> res == V::sid(),
            (node_lo < r && l < node_hi) ==> res == fold(
                old(self).leaves_at(k as int).subrange(
                    imax(l as int, node_lo as int) - node_lo,
                    imin(r as int, node_hi as int) - node_lo,
                ),
            ),
        decreases hh,
    {
        let ghost s0 = *old(self);
        let ghost ni = old(self).n as int;
        let ghost ki = k as int;
        proof {
            lemma_subtree_children(ki);
            vstd::arithmetic::power2::lemma_pow2_pos(hh as nat);
            assert(1 <= ki < 2 * ni);
        }
        self.propagate(k);
        let ghost s1 = *self;
        if r <= node_lo || node_hi <= l {
            proof {
                assert forall|j: int|
                    1 <= j < 2 * ni && (!in_subtree(ki, j) || j == ki) implies s1.leaves_at(j)
                    == s0.leaves_at(j) by {}
            }
            return V::id();
        }
        if l <= node_lo && node_hi <= r {
            let res = self.data[k];
            proof {
                lemma_full_leaves_len(s0.data@, s0.lazy@, ni, ki, hh as nat);
                assert(s1.leaves_at(ki) == s0.leaves_at(ki));
                assert(res == fold(s1.leaves_at(ki)));
                assert(s0.leaves_at(ki).subrange(0, pow2(hh as nat) as int) =~= s0.leaves_at(ki));
                assert forall|j: int|
                    1 <= j < 2 * ni && (!in_subtree(ki, j) || j == ki) implies s1.leaves_at(j)
                    == s0.leaves_at(j) by {}
            }
            return res;
        }
        proof {
            if hh == 0 {
                assert(pow2(0) == 1) by {
                    vstd::arithmetic::power2::lemma2_to64();
                }
                assert(false);
            }
            vstd::arithmetic::power2::lemma_pow2_unfold(hh as nat);
            vstd::arithmetic::power2::lemma_pow2_pos((hh - 1) as nat);
        }
        let dn = self.data.len();
        let half = (node_hi - node_lo) / 2;
        let mid = node_lo + half;
        proof {
            assert(2 * k + 1 < dn);
            assert(half == pow2((hh - 1) as nat));
            assert(full(ni, 2 * ki, (hh - 1) as nat));
            assert(full(ni, 2 * ki + 1, (hh - 1) as nat));
            lemma_sibling_disjoint(ki);
            assert forall|j: int|
                1 <= j < ni && in_subtree(2 * ki, j) implies s1.node_ok(j) by {
                lemma_subtree_trans(ki, 2 * ki, j);
            }
        }
        let a = self.query_node(2 * k, node_lo, mid, hh - 1, l, r);
        let ghost s2 = *self;
        proof {
            assert forall|j: int|
                1 <= j < ni && in_subtree(2 * ki + 1, j) implies s2.node_ok(j) by {
                lemma_subtree_trans(ki, 2 * ki + 1, j);
                assert(s1.node_ok(j));
                if in_subtree(2 * ki, j) {
                    lemma_subtree_comparable(2 * ki, 2 * ki + 1, j);
                }
            }
        }
        let b = self.query_node(2 * k + 1, mid, node_hi, hh - 1, l, r);
        let ghost s3 = *self;
        let res = V::op(&a, &b);
        proof {
            let la = s1.leaves_at(2 * ki);
            let lb = s1.leaves_at(2 * ki + 1);
            lemma_subtree_children(2 * ki);
            lemma_subtree_children(2 * ki + 1);
            lemma_full_leaves_len(s1.data@, s1.lazy@, ni, 2 * ki, (hh - 1) as nat);
            lemma_full_leaves_len(s1.data@, s1.lazy@, ni, 2 * ki + 1, (hh - 1) as nat);
            // The two children's logical leaves survive both recursive calls.
            assert(s2.leaves_at(2 * ki) == la);
            assert(s2.leaves_at(2 * ki + 1) == lb);
            assert(s3.leaves_at(2 * ki) == la);
            assert(s3.leaves_at(2 * ki + 1) == lb);
            // The node's own tag is still the identity, so its leaves are
            // the concatenation of the children's.
            assert(s3.lazy@[ki] == L::sid());
            crate::folds::lemma_apply_all_id::<V, L>(la + lb);
            assert(s3.leaves_at(ki) == la + lb);
            assert(s1.leaves_at(ki) == la + lb);
            assert(s0.leaves_at(ki) == la + lb);
            // Frame and invariant bookkeeping.
            assert forall|j: int|
                1 <= j < 2 * ni && !in_subtree(ki, j) implies s3.data@[j] == s0.data@[j]
                && s3.lazy@[j] == s0.lazy@[j] by {
                if in_subtree(2 * ki, j) {
                    lemma_subtree_trans(ki, 2 * ki, j);
                }
                if in_subtree(2 * ki + 1, j) {
                    lemma_subtree_trans(ki, 2 * ki + 1, j);
                }
            }
            assert forall|j: int|
                1 <= j < 2 * ni && (!in_subtree(ki, j) || j == ki) implies s3.leaves_at(j)
                == s0.leaves_at(j) by {
                if j != ki {
                    if in_subtree(2 * ki, j) {
                        lemma_subtree_trans(ki, 2 * ki, j);
                    }
                    if in_subtree(2 * ki + 1, j) {
                        lemma_subtree_trans(ki, 2 * ki + 1, j);
                    }
                    assert(s1.leaves_at(j) == s0.leaves_at(j));
                    assert(s2.leaves_at(j) == s1.leaves_at(j));
                    assert(s3.leaves_at(j) == s2.leaves_at(j));
                }
            }
            assert forall|j: int|
                1 <= j < ni && in_subtree(ki, j) implies s3.node_ok(j) by {
                if j == ki {
                    assert(s3.data@[ki] == s1.data@[ki]);
                    assert(s1.node_ok(ki));
                } else {
                    lemma_subtree_step(ki, j);
                    if in_subtree(2 * ki, j) {
                        if in_subtree(2 * ki + 1, j) {
                            lemma_subtree_comparable(2 * ki, 2 * ki + 1, j);
                        }
                        assert(s2.node_ok(j));
                    } else {
                        assert(s3.node_ok(j));
                    }
                }
            }
            assert forall|j: int|
                1 <= j < ni && !in_subtree(ki, j) && s0.node_ok(j) implies s3.node_ok(j) by {
                if in_subtree(2 * ki, j) {
                    lemma_subtree_trans(ki, 2 * ki, j);
                }
                if in_subtree(2 * ki + 1, j) {
                    lemma_subtree_trans(ki, 2 * ki + 1, j);
                }
                assert(s1.node_ok(j));
                assert(s2.node_ok(j));
            }
            // Assemble the result from the two children's answers.
            let lo1 = imax(l as int, node_lo as int);
            let hi1 = imin(r as int, node_hi as int);
            let whole = la + lb;
            let goal = whole.subrange(lo1 - node_lo, hi1 - node_lo);
            if r <= mid && mid <= l {
                assert(l == r);
                assert(goal =~= Seq::<V>::empty());
                V::lemma_id(V::sid());
            } else if mid <= l {
                assert(a == V::sid());
                assert(b == fold(lb.subrange(l - mid, hi1 - mid)));
                assert(goal =~= lb.subrange(l - mid, hi1 - mid));
                V::lemma_id(b);
            } else if r <= mid {
                assert(b == V::sid());
                assert(a == fold(la.subrange(lo1 - node_lo, r - node_lo)));
                assert(goal =~= la.subrange(lo1 - node_lo, r - node_lo));
                V::lemma_id(a);
            } else {
                assert(a == fold(la.subrange(lo1 - node_lo, half as int)));
                assert(b == fold(lb.subrange(0, hi1 - mid)));
                crate::folds::lemma_fold_split::<V>(
                    whole,
                    lo1 - node_lo,
                    half as int,
                    hi1 - node_lo,
                );
                assert(whole.subrange(lo1 - node_lo, half as int) =~= la.subrange(
                    lo1 - node_lo,
                    half as int,
                ));
                assert(whole.subrange(half as int, hi1 - node_lo) =~= lb.subrange(0, hi1 - mid));
            }
        }
        res
    }

    /// Range aggregate query over positions `[l, r)`: returns the fold, in
    /// left-to-right order, of the logical leaf values in that range. The
    /// empty range yields the combine identity. Pending tags move down the
    /// tree, but the logical contents are unchanged.
    pub fn query(&mut self, l: usize, r: usize) -> (res: V)
        requires
            old(self).wf(),
            l <= r,
            r <= old(self).model().len(),
        ensures
            final(self).wf(),
            final(self).model() == old(self).model(),
            res == fold(old(self).model().subrange(l as int, r as int)),
    {
        proof {
            old(self).lemma_shape_full();
        }
        let n = self.n;
        let h = self.height;
        let res = self.query_node(1, 0, n, h, l, r);
        proof {
            assert forall|j: int| 1 <= j < self.n implies self.node_ok(j) by {
                lemma_root_contains(j);
            }
            lemma_root_contains(1);
            assert(self.leaves_at(1) == old(self).leaves_at(1));
            if r == 0 || l >= n {
                assert(l == r);
                assert(old(self).model().subrange(l as int, r as int) =~= Seq::<V>::empty());
            } else {
                assert(imax(l as int, 0) == l as int);
                assert(imin(r as int, n as int) == r as int);
            }
        }
        res
    }

    /// Applies `t` to every logical leaf of the subtree of node `k` whose
    /// position lies in `[l, r)`, composing `t` into the pending tags of
    /// the canonical covering nodes and recomputing the stored aggregates
    /// of the nodes walked through. Leaves outside `[l, r)`, and every node
    /// outside the subtree of `k`, are untouched.
    #[verifier::rlimit(100)]
    fn update_node(
        &mut self,
        k: usize,
        node_lo: usize,
        node_hi: usize,
        hh: usize,
        l: usize,
        r: usize,
        t: &L,
    )
        requires
            old(self).shape(),
            full(old(self).n as int, k as int, hh as nat),
            node_lo + pow2(hh as nat) == node_hi,
            l <= r,
            forall|j: int|
                1 <= j < old(self).n && in_subtree(k as int, j) ==> old(self).node_ok(j),
        ensures
            final(self).n == old(self).n,
            final(self).height == old(self).height,
            final(self).shape(),
            forall|j: int|
                1 <= j < 2 * final(self).n && !in_subtree(k as int, j) ==> final(self).data@[j]
                    == old(self).data@[j] && final(self).lazy@[j] == old(self).lazy@[j],
            forall|j: int|
                1 <= j < 2 * final(self).n && !in_subtree(k as int, j) && !in_subtree(j, k as int)
                    ==> final(self).leaves_at(j) == old(self).leaves_at(j),
            forall|j: int|
                1 <= j < final(self).n && in_subtree(k as int, j) ==> final(self).node_ok(j),
            forall|j: int|
                1 <= j < final(self).n && !in_subtree(k as int, j) && !in_subtree(j, k as int)
                    && old(self).node_ok(j) ==> final(self).node_ok(j),
            final(self).lazy@[k as int] == L::sid(),
            final(self).data@[k as int] == final(self).agg_at(k as int),
            final(self).leaves_at(k as int).len() == old(self).leaves_at(k as int).len(),
            forall|i: int|
                0 <= i < old(self).leaves_at(k as int).len() ==> final(self).leaves_at(
                    k as int,
                )[i] == (if l <= node_lo + i < r {
                    V::sapply(old(self).leaves_at(k as int)[i], *t)
                } else {
                    old(self).leaves_at(k as int)[i]
                }),
        decreases hh,
    {
        let ghost s0 = *old(self);
        let ghost ni = old(self).n as int;
        let ghost ki = k as int;
        proof {
            lemma_subtree_children(ki);
            vstd::arithmetic::power2::lemma_pow2_pos(hh as nat);
            assert(1 <= ki < 2 * ni);
        }
        self.propagate(k);
        let ghost s1 = *self;
        if r <= node_lo || node_hi <= l {
            proof {
                lemma_full_leaves_len(s0.data@, s0.lazy@, ni, ki, hh as nat);
                assert(s1.leaves_at(ki) == s0.leaves_at(ki));
            }
            return ;
        }
        if l <= node_lo && node_hi <= r {
            let lz = self.lazy[k];
            self.lazy[k] = L::op(&lz, t);
            let ghost s2 = *self;
            proof {
                lemma_compose_at_root(s1.data@, s1.lazy@, ni, ki, *t);
                assert(s2.leaves_at(ki) == apply_all(s1.leaves_at(ki), *t));
                // The children's leaves, and hence the invariant at `k` and
                // below, survive the tag change.
                if ki < ni {
                    lemma_sibling_disjoint(ki);
                    assert forall|i: int|
                        1 <= i < 2 * ni && in_subtree(2 * ki, i) implies s2.lazy@[i]
                        == s1.lazy@[i] && (i >= ni ==> s2.data@[i] == s1.data@[i]) by {
                        lemma_subtree_bound(2 * ki, i);
                    }
                    lemma_leaves_congruent(s2.data@, s2.lazy@, s1.data@, s1.lazy@, ni, 2 * ki);
                    assert forall|i: int|
                        1 <= i < 2 * ni && in_subtree(2 * ki + 1, i) implies s2.lazy@[i]
                        == s1.lazy@[i] && (i >= ni ==> s2.data@[i] == s1.data@[i]) by {
                        lemma_subtree_bound(2 * ki + 1, i);
                    }
                    lemma_leaves_congruent(s2.data@, s2.lazy@, s1.data@, s1.lazy@, ni, 2 * ki + 1);
                    assert(s2.node_ok(ki));
                }
                assert forall|j: int|
                    1 <= j < ni && in_subtree(ki, j) && j != ki implies s2.node_ok(j) by {
                    lemma_subtree_children(j);
                    assert forall|i: int|
                        1 <= i < 2 * ni && in_subtree(2 * j, i) implies s2.lazy@[i] == s1.lazy@[i]
                        && (i >= ni ==> s2.data@[i] == s1.data@[i]) by {
                        if i == ki {
                            lemma_subtree_trans(j, 2 * j, ki);
                            lemma_subtree_bound(j, ki);
                            lemma_subtree_bound(ki, j);
                        }
                    }
                    assert forall|i: int|
                        1 <= i < 2 * ni && in_subtree(2 * j + 1, i) implies s2.lazy@[i]
                        == s1.lazy@[i] && (i >= ni ==> s2.data@[i] == s1.data@[i]) by {
                        if i == ki {
                            lemma_subtree_trans(j, 2 * j + 1, ki);
                            lemma_subtree_bound(j, ki);
                            lemma_subtree_bound(ki, j);
                        }
                    }
                    lemma_leaves_congruent(s2.data@, s2.lazy@, s1.data@, s1.lazy@, ni, 2 * j);
                    lemma_leaves_congruent(s2.data@, s2.lazy@, s1.data@, s1.lazy@, ni, 2 * j + 1);
                    assert(s1.node_ok(j));
                }
                assert forall|j: int|
                    1 <= j < ni && !in_subtree(ki, j) && !in_subtree(j, ki) && s0.node_ok(j)
                    implies s2.node_ok(j) by {
                    assert(s1.node_ok(j));
                    lemma_subtree_children(j);
                    assert forall|i: int|
                        1 <= i < 2 * ni && in_subtree(2 * j, i) implies s2.lazy@[i] == s1.lazy@[i]
                        && (i >= ni ==> s2.data@[i] == s1.data@[i]) by {
                        if i == ki {
                            lemma_subtree_trans(j, 2 * j, ki);
                        }
                    }
                    assert forall|i: int|
                        1 <= i < 2 * ni && in_subtree(2 * j + 1, i) implies s2.lazy@[i]
                        == s1.lazy@[i] && (i >= ni ==> s2.data@[i] == s1.data@[i]) by {
                        if i == ki {
                            lemma_subtree_trans(j, 2 * j + 1, ki);
                        }
                    }
                    lemma_leaves_congruent(s2.data@, s2.lazy@, s1.data@, s1.lazy@, ni, 2 * j);
                    lemma_leaves_congruent(s2.data@, s2.lazy@, s1.data@, s1.lazy@, ni, 2 * j + 1);
                }
            }
            self.propagate(k);
            proof {
                let s3 = *self;
                assert(s3.leaves_at(ki) == s2.leaves_at(ki));
                assert forall|j: int|
                    1 <= j < 2 * ni && !in_subtree(ki, j) && !in_subtree(j, ki)
                    implies s3.leaves_at(j) == s0.leaves_at(j) by {
                    assert(s1.leaves_at(j) == s0.leaves_at(j));
                    assert forall|i: int|
                        1 <= i < 2 * ni && in_subtree(j, i) implies s2.lazy@[i] == s1.lazy@[i] && (
                    i >= ni ==> s2.data@[i] == s1.data@[i]) by {}
                    lemma_leaves_congruent(s2.data@, s2.lazy@, s1.data@, s1.lazy@, ni, j);
                    assert(s3.leaves_at(j) == s2.leaves_at(j));
                }
                lemma_full_leaves_len(s0.data@, s0.lazy@, ni, ki, hh as nat);
                assert(s1.leaves_at(ki) == s0.leaves_at(ki));
                assert forall|i: int|
                    0 <= i < s0.leaves_at(ki).len() implies s3.leaves_at(ki)[i] == (if l <= node_lo
                    + i < r {
                    V::sapply(s0.leaves_at(ki)[i], *t)
                } else {
                    s0.leaves_at(ki)[i]
                }) by {
                    assert(s3.leaves_at(ki)[i] == V::sapply(s0.leaves_at(ki)[i], *t));
                }
                assert forall|j: int|
                    1 <= j < ni && !in_subtree(ki, j) && !in_subtree(j, ki) && s0.node_ok(j)
                    implies s3.node_ok(j) by {
                    assert(s2.node_ok(j));
                }
            }
            return ;
        }
        proof {
            if hh == 0 {
                assert(pow2(0) == 1) by {
                    vstd::arithmetic::power2::lemma2_to64();
                }
                assert(false);
            }
            vstd::arithmetic::power2::lemma_pow2_unfold(hh as nat);
            vstd::arithmetic::power2::lemma_pow2_pos((hh - 1) as nat);
        }
        let dn = self.data.len();
        let half = (node_hi - node_lo) / 2;
        let mid = node_lo + half;
        proof {
            assert(2 * k + 1 < dn);
            assert(half == pow2((hh - 1) as nat));
            assert(full(ni, 2 * ki, (hh - 1) as nat));
            assert(full(ni, 2 * ki + 1, (hh - 1) as nat));
            lemma_sibling_disjoint(ki);
            lemma_subtree_children(2 * ki);
            lemma_subtree_children(2 * ki + 1);
            assert forall|j: int|
                1 <= j < ni && in_subtree(2 * ki, j) implies s1.node_ok(j) by {
                lemma_subtree_trans(ki, 2 * ki, j);
            }
        }
        self.update_node(2 * k, node_lo, mid, hh - 1, l, r, t);
        let ghost s2 = *self;
        proof {
            assert forall|j: int|
                1 <= j < ni && in_subtree(2 * ki + 1, j) implies s2.node_ok(j) by {
                lemma_subtree_trans(ki, 2 * ki + 1, j);
                assert(s1.node_ok(j));
                if in_subtree(2 * ki, j) {
                    lemma_subtree_comparable(2 * ki, 2 * ki + 1, j);
                }
                if in_subtree(j, 2 * ki) {
                    lemma_subtree_trans(2 * ki + 1, j, 2 * ki);
                }
            }
        }
        self.update_node(2 * k + 1, mid, node_hi, hh - 1, l, r, t);
        let ghost s3 = *self;
        let va = self.data[2 * k];
        let vb = self.data[2 * k + 1];
        self.data[k] = V::op(&va, &vb);
        let ghost s4 = *self;
        proof {
            let la2 = s2.leaves_at(2 * ki);
            let lb3 = s3.leaves_at(2 * ki + 1);
            lemma_full_leaves_len(s1.data@, s1.lazy@, ni, 2 * ki, (hh - 1) as nat);
            lemma_full_leaves_len(s1.data@, s1.lazy@, ni, 2 * ki + 1, (hh - 1) as nat);
            // Writing the internal cell `k` changes no logical leaves.
            assert forall|j: int| 1 <= j < 2 * ni implies s4.leaves_at(j) == s3.leaves_at(j) by {
                assert forall|i: int|
                    1 <= i < 2 * ni && in_subtree(j, i) implies s4.lazy@[i] == s3.lazy@[i] && (i
                    >= ni ==> s4.data@[i] == s3.data@[i]) by {}
                lemma_leaves_congruent(s4.data@, s4.lazy@, s3.data@, s3.lazy@, ni, j);
            }
            // The children's leaves after their own calls survive to the end.
            assert(s3.leaves_at(2 * ki) == la2);
            assert(s4.leaves_at(2 * ki) == la2);
            assert(s4.leaves_at(2 * ki + 1) == lb3);
            // The node's tag is still the identity, so its leaves are the
            // concatenation of the children's.
            assert(s4.lazy@[ki] == L::sid());
            crate::folds::lemma_apply_all_id::<V, L>(la2 + lb3);
            assert(s4.leaves_at(ki) == la2 + lb3);
            assert(s1.leaves_at(ki) == s1.leaves_at(2 * ki) + s1.leaves_at(2 * ki + 1)) by {
                crate::folds::lemma_apply_all_id::<V, L>(
                    s1.leaves_at(2 * ki) + s1.leaves_at(2 * ki + 1),
                );
            }
            assert(s0.leaves_at(ki) == s1.leaves_at(ki));
            // The pointwise transform, assembled from the two halves.
            assert forall|i: int|
                0 <= i < s0.leaves_at(ki).len() implies s4.leaves_at(ki)[i] == (if l <= node_lo + i
                < r {
                V::sapply(s0.leaves_at(ki)[i], *t)
            } else {
                s0.leaves_at(ki)[i]
            }) by {
                if i < half {
                    assert(s4.leaves_at(ki)[i] == la2[i]);
                    assert(s0.leaves_at(ki)[i] == s1.leaves_at(2 * ki)[i]);
                } else {
                    assert(s4.leaves_at(ki)[i] == lb3[i - half]);
                    assert(s2.leaves_at(2 * ki + 1)[i - half] == s1.leaves_at(2 * ki + 1)[i
                        - half]);
                    assert(s0.leaves_at(ki)[i] == s1.leaves_at(2 * ki + 1)[i - half]);
                }
            }
            // The pull-up restores the invariant at `k`.
            assert(s3.data@[2 * ki] == s2.data@[2 * ki]);
            assert(s2.data@[2 * ki] == agg(s2.data@, s2.lazy@, ni, 2 * ki));
            assert(s4.data@[ki] == V::sop(fold(la2), fold(lb3)));
            assert(s4.node_ok(ki));
            // Frames: nothing outside the subtree of `k` moved.
            assert forall|j: int|
                1 <= j < 2 * ni && !in_subtree(ki, j) implies s4.data@[j] == s0.data@[j]
                && s4.lazy@[j] == s0.lazy@[j] by {
                if in_subtree(2 * ki, j) {
                    lemma_subtree_trans(ki, 2 * ki, j);
                }
                if in_subtree(2 * ki + 1, j) {
                    lemma_subtree_trans(ki, 2 * ki + 1, j);
                }
            }
            assert forall|j: int|
                1 <= j < 2 * ni && !in_subtree(ki, j) && !in_subtree(j, ki)
                implies s4.leaves_at(j) == s0.leaves_at(j) by {
                if in_subtree(2 * ki, j) {
                    lemma_subtree_trans(ki, 2 * ki, j);
                }
                if in_subtree(2 * ki + 1, j) {
                    lemma_subtree_trans(ki, 2 * ki + 1, j);
                }
                if in_subtree(j, 2 * ki) {
                    lemma_subtree_comparable(j, ki, 2 * ki);
                }
                if in_subtree(j, 2 * ki + 1) {
                    lemma_subtree_comparable(j, ki, 2 * ki + 1);
                }
                assert(s1.leaves_at(j) == s0.leaves_at(j));
                assert(s2.leaves_at(j) == s1.leaves_at(j));
                assert(s3.leaves_at(j) == s2.leaves_at(j));
            }
            // The invariant inside the subtree is restored ...
            assert forall|j: int|
                1 <= j < ni && in_subtree(ki, j) implies s4.node_ok(j) by {
                if j != ki {
                    lemma_subtree_step(ki, j);
                    if in_subtree(2 * ki, j) {
                        if in_subtree(2 * ki + 1, j) {
                            lemma_subtree_comparable(2 * ki, 2 * ki + 1, j);
                        }
                        if in_subtree(j, 2 * ki + 1) {
                            lemma_subtree_trans(2 * ki, j, 2 * ki + 1);
                        }
                        assert(s2.node_ok(j));
                        assert(s3.node_ok(j));
                    } else {
                        assert(s3.node_ok(j));
                    }
                    assert(s4.leaves_at(2 * j) == s3.leaves_at(2 * j));
                    assert(s4.leaves_at(2 * j + 1) == s3.leaves_at(2 * j + 1));
                    assert(s4.data@[j] == s3.data@[j]);
                }
            }
            // ... and preserved at disjoint nodes outside it.
            assert forall|j: int|
                1 <= j < ni && !in_subtree(ki, j) && !in_subtree(j, ki) && s0.node_ok(j)
                implies s4.node_ok(j) by {
                assert(s1.node_ok(j));
                if in_subtree(2 * ki, j) {
                    lemma_subtree_trans(ki, 2 * ki, j);
                }
                if in_subtree(j, 2 * ki) {
                    lemma_subtree_trans(j, 2 * ki, ki);
                }
                assert(s2.node_ok(j));
                if in_subtree(2 * ki + 1, j) {
                    lemma_subtree_trans(ki, 2 * ki + 1, j);
                }
                if in_subtree(j, 2 * ki + 1) {
                    lemma_subtree_trans(j, 2 * ki + 1, ki);
                }
                assert(s3.node_ok(j));
                assert(s4.leaves_at(2 * j) == s3.leaves_at(2 * j));
                assert(s4.leaves_at(2 * j + 1) == s3.leaves_at(2 * j + 1));
                assert(s4.data@[j] == s3.data@[j]);
            }
            // The stored aggregate at `k` is now its true aggregate.
            Self::lemma_idle_node(s4.data@, s4.lazy@, ni, ki);
        }
    }

    /// Range update: applies the tag `t` to every logical leaf at positions
    /// `[l, r)`; leaves outside the range are unchanged. The empty range is
    /// a no-op.
    pub fn update(&mut self, l: usize, r: usize, t: L)
        requires
            old(self).wf(),
            l <= r,
            r <= old(self).model().len(),
        ensures
            final(self).wf(),
            final(self).model() == apply_within(old(self).model(), l as int, r as int, t),
    {
        proof {
            old(self).lemma_shape_full();
        }
        let n = self.n;
        let h = self.height;
        self.update_node(1, 0, n, h, l, r, &t);
        proof {
            assert forall|j: int| 1 <= j < self.n implies self.node_ok(j) by {
                lemma_root_contains(j);
            }
            lemma_root_contains(1);
            assert forall|i: int|
                0 <= i < old(self).model().len() implies self.model()[i] == apply_within(
                old(self).model(),
                l as int,
                r as int,
                t,
            )[i] by {}
            assert(self.model() =~= apply_within(old(self).model(), l as int, r as int, t));
        }
    }

    /// Allocates the two node arrays for a tree of at least `n` leaves,
    /// every cell the identity, with the leaf count rounded up to the next
    /// power of two.
    fn make_blank(n: usize) -> (st: Self)
        requires
            1 <= n <= 0x1000_0000,
        ensures
            st.shape(),
            n <= st.n < 2 * n,
            forall|j: int|
                0 <= j < 2 * st.n ==> st.data@[j] == V::sid() && st.lazy@[j] == L::sid(),
    {
        let mut p: usize = 1;
        let mut h: usize = 0;
        proof {
            assert(pow2(0) == 1) by {
                vstd::arithmetic::power2::lemma2_to64();
            }
        }
        while p < n
            invariant
                1 <= p < 2 * n,
                n <= 0x1000_0000,
                p == pow2(h as nat),
                h <= 29,
            decreases 2 * n - p,
        {
            proof {
                if h >= 28 {
                    if h > 28 {
                        vstd::arithmetic::power2::lemma_pow2_strictly_increases(28, h as nat);
                    }
                    vstd::arithmetic::power2::lemma2_to64();
                    assert(false);
                }
                vstd::arithmetic::power2::lemma_pow2_unfold((h + 1) as nat);
            }
            p = 2 * p;
            h = h + 1;
        }
        let mut data: Vec<V> = Vec::new();
        let mut lazy: Vec<L> = Vec::new();
        let mut i: usize = 0;
        while i < 2 * p
            invariant
                p <= 0x2000_0000,
                i <= 2 * p,
                data@.len() == i,
                lazy@.len() == i,
                forall|j: int| 0 <= j < i ==> data@[j] == V::sid() && lazy@[j] == L::sid(),
            decreases 2 * p - i,
        {
            data.push(V::id());
            lazy.push(L::id());
            i = i + 1;
        }
        SegmentTree { n: p, height: h, data, lazy }
    }

    /// Builds a tree over `n` leaf slots, rounded up to the next power of
    /// two, with every logical leaf the combine identity. An empty tree
    /// (`n == 0`) is rejected by precondition; the upper bound keeps the
    /// two `2n`-entry node arrays well within address-space limits.
    pub fn new(n: usize) -> (st: Self)
        requires
            1 <= n <= 0x1000_0000,
        ensures
            st.wf(),
            n <= st.model().len() < 2 * n,
            vstd::arithmetic::power2::is_pow2(st.model().len() as int),
            forall|i: int| 0 <= i < st.model().len() ==> st.model()[i] == V::sid(),
    {
        let st = Self::make_blank(n);
        proof {
            let ni = st.n as int;
            assert forall|j: int| 1 <= j < ni implies st.node_ok(j) by {
                lemma_const_tree(st.data@, st.lazy@, ni, 2 * j);
                lemma_const_tree(st.data@, st.lazy@, ni, 2 * j + 1);
                V::lemma_id(V::sid());
            }
            st.lemma_shape_full();
            lemma_const_tree(st.data@, st.lazy@, ni, 1);
            assert(vstd::arithmetic::power2::is_pow2_exists(ni)) by {
                assert(vstd::arithmetic::power::pow(2, st.height as nat) == ni) by {
                    vstd::arithmetic::power2::lemma_pow2(st.height as nat);
                }
            }
            vstd::arithmetic::power2::is_pow2_equiv(ni);
        }
        st
    }

    /// Builds a tree from an initial sequence of leaf values, padding on
    /// the right with the combine identity up to the next power of two.
    /// The empty sequence is rejected by precondition.
    pub fn new_with_data(values: Vec<V>) -> (st: Self)
        requires
            1 <= values@.len() <= 0x1000_0000,
        ensures
            st.wf(),
            values@.len() <= st.model().len() < 2 * values@.len(),
            vstd::arithmetic::power2::is_pow2(st.model().len() as int),
            forall|i: int| 0 <= i < values@.len() ==> st.model()[i] == values@[i],
            forall|i: int|
                values@.len() <= i < st.model().len() ==> st.model()[i] == V::sid(),
    {
        let mut st = Self::make_blank(values.len());
        let n = st.n;
        let ghost vlen = values@.len() as int;
        let ghost hgt = st.height;
        let mut i: usize = 0;
        while i < values.len()
            invariant
                st.shape(),
                st.n == n,
                st.height == hgt,
                i <= vlen <= n,
                values@.len() == vlen,
                st.data@.len() == 2 * n,
                forall|j: int| 0 <= j < 2 * n ==> st.lazy@[j] == L::sid(),
                forall|j: int| n <= j < n + i ==> st.data@[j] == values@[j - n],
                forall|j: int|
                    (0 <= j < n || n + i <= j < 2 * n) ==> st.data@[j] == V::sid(),
            decreases values@.len() - i,
        {
            let dn = st.data.len();
            proof {
                assert(n + i < dn);
            }
            st.data[n + i] = values[i];
            i = i + 1;
        }
        let ghost dfixed = st.data@;
        let mut k: usize = n - 1;
        while k >= 1
            invariant
                st.shape(),
                st.n == n,
                st.height == hgt,
                k <= n - 1,
                st.data@.len() == 2 * n,
                forall|j: int| 0 <= j < 2 * n ==> st.lazy@[j] == L::sid(),
                forall|j: int| n <= j < 2 * n ==> st.data@[j] == dfixed[j],
                forall|j: int| (k as int) < j < n ==> st.node_ok(j),
            decreases k,
        {
            let ghost sb = st;
            let dn = st.data.len();
            proof {
                assert(2 * k + 1 < dn);
            }
            let va = st.data[2 * k];
            let vb = st.data[2 * k + 1];
            st.data[k] = V::op(&va, &vb);
            proof {
                let sa = st;
                let ni = n as int;
                let kj = k as int;
                // Writing an internal cell changes no logical leaves.
                assert forall|j: int|
                    1 <= j < 2 * ni implies sa.leaves_at(j) == sb.leaves_at(j) by {
                    assert forall|ii: int|
                        1 <= ii < 2 * ni && in_subtree(j, ii) implies sa.lazy@[ii] == sb.lazy@[ii]
                        && (ii >= ni ==> sa.data@[ii] == sb.data@[ii]) by {}
                    lemma_leaves_congruent(sa.data@, sa.lazy@, sb.data@, sb.lazy@, ni, j);
                }
                // The children already store their true aggregates.
                if 2 * kj < ni {
                    assert(sb.node_ok(2 * kj));
                }
                if 2 * kj + 1 < ni {
                    assert(sb.node_ok(2 * kj + 1));
                }
                Self::lemma_idle_node(sb.data@, sb.lazy@, ni, 2 * kj);
                Self::lemma_idle_node(sb.data@, sb.lazy@, ni, 2 * kj + 1);
                assert(sa.leaves_at(2 * kj) == sb.leaves_at(2 * kj));
                assert(sa.leaves_at(2 * kj + 1) == sb.leaves_at(2 * kj + 1));
                assert(sa.data@[kj] == V::sop(
                    agg(sb.data@, sb.lazy@, ni, 2 * kj),
                    agg(sb.data@, sb.lazy@, ni, 2 * kj + 1),
                ));
                assert(sa.node_ok(kj));
                assert forall|j: int| kj < j < ni implies sa.node_ok(j) by {
                    assert(sb.node_ok(j));
                    assert(sa.leaves_at(2 * j) == sb.leaves_at(2 * j));
                    assert(sa.leaves_at(2 * j + 1) == sb.leaves_at(2 * j + 1));
                }
            }
            k = k - 1;
        }
        proof {
            let ni = n as int;
            st.lemma_shape_full();
            lemma_plain_leaves(st.data@, st.lazy@, ni, 1, st.height as nat);
            assert(1 * pow2(st.height as nat) == pow2(st.height as nat));
            assert((1 + 1) * pow2(st.height as nat) == 2 * pow2(st.height as nat));
            assert(st.model() == st.data@.subrange(ni, 2 * ni));
            assert forall|i: int| 0 <= i < vlen implies st.model()[i] == values@[i] by {
                assert(st.model()[i] == st.data@[ni + i]);
                assert(st.data@[ni + i] == dfixed[ni + i]);
            }
            assert forall|i: int| vlen <= i < ni implies st.model()[i] == V::sid() by {
                assert(st.model()[i] == st.data@[ni + i]);
                assert(st.data@[ni + i] == dfixed[ni + i]);
            }
            assert(vstd::arithmetic::power2::is_pow2_exists(ni)) by {
                assert(vstd::arithmetic::power::pow(2, hgt as nat) == ni) by {
                    vstd::arithmetic::power2::lemma_pow2(hgt as nat);
                }
            }
            vstd::arithmetic::power2::is_pow2_equiv(ni);
        }
        st
    }

    /// The number of leaf slots: the requested size rounded up to a power
    /// of two.
    pub fn len(&self) -> (r: usize)
        requires
            self.wf(),
        ensures
            r == self.model().len(),
    {
        proof {
            self.lemma_shape_full();
        }
        self.n
    }
}

} // verus!
