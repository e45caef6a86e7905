//! The laws the library guarantees, stated as public proof functions over
//! the same specification vocabulary the tree's contracts use.

use vstd::prelude::*;
use crate::algebra::{LazyApply, Monoid};
use crate::folds::{apply_within, fold};

verus! {

/// Law conformance: every algebra admitted by the traits satisfies the two
/// homomorphism laws, for all values and tags — applying two updates in
/// sequence equals applying their composition, and applying an update to a
/// merged aggregate equals merging the individually-updated aggregates.
pub proof fn lemma_algebra_laws<V: LazyApply<L>, L: Monoid>(v1: V, v2: V, l1: L, l2: L)
    ensures
        V::sapply(V::sapply(v1, l1), l2) == V::sapply(v1, L::sop(l1, l2)),
        V::sapply(V::sop(v1, v2), l1) == V::sop(V::sapply(v1, l1), V::sapply(v2, l1)),
{
    V::lemma_compose(v1, l1, l2);
    V::lemma_distribute(v1, v2, l1);
}

/// An identity update never changes the logical contents, so no query
/// result can change after `update(range, idL)`.
pub proof fn lemma_identity_update_is_noop<V: LazyApply<L>, L: Monoid>(s: Seq<V>, l: int, r: int)
    ensures
        apply_within(s, l, r, L::sid()) == s,
{
    assert forall|i: int| 0 <= i < s.len() implies apply_within(s, l, r, L::sid())[i] == s[i] by {
        V::lemma_apply_id(s[i]);
    }
    assert(apply_within(s, l, r, L::sid()) =~= s);
}

/// An empty-range update is a no-op: it changes no logical leaf.
pub proof fn lemma_empty_update_is_noop<V: LazyApply<L>, L: Monoid>(s: Seq<V>, i: int, t: L)
    ensures
        apply_within(s, i, i, t) == s,
{
    assert(apply_within(s, i, i, t) =~= s);
}

/// An empty range folds to the combine identity, so `query([i, i))`
/// returns `idV` for any position.
pub proof fn lemma_empty_range_fold<V: Monoid>(s: Seq<V>, i: int)
    requires
        0 <= i <= s.len(),
    ensures
        fold(s.subrange(i, i)) == V::sid(),
{
    assert(s.subrange(i, i) =~= Seq::<V>::empty());
}

/// Padding is unobservable: a fold over a range that stays within the
/// first `m` positions does not depend on what lies beyond them.
pub proof fn lemma_padding_unobservable<V: Monoid>(s1: Seq<V>, s2: Seq<V>, l: int, r: int, m: int)
    requires
        0 <= l <= r <= m,
        m <= s1.len(),
        m <= s2.len(),
        forall|i: int| 0 <= i < m ==> s1[i] == s2[i],
    ensures
        fold(s1.subrange(l, r)) == fold(s2.subrange(l, r)),
{
    assert(s1.subrange(l, r) =~= s2.subrange(l, r));
}

/// An update outside a query range does not affect the query: the fold
/// over `[l, r)` after applying a tag within `[ul, ur)` equals the fold
/// before, whenever the two ranges do not meet.
pub proof fn lemma_disjoint_update_invisible<V: LazyApply<L>, L: Monoid>(
    s: Seq<V>,
    l: int,
    r: int,
    ul: int,
    ur: int,
    t: L,
)
    requires
        0 <= l <= r <= s.len(),
        ur <= l || r <= ul,
    ensures
        fold(apply_within(s, ul, ur, t).subrange(l, r)) == fold(s.subrange(l, r)),
{
    assert(apply_within(s, ul, ur, t).subrange(l, r) =~= s.subrange(l, r));
}

} // verus!
