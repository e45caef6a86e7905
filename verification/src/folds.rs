//! Left-to-right monoid folds over sequences, and the lemmas relating them
//! to concatenation, splitting, and pointwise update application.

use vstd::prelude::*;
use crate::algebra::{LazyApply, Monoid};

verus! {

/// The left-to-right fold of a sequence under the monoid operator:
/// `s[0] ⊕ s[1] ⊕ ... ⊕ s[len-1]`, and the identity for the empty sequence.
pub open spec fn fold<V: Monoid>(s: Seq<V>) -> V
    decreases s.len(),
{
    if s.len() == 0 {
        V::sid()
    } else {
        V::sop(fold(s.drop_last()), s.last())
    }
}

/// Every element of `s` inside `[lo, hi)` with the update `t` applied;
/// elements outside the window are unchanged.
pub open spec fn apply_within<V: LazyApply<L>, L: Monoid>(
    s: Seq<V>,
    lo: int,
    hi: int,
    t: L,
) -> Seq<V> {
    Seq::new(s.len(), |i: int| if lo <= i < hi { V::sapply(s[i], t) } else { s[i] })
}

/// Every element of `s` with the update `t` applied.
pub open spec fn apply_all<V: LazyApply<L>, L: Monoid>(s: Seq<V>, t: L) -> Seq<V> {
    Seq::new(s.len(), |i: int| V::sapply(s[i], t))
}

/// The fold of a one-element sequence is that element.
pub proof fn lemma_fold_singleton<V: Monoid>(x: V)
    ensures
        fold(seq![x]) == x,
{
    let s = seq![x];
    assert(s.drop_last() =~= Seq::<V>::empty());
    assert(fold(Seq::<V>::empty()) == V::sid());
    assert(s.len() == 1 && s.last() == x);
    V::lemma_id(x);
}

/// Folding a concatenation equals combining the two folds.
pub proof fn lemma_fold_concat<V: Monoid>(s1: Seq<V>, s2: Seq<V>)
    ensures
        fold(s1 + s2) == V::sop(fold(s1), fold(s2)),
    decreases s2.len(),
{
    if s2.len() == 0 {
        assert(s1 + s2 =~= s1);
        V::lemma_id(fold(s1));
    } else {
        let s2p = s2.drop_last();
        let x = s2.last();
        assert((s1 + s2).drop_last() =~= s1 + s2p);
        assert((s1 + s2).len() > 0);
        assert((s1 + s2).last() == x);
        lemma_fold_concat(s1, s2p);
        V::lemma_assoc(fold(s1), fold(s2p), x);
    }
}

/// Folding a nonempty sequence with an update applied to every element
/// equals applying the update to the fold (the distributivity law, lifted
/// from pairs to sequences).
pub proof fn lemma_fold_apply_all<V: LazyApply<L>, L: Monoid>(s: Seq<V>, t: L)
    requires
        s.len() >= 1,
    ensures
        fold(apply_all(s, t)) == V::sapply(fold(s), t),
    decreases s.len(),
{
    let m = apply_all(s, t);
    if s.len() == 1 {
        assert(m =~= seq![V::sapply(s[0], t)]);
        lemma_fold_singleton(V::sapply(s[0], t));
        lemma_fold_singleton(s[0]);
        assert(s =~= seq![s[0]]);
    } else {
        let sp = s.drop_last();
        let x = s.last();
        assert(m.drop_last() =~= apply_all(sp, t));
        assert(m.last() == V::sapply(x, t));
        lemma_fold_apply_all(sp, t);
        V::lemma_distribute(fold(sp), x, t);
    }
}

/// Applying the identity update to every element changes nothing.
pub proof fn lemma_apply_all_id<V: LazyApply<L>, L: Monoid>(s: Seq<V>)
    ensures
        apply_all(s, L::sid()) == s,
{
    assert forall|i: int| 0 <= i < s.len() implies apply_all(s, L::sid())[i] == s[i] by {
        V::lemma_apply_id(s[i]);
    }
    assert(apply_all(s, L::sid()) =~= s);
}

/// Pointwise application distributes over concatenation.
pub proof fn lemma_apply_all_concat<V: LazyApply<L>, L: Monoid>(s1: Seq<V>, s2: Seq<V>, t: L)
    ensures
        apply_all(s1 + s2, t) == apply_all(s1, t) + apply_all(s2, t),
{
    assert(apply_all(s1 + s2, t) =~= apply_all(s1, t) + apply_all(s2, t));
}

/// Applying two updates in sequence equals applying their composition,
/// lifted pointwise to sequences.
pub proof fn lemma_apply_all_compose<V: LazyApply<L>, L: Monoid>(s: Seq<V>, t1: L, t2: L)
    ensures
        apply_all(apply_all(s, t1), t2) == apply_all(s, L::sop(t1, t2)),
{
    assert forall|i: int| 0 <= i < s.len() implies apply_all(apply_all(s, t1), t2)[i] == apply_all(
        s,
        L::sop(t1, t2),
    )[i] by {
        V::lemma_compose(s[i], t1, t2);
    }
    assert(apply_all(apply_all(s, t1), t2) =~= apply_all(s, L::sop(t1, t2)));
}

/// The fold of a sequence of identity elements is the identity.
pub proof fn lemma_fold_const_id<V: Monoid>(s: Seq<V>)
    requires
        forall|i: int| 0 <= i < s.len() ==> s[i] == V::sid(),
    ensures
        fold(s) == V::sid(),
    decreases s.len(),
{
    if s.len() == 0 {
    } else {
        lemma_fold_const_id(s.drop_last());
        V::lemma_id(V::sid());
    }
}

/// A fold over `[lo, hi)` splits at any interior point `mid`.
pub proof fn lemma_fold_split<V: Monoid>(s: Seq<V>, lo: int, mid: int, hi: int)
    requires
        0 <= lo <= mid <= hi <= s.len(),
    ensures
        fold(s.subrange(lo, hi)) == V::sop(fold(s.subrange(lo, mid)), fold(s.subrange(mid, hi))),
{
    assert(s.subrange(lo, hi) =~= s.subrange(lo, mid) + s.subrange(mid, hi));
    lemma_fold_concat(s.subrange(lo, mid), s.subrange(mid, hi));
}

} // verus!
