use lazy_segtree::algebra::{AddTag, Assign, LastU, LazyApply, MaxU, Monoid, SumLen};

fn check_laws<V, L>(vals: &[V], tags: &[L])
where
    V: LazyApply<L> + PartialEq + core::fmt::Debug,
    L: Monoid,
{
    for v1 in vals {
        for v2 in vals {
            for l1 in tags {
                for l2 in tags {
                    // Composition: apply(apply(v, l1), l2) == apply(v, l1 . l2).
                    let two_steps = V::apply(&V::apply(v1, l1), l2);
                    let composed = V::apply(v1, &L::op(l1, l2));
                    assert_eq!(two_steps, composed);
                    // Distributivity: apply(v1 + v2, l) == apply(v1, l) + apply(v2, l).
                    let merged = V::apply(&V::op(v1, v2), l1);
                    let split = V::op(&V::apply(v1, l1), &V::apply(v2, l1));
                    assert_eq!(merged, split);
                }
            }
        }
    }
    // Identities.
    for v in vals {
        assert_eq!(V::apply(v, &L::id()), *v);
        assert_eq!(V::op(&V::id(), v), *v);
        assert_eq!(V::op(v, &V::id()), *v);
    }
    for l1 in tags {
        for l2 in tags {
            for l3 in tags {
                // Associativity of tag composition, observed through apply.
                let left = L::op(&L::op(l1, l2), l3);
                let right = L::op(l1, &L::op(l2, l3));
                for v in vals {
                    assert_eq!(V::apply(v, &left), V::apply(v, &right));
                }
            }
        }
    }
}

#[test]
fn max_assign_laws_sampled() {
    let vals = [MaxU { v: 0 }, MaxU { v: 1 }, MaxU { v: 5 }, MaxU { v: usize::MAX }];
    let tags = [Assign::Keep, Assign::Overwrite(0), Assign::Overwrite(3), Assign::Overwrite(9)];
    check_laws(&vals, &tags);
}

#[test]
fn sum_add_laws_sampled() {
    let vals = [
        SumLen { s: 0, c: 0 },
        SumLen { s: 1, c: 1 },
        SumLen { s: 100, c: 3 },
        SumLen { s: u64::MAX, c: u64::MAX },
    ];
    let tags = [AddTag { a: 0 }, AddTag { a: 1 }, AddTag { a: u64::MAX }, AddTag { a: 12345 }];
    check_laws(&vals, &tags);
}

#[test]
fn last_assign_laws_sampled() {
    let vals = [LastU::Vacant, LastU::Filled(0), LastU::Filled(7)];
    let tags = [Assign::Keep, Assign::Overwrite(2), Assign::Overwrite(8)];
    check_laws(&vals, &tags);
}

#[test]
fn wrapping_arithmetic_is_exact() {
    // The sum+add algebra wraps modulo 2^64, matching u64 wrapping ops.
    let a = SumLen { s: u64::MAX, c: 1 };
    let b = SumLen { s: 2, c: 1 };
    let merged = SumLen::op(&a, &b);
    assert_eq!(merged.s, 1);
    assert_eq!(merged.c, 2);
    let bumped = SumLen::apply(&merged, &AddTag { a: u64::MAX });
    // 1 + (2^64 - 1) * 2 == 1 + 2^65 - 2 == 2^64 + (2^64 - 1) wraps to 2^64 - 1.
    assert_eq!(bumped.s, u64::MAX);
    assert_eq!(bumped.c, 2);
}
