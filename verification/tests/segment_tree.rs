use lazy_segtree::algebra::{AddTag, Assign, LastU, LazyApply, MaxU, Monoid, SumLen};
use lazy_segtree::tree::SegmentTree;

fn max_tree(values: &[usize]) -> SegmentTree<MaxU, Assign> {
    let mut v: Vec<MaxU> = Vec::new();
    for &x in values {
        v.push(MaxU { v: x });
    }
    SegmentTree::new_with_data(v)
}

fn sum_tree(values: &[u64]) -> SegmentTree<SumLen, AddTag> {
    let mut v: Vec<SumLen> = Vec::new();
    for &x in values {
        v.push(SumLen::unit(x));
    }
    SegmentTree::new_with_data(v)
}

#[test]
fn skyline_scenario() {
    // Lay sequential intervals on a skyline over [0, 5): max combine with
    // assignment update.
    let mut st: SegmentTree<MaxU, Assign> = SegmentTree::new(5);
    assert_eq!(st.query(0, 5), MaxU { v: 0 });
    st.update(0, 5, Assign::Overwrite(1));
    assert_eq!(st.query(0, 5), MaxU { v: 1 });
    assert_eq!(st.query(1, 3), MaxU { v: 1 });
    st.update(1, 3, Assign::Overwrite(2));
    assert_eq!(st.query(0, 5), MaxU { v: 2 });
    assert_eq!(st.query(0, 1), MaxU { v: 1 });
    assert_eq!(st.query(3, 5), MaxU { v: 1 });
}

#[test]
fn skyline_landing_heights() {
    // The canonical use: each interval lands one above the current max in
    // its range.
    let mut st: SegmentTree<MaxU, Assign> = SegmentTree::new(10);
    let intervals = [(0usize, 10usize), (2, 5), (4, 7), (0, 3)];
    let mut heights = Vec::new();
    for &(l, r) in intervals.iter() {
        let h = st.query(l, r).v + 1;
        st.update(l, r, Assign::Overwrite(h));
        heights.push(h);
    }
    assert_eq!(heights, vec![1, 2, 3, 3]);
}

#[test]
fn sum_add_scenario() {
    let mut st = sum_tree(&[1, 2, 3, 4, 5]);
    assert_eq!(st.query(0, 5).s, 15);
    st.update(1, 3, AddTag { a: 10 });
    assert_eq!(st.query(0, 5).s, 35);
    assert_eq!(st.query(1, 2).s, 12);
    assert_eq!(st.query(2, 3).s, 13);
    assert_eq!(st.query(0, 1).s, 1);
}

#[test]
fn empty_range_returns_identity() {
    let mut mt = max_tree(&[3, 1, 4]);
    for i in 0..=3 {
        assert_eq!(mt.query(i, i), MaxU { v: 0 });
    }
    let mut st = sum_tree(&[7, 8]);
    for i in 0..=2 {
        assert_eq!(st.query(i, i), SumLen { s: 0, c: 0 });
    }
}

#[test]
fn update_effect_per_leaf() {
    let mut st = sum_tree(&[10, 20, 30, 40, 50, 60]);
    st.update(2, 5, AddTag { a: 7 });
    let expected = [10u64, 20, 37, 47, 57, 60];
    for (i, &e) in expected.iter().enumerate() {
        assert_eq!(st.query(i, i + 1).s, e);
    }
}

#[test]
fn identity_update_changes_nothing() {
    let mut st = sum_tree(&[5, 6, 7, 8]);
    let before: Vec<u64> = (0..4).map(|i| st.query(i, i + 1).s).collect();
    let whole = st.query(0, 4).s;
    st.update(0, 4, AddTag { a: 0 });
    st.update(1, 3, AddTag { a: 0 });
    let after: Vec<u64> = (0..4).map(|i| st.query(i, i + 1).s).collect();
    assert_eq!(before, after);
    assert_eq!(st.query(0, 4).s, whole);

    let mut mt = max_tree(&[2, 9, 4]);
    mt.update(0, 3, Assign::Keep);
    assert_eq!(mt.query(0, 3), MaxU { v: 9 });
}

#[test]
fn non_commutative_order_is_left_to_right() {
    // Rightmost-value-wins: the query must fold left to right, so the
    // answer is always the rightmost filled leaf of the range.
    let mut st: SegmentTree<LastU, Assign> =
        SegmentTree::new_with_data(vec![LastU::Filled(1), LastU::Filled(2), LastU::Filled(3)]);
    assert_eq!(st.query(0, 3), LastU::Filled(3));
    assert_eq!(st.query(0, 2), LastU::Filled(2));
    assert_eq!(st.query(0, 1), LastU::Filled(1));
    assert_eq!(st.query(1, 3), LastU::Filled(3));
    // Padding (Vacant) to the power-of-two size is never observed.
    assert_eq!(st.len(), 4);
    assert_eq!(st.query(0, 4), LastU::Filled(3));
    st.update(1, 2, Assign::Overwrite(9));
    assert_eq!(st.query(0, 3), LastU::Filled(3));
    assert_eq!(st.query(0, 2), LastU::Filled(9));
}

#[test]
fn brute_force_comparison() {
    // Every query over every range agrees with an eagerly-updated parallel
    // array, across interleaved range updates.
    let n = 11usize;
    let mut plain: Vec<u64> = (0..n as u64).map(|x| (x * 13 + 5) % 17).collect();
    let mut st = sum_tree(&plain);
    let updates = [(0usize, 11usize, 3u64), (2, 7, 11), (5, 5, 100), (1, 10, 2), (8, 11, 6)];
    for &(ul, ur, a) in updates.iter() {
        st.update(ul, ur, AddTag { a });
        for x in plain[ul..ur].iter_mut() {
            *x = x.wrapping_add(a);
        }
        for l in 0..=n {
            for r in l..=n {
                let got = st.query(l, r);
                let want_sum: u64 = plain[l..r].iter().sum();
                assert_eq!(got.s, want_sum);
                assert_eq!(got.c, (r - l) as u64);
            }
        }
    }
}

#[test]
fn empty_update_is_noop() {
    let mut st = sum_tree(&[4, 5, 6]);
    st.update(2, 2, AddTag { a: 999 });
    assert_eq!(st.query(0, 3).s, 15);
    for i in 0..3 {
        assert_eq!(st.query(i, i + 1).s, 4 + i as u64);
    }
}

#[test]
fn scaling_rounds_to_next_power_of_two() {
    assert_eq!(SegmentTree::<MaxU, Assign>::new(1).len(), 1);
    assert_eq!(SegmentTree::<MaxU, Assign>::new(2).len(), 2);
    assert_eq!(SegmentTree::<MaxU, Assign>::new(3).len(), 4);
    assert_eq!(SegmentTree::<MaxU, Assign>::new(5).len(), 8);
    assert_eq!(SegmentTree::<MaxU, Assign>::new(8).len(), 8);
    assert_eq!(SegmentTree::<MaxU, Assign>::new(9).len(), 16);
}

#[test]
fn padding_is_unobservable() {
    // Queries over the padded region behave as if the padding were absent.
    let mut st = sum_tree(&[1, 2, 3]);
    assert_eq!(st.len(), 4);
    assert_eq!(st.query(0, 3).s, 6);
    assert_eq!(st.query(0, 4).s, 6);
    assert_eq!(st.query(0, 4).c, 3);
    assert_eq!(st.query(3, 4), SumLen { s: 0, c: 0 });
}
