use fhq_treap::TreapMap;

fn pairs_of(m: &TreapMap<i64>) -> Vec<(u64, i64)> {
    let mut it = m.slice(0..m.len());
    let mut out: Vec<(u64, i64)> = Vec::new();
    while let Some((k, v)) = it.next() {
        out.push((k, *v));
    }
    out
}

#[test]
fn insert_scenario_in_order() {
    let mut m: TreapMap<i64> = TreapMap::new();
    m.insert(5, 50);
    m.insert(3, 30);
    m.insert(8, 80);
    m.insert(1, 10);
    m.insert(4, 40);
    assert_eq!(
        pairs_of(&m),
        vec![(1, 10), (3, 30), (4, 40), (5, 50), (8, 80)]
    );
    assert_eq!(m.nth_kv(2).map(|p| (p.0, *p.1)), Some((4, 40)));
    assert_eq!(m.nth(2), Some(&40));
    assert_eq!(m.num_lt(5), 3);
    assert_eq!(m.num_le(5), 4);
}

#[test]
fn len_counts_distinct_keys() {
    let mut m: TreapMap<i64> = TreapMap::new();
    assert_eq!(m.len(), 0);
    m.insert(7, 1);
    m.insert(2, 2);
    m.insert(7, 3);
    m.insert(7, 4);
    m.insert(9, 5);
    assert_eq!(m.len(), 3);
    assert_eq!(m.get(7), Some(&4));
}

#[test]
fn insert_then_get_remove_then_absent() {
    let mut m: TreapMap<i64> = TreapMap::new();
    for k in [12u64, 4, 9, 30, 17] {
        m.insert(k, (k as i64) * 100);
    }
    assert_eq!(m.get(9), Some(&900));
    assert_eq!(m.get(10), None);
    assert_eq!(m.remove(9), Some(900));
    assert_eq!(m.get(9), None);
    assert_eq!(m.remove(9), None);
    assert_eq!(m.len(), 4);
    let old = m.insert(4, -4);
    assert_eq!(old, Some(400));
    assert_eq!(m.get(4), Some(&-4));
}

#[test]
fn rank_inverts_order_statistic() {
    let mut m: TreapMap<i64> = TreapMap::new();
    for k in [22u64, 3, 14, 8, 41, 35, 1, 19] {
        m.insert(k, k as i64);
    }
    for i in 0..m.len() {
        let (k, _) = m.nth_kv(i).unwrap();
        assert_eq!(m.num_lt(k), i);
    }
}

#[test]
fn split_merge_round_trip() {
    for pivot in [0u64, 1, 5, 9, 100] {
        let mut m: TreapMap<i64> = TreapMap::new();
        for k in [5u64, 1, 9, 3, 7] {
            m.insert(k, k as i64 + 1000);
        }
        let before = pairs_of(&m);
        let (l, r) = m.split_lt(pivot);
        let back = TreapMap::merge(l, r);
        assert_eq!(pairs_of(&back), before);
    }
}

#[test]
fn merge_concatenates_disjoint_maps() {
    let l = TreapMap::from_unique_sorted_iter(vec![(1u64, 10i64), (2, 20), (3, 30)]);
    let r = TreapMap::from_unique_sorted_iter(vec![(7u64, 70i64), (9, 90)]);
    let m = TreapMap::merge(l, r);
    assert_eq!(pairs_of(&m), vec![(1, 10), (2, 20), (3, 30), (7, 70), (9, 90)]);
}

#[test]
fn split_lt_and_split_le_differ_on_the_pivot() {
    let m = TreapMap::from_unique_sorted_iter(vec![(1u64, 1i64), (2, 2), (3, 3)]);
    let (l, r) = m.split_lt(2);
    assert_eq!(pairs_of(&l), vec![(1, 1)]);
    assert_eq!(pairs_of(&r), vec![(2, 2), (3, 3)]);

    let m = TreapMap::from_unique_sorted_iter(vec![(1u64, 1i64), (2, 2), (3, 3)]);
    let (l, r) = m.split_le(2);
    assert_eq!(pairs_of(&l), vec![(1, 1), (2, 2)]);
    assert_eq!(pairs_of(&r), vec![(3, 3)]);
}

#[test]
fn split_n_by_rank() {
    let m = TreapMap::from_unique_sorted_iter(vec![(1u64, 1i64), (2, 2), (3, 3), (4, 4)]);
    let (l, r) = m.split_n(3);
    assert_eq!(pairs_of(&l), vec![(1, 1), (2, 2), (3, 3)]);
    assert_eq!(pairs_of(&r), vec![(4, 4)]);

    let m = TreapMap::from_unique_sorted_iter(vec![(1u64, 1i64), (2, 2)]);
    let (l, r) = m.split_n(10);
    assert_eq!(pairs_of(&l), vec![(1, 1), (2, 2)]);
    assert_eq!(pairs_of(&r), vec![]);
}

#[test]
fn forward_slice_equals_reversed_rev_slice() {
    let mut m: TreapMap<i64> = TreapMap::new();
    for k in [6u64, 2, 11, 4, 9, 30] {
        m.insert(k, -(k as i64));
    }
    let fwd = pairs_of(&m);
    let mut it = m.rev_slice(0..m.len());
    let mut bwd: Vec<(u64, i64)> = Vec::new();
    while let Some((k, v)) = it.next() {
        bwd.push((k, *v));
    }
    bwd.reverse();
    assert_eq!(fwd, bwd);
}

#[test]
fn slice_clamps_out_of_range_ranks() {
    let m = TreapMap::from_unique_sorted_iter(vec![(1u64, 1i64), (2, 2), (3, 3)]);
    let mut it = m.slice(1..100);
    assert_eq!(it.remaining(), 2);
    assert_eq!(it.next().map(|p| (p.0, *p.1)), Some((2, 2)));
    assert_eq!(it.next().map(|p| (p.0, *p.1)), Some((3, 3)));
    assert_eq!(it.next().map(|p| (p.0, *p.1)), None);
    assert_eq!(it.remaining(), 0);

    let mut empty = m.slice(2..2);
    assert!(empty.next().is_none());
    let mut inverted = m.slice(3..1);
    assert!(inverted.next().is_none());
    let mut rev_empty = m.rev_slice(2..2);
    assert!(rev_empty.next().is_none());
}

#[test]
fn from_unique_sorted_iter_reproduces_input() {
    let empty: Vec<(u64, i64)> = Vec::new();
    let m = TreapMap::from_unique_sorted_iter(empty);
    assert_eq!(m.len(), 0);
    assert_eq!(pairs_of(&m), vec![]);

    let input = vec![(1u64, 10i64), (4, 40), (6, 60), (90, 900)];
    let m = TreapMap::from_unique_sorted_iter(input.clone());
    assert_eq!(pairs_of(&m), input);

    let one = vec![(42u64, 1i64)];
    let m = TreapMap::from_unique_sorted_iter(one.clone());
    assert_eq!(pairs_of(&m), one);
}

#[test]
fn from_sorted_iter_keeps_first_of_duplicate_keys() {
    let m = TreapMap::from_sorted_iter(vec![(1u64, "a"), (1, "b"), (2, "c")]);
    let mut it = m.slice(0..m.len());
    let mut out: Vec<(u64, &str)> = Vec::new();
    while let Some((k, v)) = it.next() {
        out.push((k, *v));
    }
    assert_eq!(out, vec![(1, "a"), (2, "c")]);
}

#[test]
fn from_pairs_sorts_and_keeps_first_occurrence() {
    let m = TreapMap::from_pairs(vec![
        (9u64, 90i64),
        (2, 20),
        (9, 91),
        (5, 50),
        (2, 21),
        (7, 70),
    ]);
    assert_eq!(pairs_of(&m), vec![(2, 20), (5, 50), (7, 70), (9, 90)]);
}

#[test]
fn get_mut_rewrites_one_value() {
    let mut m: TreapMap<i64> = TreapMap::new();
    for k in [3u64, 1, 5] {
        m.insert(k, k as i64);
    }
    if let Some(v) = m.get_mut(3) {
        *v = 333;
    }
    assert_eq!(m.get(3), Some(&333));
    assert_eq!(m.get(1), Some(&1));
    assert_eq!(m.get(5), Some(&5));
    assert!(m.get_mut(4).is_none());
    assert_eq!(pairs_of(&m), vec![(1, 1), (3, 333), (5, 5)]);
}

#[test]
fn nth_mut_rewrites_by_rank() {
    let mut m: TreapMap<i64> = TreapMap::new();
    for k in [30u64, 10, 20] {
        m.insert(k, 0);
    }
    if let Some((k, v)) = m.nth_kv_mut(1) {
        assert_eq!(k, 20);
        *v = 7;
    }
    if let Some(v) = m.nth_mut(2) {
        *v = 9;
    }
    assert!(m.nth_kv_mut(3).is_none());
    assert!(m.nth_mut(99).is_none());
    assert_eq!(pairs_of(&m), vec![(10, 0), (20, 7), (30, 9)]);
}

#[test]
fn num_lt_and_num_le_on_absent_and_extreme_keys() {
    let m = TreapMap::from_unique_sorted_iter(vec![(10u64, 1i64), (20, 2), (30, 3)]);
    assert_eq!(m.num_lt(0), 0);
    assert_eq!(m.num_le(0), 0);
    assert_eq!(m.num_lt(10), 0);
    assert_eq!(m.num_le(10), 1);
    assert_eq!(m.num_lt(25), 2);
    assert_eq!(m.num_le(25), 2);
    assert_eq!(m.num_lt(u64::MAX), 3);
    assert_eq!(m.num_le(u64::MAX), 3);
}

#[test]
fn nth_out_of_range_is_absent() {
    let m: TreapMap<i64> = TreapMap::new();
    assert!(m.nth_kv(0).is_none());
    let m = TreapMap::from_unique_sorted_iter(vec![(1u64, 1i64)]);
    assert!(m.nth_kv(1).is_none());
    assert_eq!(m.nth_kv(0).map(|p| (p.0, *p.1)), Some((1, 1)));
}

#[test]
fn height_tracks_log_of_length() {
    // Random weights keep the tree balanced in expectation whatever the
    // insertion order; sequential keys are the worst case for a plain BST.
    for _round in 0..3 {
        let mut m: TreapMap<i64> = TreapMap::new();
        for k in 0u64..1000 {
            m.insert(k, k as i64);
        }
        assert_eq!(m.len(), 1000);
        let h = m.height();
        assert!(h >= 10);
        assert!(h < 100, "height {h} far above the expected logarithmic range");
    }
}
