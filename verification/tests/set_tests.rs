use fhq_treap::TreapSet;

fn keys_of(s: &TreapSet) -> Vec<u64> {
    let mut out: Vec<u64> = Vec::new();
    let mut i: u32 = 0;
    while let Some(k) = s.nth(i) {
        out.push(k);
        i += 1;
    }
    out
}

#[test]
fn set_insert_reports_newness_and_dedups() {
    let mut s = TreapSet::new();
    assert_eq!(s.len(), 0);
    assert!(s.insert(5));
    assert!(s.insert(2));
    assert!(!s.insert(5));
    assert!(s.insert(9));
    assert_eq!(s.len(), 3);
    assert_eq!(keys_of(&s), vec![2, 5, 9]);
}

#[test]
fn set_membership_and_ranks() {
    let mut s = TreapSet::new();
    for k in [40u64, 10, 30, 20] {
        s.insert(k);
    }
    assert_eq!(s.get(30), Some(30));
    assert_eq!(s.get(35), None);
    assert_eq!(s.num_lt(30), 2);
    assert_eq!(s.num_le(30), 3);
    assert_eq!(s.nth(0), Some(10));
    assert_eq!(s.nth(3), Some(40));
    assert_eq!(s.nth(4), None);
    assert_eq!(s.min(), Some(10));
    assert_eq!(s.max(), Some(40));
}

#[test]
fn set_min_max_empty() {
    let s = TreapSet::new();
    assert_eq!(s.min(), None);
    assert_eq!(s.max(), None);
    assert_eq!(s.nth(0), None);
    assert_eq!(s.get(1), None);
}

#[test]
fn set_split_and_merge() {
    let mut s = TreapSet::new();
    for k in 1u64..=6 {
        s.insert(k);
    }
    let (l, r) = s.split(4);
    assert_eq!(keys_of(&l), vec![1, 2, 3]);
    assert_eq!(keys_of(&r), vec![4, 5, 6]);
    let back = TreapSet::merge(l, r);
    assert_eq!(keys_of(&back), vec![1, 2, 3, 4, 5, 6]);

    let (a, b) = back.split_n(2);
    assert_eq!(keys_of(&a), vec![1, 2]);
    assert_eq!(keys_of(&b), vec![3, 4, 5, 6]);
}

#[test]
fn set_bulk_builders() {
    let s = TreapSet::from_unique_sorted_iter(vec![1u64, 3, 5, 7]);
    assert_eq!(keys_of(&s), vec![1, 3, 5, 7]);

    let s = TreapSet::from_sorted_iter(vec![1u64, 1, 2, 2, 2, 3]);
    assert_eq!(keys_of(&s), vec![1, 2, 3]);

    let s = TreapSet::from_unique_sorted_iter(Vec::new());
    assert_eq!(s.len(), 0);
}
