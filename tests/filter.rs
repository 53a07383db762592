use opl_filter::Filter;

#[test]
fn test_detect_nonmonotonic() {
    let f = Filter {
        list: vec![1, 2, 3, 5, 4],
    };
    assert!(!f.maintains_invariants());
}

#[test]
fn test_union_basic() {
    let f1 = Filter {
        list: vec![1, 2, 3],
    };
    assert_eq!(f1.union(&f1), f1);

    let f1 = Filter {
        list: vec![0, 2, 6],
    };
    let f2 = Filter {
        list: vec![1, 2, 7],
    };
    let expected = Filter {
        list: vec![0, 1, 2, 6, 7],
    };
    assert_eq!(f1.union(&f2), expected);
    assert_eq!(f2.union(&f1), expected);
}

#[test]
fn test_union_empty() {
    let empty = Filter { list: vec![] };
    assert_eq!(empty.union(&empty), empty);

    let f2 = Filter {
        list: vec![1, 2, 3],
    };
    assert_eq!(empty.union(&f2), f2);
    assert_eq!(f2.union(&empty), f2);
}

#[test]
fn test_intersect_basic() {
    let f1 = Filter {
        list: vec![1, 2, 3],
    };
    assert_eq!(f1.intersect(&f1), f1);

    let f1 = Filter {
        list: vec![0, 2, 4, 6, 8],
    };
    let f2 = Filter {
        list: vec![0, 3, 4, 8, 10, 12],
    };
    let expected = Filter {
        list: vec![0, 4, 8],
    };
    assert_eq!(f1.intersect(&f2), expected);
    assert_eq!(f2.intersect(&f1), expected);
}

#[test]
fn test_intersect_empty() {
    let empty = Filter { list: vec![] };
    assert_eq!(empty.intersect(&empty), empty);

    let f2 = Filter {
        list: vec![1, 2, 3],
    };
    assert_eq!(empty.intersect(&f2), empty);
    assert_eq!(f2.intersect(&empty), empty);
}

#[test]
fn invariant_holds_for_increasing_lists() {
    assert!(Filter { list: vec![] }.maintains_invariants());
    assert!(Filter { list: vec![7] }.maintains_invariants());
    assert!(Filter { list: vec![0, 1, 5, 9] }.maintains_invariants());
    assert!(!Filter { list: vec![2, 2] }.maintains_invariants());
}

#[test]
fn union_and_intersect_keep_the_invariant() {
    let a = Filter { list: vec![1, 4, 9, 16, 25] };
    let b = Filter { list: vec![0, 4, 8, 16, 32, 64] };
    let u = a.union(&b);
    let i = a.intersect(&b);
    assert!(u.maintains_invariants());
    assert!(i.maintains_invariants());
    assert_eq!(u.list, vec![0, 1, 4, 8, 9, 16, 25, 32, 64]);
    assert_eq!(i.list, vec![4, 16]);
    assert_eq!(b.union(&a), u);
    assert_eq!(b.intersect(&a), i);
}

#[test]
fn union_with_disjoint_tail() {
    let a = Filter { list: vec![1, 2] };
    let b = Filter { list: vec![3, 4, u32::MAX] };
    assert_eq!(a.union(&b).list, vec![1, 2, 3, 4, u32::MAX]);
    assert_eq!(a.intersect(&b).list, Vec::<u32>::new());
}

#[test]
fn size_bytes_counts_reserved_storage() {
    let f = Filter { list: Vec::with_capacity(10) };
    let base = Filter::footprint(0);
    assert_eq!(base, std::mem::size_of::<Filter>());
    assert_eq!(Filter::footprint(10), base + 40);
    assert!(f.size_bytes() >= base + 40);
    assert_eq!((f.size_bytes() - base) % 4, 0);
}
