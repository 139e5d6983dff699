use seg_tree::seg_tree::SegTree;
use seg_tree::seg_tree::SegTreeError;
use seg_tree::sum::AtMost;
use seg_tree::sum::SaturatingSum;

#[test]
fn build_fold_consistency() {
    let items: Vec<u64> = vec![1, 2, 3, 4, 5];
    let t = SegTree::<SaturatingSum>::from_slice(&items).unwrap();
    assert_eq!(t.len(), 5);
    assert_eq!(t.prod(), 15);
    assert_eq!(*t.prod_ref(), 15);
    assert_eq!(t.prod_range(0, 5), Ok(15));
}

#[test]
fn get_reads_back_elements() {
    let items: Vec<u64> = vec![9, 8, 7, 6];
    let t = SegTree::<SaturatingSum>::from_slice(&items).unwrap();
    assert_eq!(t.get(0), Ok(9));
    assert_eq!(t.get(1), Ok(8));
    assert_eq!(t.get(2), Ok(7));
    assert_eq!(t.get(3), Ok(6));
}

#[test]
fn get_set_round_trip() {
    let items: Vec<u64> = vec![1, 2, 3, 4, 5];
    let mut t = SegTree::<SaturatingSum>::from_slice(&items).unwrap();
    assert_eq!(t.set(2, 10), Ok(()));
    assert_eq!(t.get(2), Ok(10));
    // ranges excluding index 2 are unchanged
    assert_eq!(t.prod_range(0, 2), Ok(3));
    assert_eq!(t.prod_range(3, 5), Ok(9));
    // ranges containing index 2 reflect the new value
    assert_eq!(t.prod_range(2, 5), Ok(19));
    assert_eq!(t.prod_range(0, 5), Ok(22));
}

#[test]
fn range_decomposition() {
    let items: Vec<u64> = vec![1, 2, 3, 4, 5];
    let t = SegTree::<SaturatingSum>::from_slice(&items).unwrap();
    for a in 0..6usize {
        for b in a..6usize {
            for c in b..6usize {
                let whole = t.prod_range(a, c).unwrap();
                let left = t.prod_range(a, b).unwrap();
                let right = t.prod_range(b, c).unwrap();
                assert_eq!(whole, left + right);
            }
        }
    }
}

#[test]
fn empty_range_identity() {
    let items: Vec<u64> = vec![4, 3, 2, 1];
    let t = SegTree::<SaturatingSum>::from_slice(&items).unwrap();
    for k in 0..5usize {
        assert_eq!(t.prod_range(k, k), Ok(0));
    }
}

#[test]
fn concrete_scenario() {
    let items: Vec<u64> = vec![1, 2, 3, 4, 5];
    let mut t = SegTree::<SaturatingSum>::from_slice(&items).unwrap();
    assert_eq!(t.prod_range(1, 4), Ok(9));
    assert_eq!(t.max_end(0, &AtMost { limit: 6 }), Ok(3));
    assert_eq!(t.set(2, 10), Ok(()));
    assert_eq!(t.prod_range(0, 5), Ok(22));
}

#[test]
fn max_end_boundaries() {
    let items: Vec<u64> = vec![1, 2, 3, 4, 5];
    let t = SegTree::<SaturatingSum>::from_slice(&items).unwrap();
    // the whole remaining range satisfies the predicate
    assert_eq!(t.max_end(0, &AtMost { limit: 100 }), Ok(5));
    // the very first element already fails
    assert_eq!(t.max_end(0, &AtMost { limit: 0 }), Ok(0));
    // 3 + 4 = 7 passes, 3 + 4 + 5 = 12 fails
    assert_eq!(t.max_end(2, &AtMost { limit: 7 }), Ok(4));
    // an empty tail: only the empty range remains
    assert_eq!(t.max_end(5, &AtMost { limit: 0 }), Ok(5));
}

#[test]
fn min_start_boundaries() {
    let items: Vec<u64> = vec![1, 2, 3, 4, 5];
    let t = SegTree::<SaturatingSum>::from_slice(&items).unwrap();
    // 4 + 5 = 9 passes, 3 + 4 + 5 = 12 fails
    assert_eq!(t.min_start(5, &AtMost { limit: 9 }), Ok(3));
    // the whole prefix satisfies the predicate
    assert_eq!(t.min_start(5, &AtMost { limit: 100 }), Ok(0));
    // even the last element alone fails
    assert_eq!(t.min_start(5, &AtMost { limit: 0 }), Ok(5));
    // an empty prefix: only the empty range remains
    assert_eq!(t.min_start(0, &AtMost { limit: 0 }), Ok(0));
}

#[test]
fn min_start_straddles_children() {
    // the accepted suffix ends strictly inside the right subtree
    let items: Vec<u64> = vec![1, 2, 3, 4];
    let t = SegTree::<SaturatingSum>::from_slice(&items).unwrap();
    assert_eq!(t.min_start(4, &AtMost { limit: 3 }), Ok(4));
    assert_eq!(t.min_start(4, &AtMost { limit: 4 }), Ok(3));
    assert_eq!(t.min_start(4, &AtMost { limit: 8 }), Ok(2));
    assert_eq!(t.min_start(4, &AtMost { limit: 9 }), Ok(1));
    assert_eq!(t.min_start(4, &AtMost { limit: 10 }), Ok(0));
}

#[test]
fn max_end_straddles_children() {
    let items: Vec<u64> = vec![1, 2, 3, 4];
    let t = SegTree::<SaturatingSum>::from_slice(&items).unwrap();
    assert_eq!(t.max_end(0, &AtMost { limit: 1 }), Ok(1));
    assert_eq!(t.max_end(0, &AtMost { limit: 2 }), Ok(1));
    assert_eq!(t.max_end(0, &AtMost { limit: 3 }), Ok(2));
    assert_eq!(t.max_end(0, &AtMost { limit: 6 }), Ok(3));
    assert_eq!(t.max_end(0, &AtMost { limit: 10 }), Ok(4));
}

#[test]
fn error_cases() {
    let items: Vec<u64> = vec![1, 2, 3, 4, 5];
    let mut t = SegTree::<SaturatingSum>::from_slice(&items).unwrap();
    assert_eq!(t.get(5), Err(SegTreeError::IndexOutOfBounds));
    assert_eq!(t.prod_range(3, 2), Err(SegTreeError::InvalidRange));
    assert_eq!(t.prod_range(0, 6), Err(SegTreeError::InvalidRange));
    assert_eq!(t.set(5, 1), Err(SegTreeError::IndexOutOfBounds));
    assert_eq!(t.max_end(6, &AtMost { limit: 0 }), Err(SegTreeError::InvalidRange));
    assert_eq!(t.min_start(6, &AtMost { limit: 0 }), Err(SegTreeError::InvalidRange));
    // the failed set left the tree untouched
    assert_eq!(t.prod_range(0, 5), Ok(15));

    let empty: Vec<u64> = vec![];
    assert_eq!(
        SegTree::<SaturatingSum>::from_slice(&empty).err(),
        Some(SegTreeError::InvalidSize)
    );
    assert_eq!(SegTree::<SaturatingSum>::new(0).err(), Some(SegTreeError::InvalidSize));
}

#[test]
fn new_holds_identities() {
    let mut t = SegTree::<SaturatingSum>::new(4).unwrap();
    assert_eq!(t.len(), 4);
    for i in 0..4usize {
        assert_eq!(t.get(i), Ok(0));
    }
    assert_eq!(t.prod(), 0);
    assert_eq!(t.set(3, 11), Ok(()));
    assert_eq!(t.prod_range(1, 4), Ok(11));
}

#[test]
fn single_leaf() {
    let items: Vec<u64> = vec![7];
    let t = SegTree::<SaturatingSum>::from_slice(&items).unwrap();
    assert_eq!(t.len(), 1);
    assert_eq!(t.prod(), 7);
    assert_eq!(t.get(0), Ok(7));
    assert_eq!(t.max_end(0, &AtMost { limit: 7 }), Ok(1));
    assert_eq!(t.max_end(0, &AtMost { limit: 6 }), Ok(0));
    assert_eq!(t.min_start(1, &AtMost { limit: 7 }), Ok(0));
    assert_eq!(t.min_start(1, &AtMost { limit: 6 }), Ok(1));
}

#[test]
fn sum_saturates_instead_of_overflowing() {
    let items: Vec<u64> = vec![u64::MAX, 5];
    let t = SegTree::<SaturatingSum>::from_slice(&items).unwrap();
    assert_eq!(t.prod(), u64::MAX);
    assert_eq!(t.prod_range(1, 2), Ok(5));
}
