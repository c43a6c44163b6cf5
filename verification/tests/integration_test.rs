use btree::BTree;

#[test]
fn test_empty_btree() {
    let tree: BTree = BTree::default();
    assert_eq!(tree.count(), 0);
}

#[test]
fn test_tree_count() {
    let mut tree: BTree = BTree::default();
    tree.bulk_insert(vec![1, 2, 3, 4]);
    assert_eq!(tree.count(), 4);
}

#[test]
fn test_inserting_element() {
    let mut btree: BTree = BTree::default();
    btree.insert(1);
    assert_eq!(btree.count(), 1);
}

#[test]
fn test_inserting_multiple_elements() {
    let mut btree: BTree = BTree::default();
    btree.bulk_insert(vec![1, 2, 3, 4, 5]);
    assert_eq!(btree.count(), 5);
}

#[test]
fn test_removing_element() {
    let mut btree: BTree = BTree::default();
    btree.bulk_insert(vec![1, 2, 3, 4, 5]);
    assert_eq!(btree.count(), 5);
    btree.remove(5);
    assert_eq!(btree.count(), 4);
}

#[test]
fn test_removing_multiple_elements() {
    let mut btree: BTree = BTree::default();
    btree.bulk_insert(vec![1, 2, 3, 4, 5]);
    assert_eq!(btree.count(), 5);
    btree.bulk_remove(vec![2, 3, 4]);
    assert_eq!(btree.count(), 2);
}

#[test]
fn test_contains() {
    let mut btree: BTree = BTree::default();
    btree.bulk_insert(vec![1, 2, 3, 4, 5]);
    assert!(btree.contains(3));
    btree.remove(3);
    assert!(!btree.contains(3));
}

#[test]
fn test_membership_after_mutation() {
    let mut btree: BTree = BTree::default();
    btree.bulk_insert(vec![1, 2, 3, 4, 5]);
    assert!(btree.contains(3));
    btree.remove(3);
    assert!(!btree.contains(3));
    assert_eq!(btree.count(), 4);
}

#[test]
fn test_removing_missing_value_is_noop() {
    let mut btree: BTree = BTree::default();
    btree.bulk_insert(vec![1, 2, 3]);
    btree.remove(7);
    assert_eq!(btree.count(), 3);
    assert!(btree.contains(1));
    assert!(btree.contains(2));
    assert!(btree.contains(3));
    assert!(!btree.contains(7));
}

#[test]
fn test_insert_order_independent_content() {
    let mut first: BTree = BTree::default();
    first.bulk_insert(vec![1, 2, 3, 4, 5, 6]);
    let mut second: BTree = BTree::default();
    second.bulk_insert(vec![1, 2, 3, 4, 5, 6]);
    second.bulk_insert(vec![]);
    let mut third: BTree = BTree::default();
    third.bulk_insert(vec![1, 2, 3, 4]);
    third.bulk_insert(vec![5, 6]);
    assert_eq!(first.count(), 6);
    assert_eq!(second.count(), 6);
    assert_eq!(third.count(), 6);
    for v in 1..=6 {
        assert!(first.contains(v));
        assert!(second.contains(v));
        assert!(third.contains(v));
    }
}

#[test]
fn test_duplicate_keys_are_counted() {
    let mut btree: BTree = BTree::default();
    btree.bulk_insert(vec![2, 2, 2]);
    assert_eq!(btree.count(), 3);
    btree.remove(2);
    assert_eq!(btree.count(), 2);
    assert!(btree.contains(2));
}

#[test]
fn test_largest_key() {
    let mut btree: BTree = BTree::default();
    btree.insert(u32::MAX);
    assert!(btree.contains(u32::MAX));
    assert_eq!(btree.count(), 1);
}

#[test]
fn test_underflow_rebuild_keeps_remaining_keys() {
    let mut btree: BTree = BTree::default();
    btree.bulk_insert(vec![1, 2, 3, 4, 5]);
    btree.remove(5);
    assert_eq!(btree.count(), 4);
    for v in 1..=4 {
        assert!(btree.contains(v));
    }
    assert!(!btree.contains(5));
}
