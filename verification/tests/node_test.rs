use btree::Node;

#[test]
fn test_maximum_keys_per_node() {
    let node = Node {
        max_keys: 4,
        ..Node::default()
    };
    assert_eq!(node.max_keys, 4);
}

#[test]
fn test_minimum_keys_per_node() {
    let node = Node {
        max_keys: 4,
        ..Node::default()
    };
    assert_eq!(node.min_keys(), 2);
}

#[test]
fn test_insert() {
    let node = Node::default();
    assert_eq!(node.keys.len(), 0);
    if let Some(updated_node) = Node::insert(5, node) {
        assert_eq!(updated_node.keys.len(), 1);
        assert_eq!(*updated_node.keys.first().unwrap(), 5);
    }
}

#[test]
fn test_multiple_inserts() {
    let mut node = Node::default();
    assert_eq!(node.keys.len(), 0);
    node = Node::insert(1, node.clone()).unwrap_or_default();
    node = Node::insert(2, node.clone()).unwrap_or_default();
    node = Node::insert(3, node.clone()).unwrap_or_default();
    node = Node::insert(4, node.clone()).unwrap_or_default();
    node = Node::insert(5, node.clone()).unwrap_or_default();
    assert_eq!(Node::count(node), 5);
}

#[test]
fn test_insert_into_child_node() {
    let child_1 = Node::new(vec![4, 5, 6]);
    let child_2 = Node::new(vec![7, 8, 9]);
    let node = Node {
        max_keys: 4,
        keys: vec![1, 2, 3],
        children: vec![child_1, child_2],
    };
    if let Some(inserted_node) = Node::insert(10, node) {
        assert_eq!(inserted_node.keys, vec![1, 2, 3]);
        assert_eq!(inserted_node.children.len(), 2);
        if let Some(child_1) = inserted_node.children.first() {
            assert_eq!(child_1.keys, vec![4, 5, 6]);
        }
        if let Some(last_child) = inserted_node.children.last() {
            assert_eq!(last_child.keys, vec![7, 8, 9, 10]);
        }
    }
}

#[test]
fn test_splitting_leaf_nodes() {
    let node = Node {
        max_keys: 4,
        keys: vec![1, 2, 3, 4],
        children: vec![],
    };
    if let Some(new_parent_node) = Node::insert(5, node) {
        assert_eq!(new_parent_node.children.len(), 2);
        assert_eq!(new_parent_node.keys, vec![3]);
        if let Some(last_child) = new_parent_node.children.last() {
            assert_eq!(last_child.keys, vec![4, 5]);
        } else {
            panic!("Expected to find a child in the new parent node.")
        }
    }
}

#[test]
fn test_count() {
    let mut node = Node {
        keys: vec![1, 2, 3],
        ..Default::default()
    };
    assert_eq!(Node::count(node.clone()), 3);
    node = Node::insert(4, node.clone()).unwrap();
    assert_eq!(Node::count(node.clone()), 4);
    let child_node_1 = Node {
        keys: vec![5, 6, 7],
        ..Default::default()
    };
    let child_node_2 = Node {
        keys: vec![8, 9, 10],
        ..Default::default()
    };
    node.children = vec![child_node_1, child_node_2];
    assert_eq!(Node::count(node), 10);
}

#[test]
fn node_test_removing() {
    let node = Node {
        keys: vec![1, 2, 3, 4],
        ..Default::default()
    };
    if let Some(new_node) = Node::remove(4, node) {
        assert_eq!(new_node.keys, vec![1, 2, 3]);
    }
}

#[test]
fn test_remove_from_children() {
    let child_1 = Node {
        keys: vec![0, 1, 2],
        ..Default::default()
    };
    let child_2 = Node {
        keys: vec![4, 5, 6],
        ..Default::default()
    };
    let node = Node {
        keys: vec![3],
        children: vec![child_1, child_2],
        ..Default::default()
    };
    if let Some(new_node) = Node::remove(4, node) {
        let last_child = new_node.children.last().unwrap();
        assert_eq!(last_child.keys, vec![5, 6]);
    } else {
        panic!("Could not remove element");
    }
}

#[test]
fn test_removing_missing_value() {
    let node = Node {
        keys: vec![1, 2, 3, 4],
        ..Default::default()
    };
    let result = Node::remove(5, node);
    assert!(result.is_none());
}

#[test]
fn test_removing_when_node_is_unbalanced() {
    let child_1 = Node {
        keys: vec![1, 2],
        ..Default::default()
    };
    let child_2 = Node {
        keys: vec![4, 5],
        ..Default::default()
    };
    let node = Node {
        keys: vec![3],
        children: vec![child_1, child_2],
        ..Default::default()
    };
    if let Some(result) = Node::remove(4, node) {
        assert_eq!(result.keys, vec![1, 2, 3, 5]);
        assert_eq!(result.children.len(), 0);
    } else {
        panic!("Error removing value")
    }
}

#[test]
fn test_split_partitions_sorted_keys() {
    let node = Node::new(vec![1, 2, 3, 4]);
    let parent = Node::insert(5, node).unwrap();
    assert_eq!(parent.keys, vec![3]);
    assert_eq!(parent.children.len(), 2);
    assert_eq!(parent.children[0].keys, vec![1, 2]);
    assert_eq!(parent.children[1].keys, vec![4, 5]);
}

#[test]
fn test_contains_searches_whole_subtree() {
    let child_1 = Node::new(vec![1, 2]);
    let child_2 = Node::new(vec![4, 5]);
    let node = Node {
        keys: vec![3],
        children: vec![child_1, child_2],
        ..Default::default()
    };
    assert!(Node::contains(3, &node));
    assert!(Node::contains(1, &node));
    assert!(Node::contains(5, &node));
    assert!(!Node::contains(6, &node));
}

#[test]
fn test_insert_unsorted_order_into_leaf() {
    let mut node = Node::default();
    node = Node::insert(9, node).unwrap();
    node = Node::insert(9, node).unwrap();
    node = Node::insert(12, node).unwrap();
    assert_eq!(node.keys, vec![9, 9, 12]);
    assert_eq!(Node::count(node), 3);
}
