use btree::BTree;
use btree::Nodeable;

#[derive(Clone, Debug)]
struct MockRootNode {
    insert_called: usize,
    remove_called: usize,
}

impl Default for MockRootNode {
    fn default() -> Self {
        MockRootNode {
            insert_called: 0,
            remove_called: 0,
        }
    }
}

impl Nodeable<MockRootNode> for MockRootNode {
    fn insert(_value: u32, into_node: MockRootNode) -> Option<MockRootNode> {
        let mut node = into_node.clone();
        node.insert_called += 1;
        Some(node)
    }

    fn count(_node: MockRootNode) -> usize {
        0
    }

    fn remove(_value: u32, from_node: MockRootNode) -> Option<MockRootNode> {
        let mut node = from_node.clone();
        node.remove_called += 1;
        Some(node)
    }

    fn contains(_value: u32, _in_node: &MockRootNode) -> bool {
        true
    }
}

#[test]
fn test_root_node_minimum_keys() {}

#[test]
fn test_number_of_leaf_nodes() {
    let mut btree: BTree = BTree::default();
    btree.insert(1);
    assert_eq!(btree.leaf_nodes().len(), 0);
}

#[test]
fn test_inserting() {
    let node = MockRootNode::default();
    let node = <MockRootNode as Nodeable<MockRootNode>>::insert(1, node).unwrap();
    assert_eq!(node.insert_called, 1);
}

#[test]
fn lib_test_removing() {
    let mut node = MockRootNode::default();
    for value in vec![1, 2, 3] {
        node = <MockRootNode as Nodeable<MockRootNode>>::insert(value, node).unwrap();
    }
    assert_eq!(node.insert_called, 3);
    let node = <MockRootNode as Nodeable<MockRootNode>>::remove(2, node).unwrap();
    assert_eq!(node.remove_called, 1);
}
