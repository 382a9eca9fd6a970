// Exercises the augmented interval tree end to end: construction, insertion
// with augmentation maintenance, the pruning stabbing query, and the height
// probe. Times of day are written as seconds since midnight.

use aug_tree::{height, search, AugTree, AugTreeNode};

const T_00_00_00: u64 = 0;
const T_23_59_59: u64 = 23 * 3600 + 59 * 60 + 59;
const T_10_00_00: u64 = 10 * 3600;
const T_10_30_00: u64 = 10 * 3600 + 30 * 60;
const T_11_00_00: u64 = 11 * 3600;
const T_12_00_00: u64 = 12 * 3600;
const T_13_00_00: u64 = 13 * 3600;
const T_13_30_00: u64 = 13 * 3600 + 30 * 60;
const T_14_00_00: u64 = 14 * 3600;
const T_15_00_00: u64 = 15 * 3600;

#[test]
fn initialization() {
    let node = AugTree::new(T_00_00_00, T_23_59_59);
    assert_eq!(node.left, AugTreeNode::Absent);
    assert_eq!(node.right, AugTreeNode::Absent);

    assert_eq!(node.range().0, T_00_00_00);
    assert_eq!(node.range().1, T_23_59_59);
    assert_eq!(node.highest, T_23_59_59);
    assert_eq!(height(&AugTreeNode::from(node)), 1);
}

#[test]
fn add_node() {
    let mut node1 = AugTree::new(T_12_00_00, T_15_00_00);
    let node2 = AugTree::new(T_10_00_00, T_11_00_00);
    node1.add(node2);

    assert_ne!(node1.left, AugTreeNode::Absent);
    assert_eq!(node1.right, AugTreeNode::Absent);
    assert_eq!(node1.highest, T_15_00_00);

    let node3 = AugTree::new(T_13_00_00, T_14_00_00);
    node1.add(node3);

    assert_ne!(node1.left, AugTreeNode::Absent);
    assert_ne!(node1.right, AugTreeNode::Absent);
    assert_eq!(node1.highest, T_15_00_00);
    assert_eq!(height(&AugTreeNode::from(node1)), 2);
}

#[test]
fn search_node_right() {
    let mut node1 = AugTree::new(T_12_00_00, T_15_00_00);
    let node2 = AugTree::new(T_10_00_00, T_11_00_00);
    let node3 = AugTree::new(T_13_00_00, T_14_00_00);

    node1.add(node2);
    node1.add(node3);

    let mut result: Vec<(u64, u64)> = vec![];
    let root = AugTreeNode::from(node1);
    search(&root, &T_13_30_00, &mut result);

    assert_eq!(result.is_empty(), false);
    assert!(result.contains(&(T_13_00_00, T_14_00_00)));
    assert_eq!(height(&root), 2);
}

#[test]
fn search_node_left() {
    let mut node1 = AugTree::new(T_12_00_00, T_15_00_00);
    let node2 = AugTree::new(T_10_00_00, T_11_00_00);
    let node3 = AugTree::new(T_13_00_00, T_14_00_00);

    node1.add(node2);
    node1.add(node3);

    let mut result: Vec<(u64, u64)> = vec![];
    let root = AugTreeNode::from(node1);
    search(&root, &T_10_30_00, &mut result);

    assert_eq!(result.is_empty(), false);
    assert!(result.contains(&(T_10_00_00, T_11_00_00)));
    assert_eq!(height(&root), 2);
}

#[test]
fn height_test() {
    let mut node1 = AugTree::new(T_12_00_00, T_13_00_00);
    let node2 = AugTree::new(T_13_00_00, T_14_00_00);
    let node3 = AugTree::new(T_14_00_00, T_15_00_00);

    node1.add(node2);
    node1.add(node3);

    assert_eq!(node1.highest, T_15_00_00);
    assert_eq!(height(&AugTreeNode::from(node1)), 3);
}

#[test]
fn init() {
    let mut node0 = AugTree::new(5, 15);
    let node1 = AugTree::new(10, 20);
    let node2 = AugTree::new(2, 3);
    let node3 = AugTree::new(1, 3);

    node0.add(node1);
    node0.add(node2);
    node0.add(node3);

    let root = AugTreeNode::from(node0);
    match &root {
        AugTreeNode::Node(n) => assert_eq!(n.highest, 20),
        AugTreeNode::Absent => panic!("root is present"),
    }
    assert_eq!(height(&root), 3);

    let mut intervals = vec![];
    search(&root, &2, &mut intervals);
    assert_eq!(intervals, vec![(1, 3), (2, 3)])
}

#[test]
fn empty_query() {
    let mut result: Vec<(u64, u64)> = vec![];
    search(&AugTreeNode::Absent, &5, &mut result);
    assert!(result.is_empty());
}

#[test]
fn repeated_query_is_identical() {
    let mut root = AugTree::new(5, 15);
    root.add(AugTree::new(10, 20));
    root.add(AugTree::new(2, 3));
    let tree = AugTreeNode::from(root);

    let mut first: Vec<(u64, u64)> = vec![];
    search(&tree, &10, &mut first);
    let mut second: Vec<(u64, u64)> = vec![];
    search(&tree, &10, &mut second);

    assert_eq!(first, vec![(5, 15), (10, 20)]);
    assert_eq!(first, second);
}

#[test]
fn left_insert_raises_highest() {
    let mut root = AugTree::new(10, 11);
    root.add(AugTree::new(5, 100));

    assert_eq!(root.highest, 100);

    let tree = AugTreeNode::from(root);
    let mut result: Vec<(u64, u64)> = vec![];
    search(&tree, &50, &mut result);
    assert_eq!(result, vec![(5, 100)]);
}

#[test]
fn ordering_of_children() {
    let mut root = AugTree::new(12, 15);
    root.add(AugTree::new(10, 11));
    root.add(AugTree::new(13, 14));

    match &root.left {
        AugTreeNode::Node(l) => assert_eq!(l.range(), (10, 11)),
        AugTreeNode::Absent => panic!("left child is present"),
    }
    match &root.right {
        AugTreeNode::Node(r) => assert_eq!(r.range(), (13, 14)),
        AugTreeNode::Absent => panic!("right child is present"),
    }
}

#[test]
fn tie_on_start_goes_right() {
    let mut root = AugTree::new(5, 6);
    root.add(AugTree::new(5, 7));

    assert_eq!(root.left, AugTreeNode::Absent);
    match &root.right {
        AugTreeNode::Node(r) => assert_eq!(r.range(), (5, 7)),
        AugTreeNode::Absent => panic!("right child is present"),
    }
    assert_eq!(root.highest, 7);
}

#[test]
fn inverted_interval_never_matches() {
    let root = AugTreeNode::from(AugTree::new(10, 5));
    let mut result: Vec<(u64, u64)> = vec![];
    search(&root, &7, &mut result);
    assert!(result.is_empty());
}

#[test]
fn query_point_outside_everything() {
    let mut root = AugTree::new(5, 15);
    root.add(AugTree::new(10, 20));
    let tree = AugTreeNode::from(root);

    let mut result: Vec<(u64, u64)> = vec![];
    search(&tree, &25, &mut result);
    assert!(result.is_empty());
}
