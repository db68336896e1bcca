use data_structs::binary_tree::BinaryTree;
use data_structs::binary_tree::Direction;
use data_structs::binary_tree::Node;
use data_structs::binary_tree::TreeError;

#[test]
fn test_tree_insert() {
    let mut bt = BinaryTree::new();

    bt.insert(5).unwrap();
    bt.insert(8).unwrap();
    bt.insert(3).unwrap();
    bt.insert(2).unwrap();
    bt.insert(4).unwrap();

    println!("{:?}", bt);
}

#[test]
fn test_tree_find() {
    let mut bt = BinaryTree::new();

    bt.insert(5).unwrap();
    bt.insert(8).unwrap();
    bt.insert(3).unwrap();

    let d = bt.search(3);
    let d = d.unwrap();

    assert_eq!(d, 3);
}

#[test]
fn test_tree_rm() {
    let mut a = BinaryTree::new();

    a.insert(1).unwrap();
    a.insert(2).unwrap();
    a.insert(3).unwrap();

    assert_eq!(a.len(), 3);

    a.remove(2);
    println!("{:?}", a);
}

#[test]
fn test_tree_depth() {
    let mut a = BinaryTree::new();

    a.insert(2).unwrap();
    a.insert(1).unwrap();
    a.insert(3).unwrap();
    a.insert(4).unwrap();
    a.insert(5).unwrap();

    assert_eq!(a.depth(), 3);
}

#[test]
fn test_binary_print_lvl() {
    let mut a = BinaryTree::new();

    a.insert(2).unwrap();
    a.insert(1).unwrap();
    a.insert(3).unwrap();

    let lines = a.layout(10);

    println!("{:?}", lines);
}

// The in-order traversal of whatever was inserted, in whatever order, comes
// out strictly ascending.
#[test]
fn in_order_is_ascending() {
    let mut t = BinaryTree::new();
    for k in [5u64, 2, 8, 1, 3, 7, 9] {
        t.insert(k).unwrap();
    }
    assert_eq!(t.in_order_vec(), vec![1, 2, 3, 5, 7, 8, 9]);
}

// A key just inserted is found again, before any removal of it.
#[test]
fn insert_search_round_trip() {
    let mut t = BinaryTree::new();
    for k in [42u64, 7, 100, 0, u64::MAX] {
        t.insert(k).unwrap();
        assert_eq!(t.search(k), Some(k));
    }
    for k in [42u64, 7, 100, 0, u64::MAX] {
        assert_eq!(t.search(k), Some(k));
    }
}

// len() equals successful inserts minus successful removes, at every point.
#[test]
fn len_tracks_history() {
    let mut t = BinaryTree::new();
    assert_eq!(t.len(), 0);
    t.insert(4).unwrap();
    assert_eq!(t.len(), 1);
    t.insert(2).unwrap();
    t.insert(6).unwrap();
    assert_eq!(t.len(), 3);
    assert_eq!(t.insert(4), Err(TreeError::DuplicateKey));
    assert_eq!(t.len(), 3);
    assert_eq!(t.remove(2), Some(2));
    assert_eq!(t.len(), 2);
    assert_eq!(t.remove(2), None);
    assert_eq!(t.len(), 2);
}

// After remove(k) succeeds, search(k) is None and the order still holds.
#[test]
fn remove_completeness() {
    let mut t = BinaryTree::new();
    for k in [50u64, 30, 70, 20, 40, 60, 80] {
        t.insert(k).unwrap();
    }
    assert_eq!(t.remove(30), Some(30));
    assert_eq!(t.search(30), None);
    assert_eq!(t.in_order_vec(), vec![20, 40, 50, 60, 70, 80]);
}

// Removing a node with two children promotes its in-order successor: after
// removing the root 5, the root holds 7 (the successor) and the in-order
// sequence is intact.
#[test]
fn two_child_removal_promotes_successor() {
    let mut t = BinaryTree::new();
    for k in [5u64, 2, 8, 1, 3, 7, 9] {
        t.insert(k).unwrap();
    }
    assert_eq!(t.remove(5), Some(5));
    assert_eq!(t.in_order_vec(), vec![1, 2, 3, 7, 8, 9]);
    let lines = t.layout(10);
    assert_eq!(lines[0], vec![(7, 10)]);
}

// Searching, however often, moves nothing: length and shape stay put.
#[test]
fn search_is_idempotent() {
    let mut t = BinaryTree::new();
    for k in [2u64, 1, 3] {
        t.insert(k).unwrap();
    }
    let before_order = t.in_order_vec();
    let before_layout = t.layout(10);
    for _ in 0..3 {
        assert_eq!(t.search(2), Some(2));
        assert_eq!(t.search(9), None);
        assert_eq!(t.len(), 3);
    }
    assert_eq!(t.in_order_vec(), before_order);
    assert_eq!(t.layout(10), before_layout);
}

// Empty tree: search and remove answer None, depth is 0 (the documented
// policy), the layout has no lines.
#[test]
fn empty_tree_behaviour() {
    let mut t = BinaryTree::new();
    assert_eq!(t.search(1), None);
    assert_eq!(t.remove(1), None);
    assert_eq!(t.depth(), 0);
    assert_eq!(t.len(), 0);
    assert!(t.layout(10).is_empty());
}

#[test]
fn single_node_depth_is_zero() {
    let mut t = BinaryTree::new();
    t.insert(11).unwrap();
    assert_eq!(t.depth(), 0);
}

#[test]
fn duplicate_insert_is_refused_and_harmless() {
    let mut t = BinaryTree::new();
    t.insert(5).unwrap();
    t.insert(2).unwrap();
    assert_eq!(t.insert(5), Err(TreeError::DuplicateKey));
    assert_eq!(t.in_order_vec(), vec![2, 5]);
    assert_eq!(t.len(), 2);
}

#[test]
fn rebalance_is_unsupported() {
    assert_eq!(BinaryTree::rebalance(), Err(TreeError::Unsupported));
}

// Each child sits a fixed spacing left or right of its parent; a left child
// whose parent is close to column zero is clamped at zero.
#[test]
fn layout_offsets() {
    let mut t = BinaryTree::new();
    t.insert(2).unwrap();
    t.insert(1).unwrap();
    t.insert(3).unwrap();
    assert_eq!(t.layout(10), vec![vec![(2, 10)], vec![(1, 5), (3, 15)]]);

    let mut spine = BinaryTree::new();
    spine.insert(3).unwrap();
    spine.insert(2).unwrap();
    spine.insert(1).unwrap();
    assert_eq!(
        spine.layout(5),
        vec![vec![(3, 5)], vec![(2, 0)], vec![(1, 0)]]
    );
}

// The traversal helper reports where a key would go, and Equal on a hit.
#[test]
fn traverse_reports_anchor_and_direction() {
    let mut root = Node::new(5);
    root.left = Some(Box::new(Node::new(2)));
    root.right = Some(Box::new(Node::new(8)));
    assert_eq!(BinaryTree::traverse(5, &root), (5, Direction::Equal));
    assert_eq!(BinaryTree::traverse(1, &root), (2, Direction::Left));
    assert_eq!(BinaryTree::traverse(3, &root), (2, Direction::Right));
    assert_eq!(BinaryTree::traverse(9, &root), (8, Direction::Right));
}
