use binary_tree::tree::BinarySearchTree;

fn one_to_ten() -> BinarySearchTree {
    let mut t = BinarySearchTree::new();
    let arr: Vec<u64> = vec![1, 2, 3, 4, 5, 6, 7, 8, 9, 10];
    t.bst(&arr, 0, arr.len() - 1);
    t
}

#[test]
fn build_then_in_order() {
    let t = one_to_ten();
    assert_eq!(t.in_order(), vec![1, 2, 3, 4, 5, 6, 7, 8, 9, 10]);
}

#[test]
fn build_level_order_shape() {
    let t = one_to_ten();
    assert_eq!(t.level_order(), vec![5, 2, 8, 1, 3, 6, 9, 4, 7, 10]);
}

#[test]
fn delete_leaf_then_in_order() {
    let mut t = one_to_ten();
    t.delete(2);
    assert_eq!(t.in_order(), vec![1, 3, 4, 5, 6, 7, 8, 9, 10]);
}

#[test]
fn delete_and_insert_sequence() {
    let mut t = one_to_ten();
    t.delete(2);
    assert_eq!(t.in_order(), vec![1, 3, 4, 5, 6, 7, 8, 9, 10]);
    t.delete(4);
    assert_eq!(t.in_order(), vec![1, 3, 5, 6, 7, 8, 9, 10]);
    t.insert(11);
    assert_eq!(t.in_order(), vec![1, 3, 5, 6, 7, 8, 9, 10, 11]);
    t.delete(20);
    assert_eq!(t.in_order(), vec![1, 3, 5, 6, 7, 8, 9, 10, 11]);
}

#[test]
fn search_hit_and_miss() {
    let t = one_to_ten();
    let hit = t.find_value(8);
    assert!(hit.is_some());
    assert_eq!(hit.unwrap().element, 8);
    assert!(t.find_value(0).is_none());
    assert!(t.find_value(42).is_none());
}

#[test]
fn minimum_of_tree() {
    let t = one_to_ten();
    let min = t.minimum_node();
    assert!(min.is_some());
    assert_eq!(min.unwrap().element, 1);
    assert!(min.unwrap().left.is_none());
}

#[test]
fn minimum_of_empty_tree() {
    let t = BinarySearchTree::new();
    assert!(t.minimum_node().is_none());
    assert_eq!(t.in_order(), Vec::<u64>::new());
    assert_eq!(t.size(), 0);
}

#[test]
fn successor_in_the_middle() {
    let t = one_to_ten();
    let s = t.inorder_successor(5);
    assert!(s.is_some());
    assert_eq!(s.unwrap().element, 6);
}

#[test]
fn successor_of_every_non_maximum() {
    let t = one_to_ten();
    for v in 1..10u64 {
        assert_eq!(t.inorder_successor(v).unwrap().element, v + 1);
    }
}

#[test]
fn successor_of_maximum_is_none() {
    let t = one_to_ten();
    assert!(t.inorder_successor(10).is_none());
}

#[test]
fn successor_of_absent_value_is_none() {
    let t = one_to_ten();
    assert!(t.inorder_successor(42).is_none());
}

#[test]
fn successor_without_right_child() {
    // In the tree built from 1..=10 the node holding 4 is a leaf, so its
    // successor comes from the last left turn on the search path.
    let t = one_to_ten();
    assert_eq!(t.inorder_successor(4).unwrap().element, 5);
    assert_eq!(t.inorder_successor(7).unwrap().element, 8);
}

#[test]
fn insert_grows_size_by_one() {
    let mut t = one_to_ten();
    assert_eq!(t.size(), 10);
    t.insert(11);
    assert_eq!(t.size(), 11);
    t.insert(0);
    assert_eq!(t.size(), 12);
}

#[test]
fn delete_present_shrinks_size_by_one() {
    let mut t = one_to_ten();
    t.delete(7);
    assert_eq!(t.size(), 9);
}

#[test]
fn delete_absent_keeps_size() {
    let mut t = one_to_ten();
    t.delete(77);
    assert_eq!(t.size(), 10);
}

#[test]
fn delete_absent_keeps_shape() {
    let mut t = one_to_ten();
    let shape_before = t.level_order();
    t.delete(77);
    assert_eq!(t.level_order(), shape_before);
}

#[test]
fn insert_touches_only_one_slot() {
    // Inserting 11 into the tree built from 1..=10 attaches one leaf under
    // the node holding 10 and leaves every other level-order position as
    // it was.
    let mut t = one_to_ten();
    let shape_before = t.level_order();
    t.insert(11);
    let shape_after = t.level_order();
    assert_eq!(&shape_after[..shape_before.len()], &shape_before[..]);
    assert_eq!(*shape_after.last().unwrap(), 11);
}

#[test]
fn delete_two_child_node_promotes_right_minimum() {
    // The root of the tree built from 1..=10 holds 5 and has two children;
    // deleting 5 promotes 6, the minimum of its right subtree.
    let mut t = one_to_ten();
    t.delete(5);
    assert_eq!(t.in_order(), vec![1, 2, 3, 4, 6, 7, 8, 9, 10]);
    assert_eq!(t.find_value(6).unwrap().element, 6);
    assert_eq!(t.level_order()[0], 6);
}

#[test]
fn delete_root_repeatedly_until_empty() {
    let mut t = one_to_ten();
    for expected in 1..=10u64 {
        assert_eq!(t.minimum_node().unwrap().element, expected);
        t.delete(expected);
    }
    assert_eq!(t.size(), 0);
    assert!(t.minimum_node().is_none());
}

#[test]
fn insert_into_empty_tree_creates_root() {
    let mut t = BinarySearchTree::new();
    t.insert(9);
    assert_eq!(t.in_order(), vec![9]);
    assert_eq!(t.find_value(9).unwrap().element, 9);
}

#[test]
fn insert_then_search_round_trip() {
    let mut t = BinarySearchTree::new();
    for v in [13u64, 2, 99, 40, 7] {
        t.insert(v);
        let found = t.find_value(v);
        assert!(found.is_some());
        assert_eq!(found.unwrap().element, v);
    }
}

#[test]
fn duplicates_are_kept_and_deleted_one_at_a_time() {
    let mut t = BinarySearchTree::new();
    t.insert(5);
    t.insert(5);
    t.insert(3);
    assert_eq!(t.in_order(), vec![3, 5, 5]);
    t.delete(5);
    assert_eq!(t.in_order(), vec![3, 5]);
    t.delete(5);
    assert_eq!(t.in_order(), vec![3]);
    t.delete(5);
    assert_eq!(t.in_order(), vec![3]);
}

#[test]
fn build_sorts_defensively() {
    let t = BinarySearchTree::build(&vec![5, 3, 8, 1, 8]);
    assert_eq!(t.in_order(), vec![1, 3, 5, 8, 8]);
}

#[test]
fn build_of_empty_collection_is_empty_tree() {
    let t = BinarySearchTree::build(&Vec::new());
    assert_eq!(t.size(), 0);
    assert!(t.minimum_node().is_none());
}

#[test]
fn build_of_single_element() {
    let mut t = BinarySearchTree::new();
    t.bst(&vec![7], 0, 0);
    assert_eq!(t.in_order(), vec![7]);
    assert_eq!(t.level_order(), vec![7]);
}

#[test]
fn bst_builds_from_a_subrange() {
    let mut t = BinarySearchTree::new();
    let arr: Vec<u64> = vec![1, 2, 3, 4, 5, 6, 7, 8, 9, 10];
    t.bst(&arr, 2, 6);
    assert_eq!(t.in_order(), vec![3, 4, 5, 6, 7]);
}

#[test]
fn in_order_stays_sorted_under_mixed_operations() {
    let mut t = BinarySearchTree::build(&vec![20, 4, 15, 4, 9]);
    t.insert(12);
    t.delete(4);
    t.insert(1);
    t.delete(20);
    t.insert(9);
    let rendered = t.in_order();
    for w in rendered.windows(2) {
        assert!(w[0] <= w[1]);
    }
    assert_eq!(rendered, vec![1, 4, 9, 9, 12, 15]);
}

#[test]
fn level_order_after_mutation() {
    let mut t = one_to_ten();
    t.delete(2);
    let mut by_level = t.level_order();
    let mut ascending = t.in_order();
    by_level.sort();
    ascending.sort();
    assert_eq!(by_level, ascending);
    assert_eq!(by_level.len(), 9);
}
