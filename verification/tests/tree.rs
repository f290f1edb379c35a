use dsa_playground::dsa::tree::BinarySearchTree;

#[test]
fn test_insert() {
    let mut bst = BinarySearchTree::new();
    bst.insert(5);
    bst.insert(3);
    bst.insert(7);
    bst.insert(2);
    bst.insert(4);
    bst.insert(6);
    bst.insert(8);
    assert!(bst.search(5));
    assert!(bst.search(3));
    assert!(bst.search(7));
    assert!(bst.search(2));
    assert!(bst.search(4));
    assert!(bst.search(6));
    assert!(bst.search(8));
    assert!(!bst.search(1));
    assert!(!bst.search(9));
}

#[test]
fn test_search() {
    let mut bst = BinarySearchTree::new();
    bst.insert(5);
    bst.insert(3);
    bst.insert(7);
    bst.insert(2);
    bst.insert(4);
    bst.insert(6);
    bst.insert(8);
    assert!(bst.search(5));
    assert!(bst.search(3));
    assert!(bst.search(7));
    assert!(bst.search(2));
    assert!(bst.search(4));
    assert!(bst.search(6));
    assert!(bst.search(8));
    assert!(!bst.search(1));
    assert!(!bst.search(9));
}

#[test]
fn test_delete() {
    let mut bst = BinarySearchTree::new();
    bst.insert(5);
    bst.insert(3);
    bst.insert(7);
    bst.insert(2);
    bst.insert(4);
    bst.insert(6);
    bst.insert(8);

    // Delete existing values
    assert!(bst.delete(5)); // Root node with two children
    assert!(!bst.search(5));
    assert!(bst.search(3));
    assert!(bst.search(7));

    assert!(bst.delete(3)); // Node with two children
    assert!(!bst.search(3));
    assert!(bst.search(2));
    assert!(bst.search(4));

    assert!(bst.delete(7)); // Node with two children
    assert!(!bst.search(7));
    assert!(bst.search(6));
    assert!(bst.search(8));

    assert!(bst.delete(2)); // Leaf node
    assert!(!bst.search(2));

    assert!(bst.delete(4)); // Leaf node
    assert!(!bst.search(4));

    assert!(bst.delete(6)); // Node with one child
    assert!(!bst.search(6));

    assert!(bst.delete(8)); // Last node
    assert!(!bst.search(8));

    // Empty tree
    assert!(bst.is_empty());

    // Try to delete non-existent values
    assert!(!bst.delete(10)); // Value never existed
    assert!(!bst.delete(5)); // Value existed but was deleted

    // Insert a new value and ensure we can delete it
    bst.insert(15);
    assert!(bst.delete(15));
    assert!(!bst.search(15));
    assert!(bst.is_empty());
}

fn seven() -> BinarySearchTree {
    let mut bst = BinarySearchTree::new();
    for v in [5, 3, 7, 2, 4, 6, 8] {
        bst.insert(v);
    }
    bst
}

#[test]
fn tree_traversal_is_ascending() {
    let bst = seven();
    assert_eq!(bst.in_order_traversal(), vec![2, 3, 4, 5, 6, 7, 8]);
    assert_eq!(BinarySearchTree::new().in_order_traversal(), Vec::<i32>::new());
}

#[test]
fn tree_delete_with_two_children_keeps_the_rest() {
    let mut bst = seven();
    assert!(bst.delete(5));
    assert_eq!(bst.in_order_traversal(), vec![2, 3, 4, 6, 7, 8]);
    for v in [2, 3, 4, 6, 7, 8] {
        assert!(bst.search(v));
    }
    assert!(!bst.search(5));
}

#[test]
fn tree_delete_of_absent_value_changes_nothing() {
    let mut bst = seven();
    assert!(!bst.delete(1));
    assert!(!bst.delete(9));
    assert!(!bst.delete(i32::MIN));
    assert!(!bst.delete(i32::MAX));
    assert_eq!(bst.in_order_traversal(), vec![2, 3, 4, 5, 6, 7, 8]);
}

#[test]
fn tree_deleting_everything_empties_it() {
    let mut bst = seven();
    assert!(!bst.is_empty());
    for v in [4, 8, 5, 2, 7, 3, 6] {
        assert!(bst.delete(v));
    }
    assert!(bst.is_empty());
    assert_eq!(bst.in_order_traversal(), Vec::<i32>::new());
}

#[test]
fn tree_keeps_duplicates() {
    let mut bst = BinarySearchTree::new();
    for v in [5, 5, 3, 5, 3] {
        bst.insert(v);
    }
    assert_eq!(bst.in_order_traversal(), vec![3, 3, 5, 5, 5]);
    assert!(bst.delete(5));
    assert!(bst.search(5));
    assert_eq!(bst.in_order_traversal(), vec![3, 3, 5, 5]);
    assert!(bst.delete(5));
    assert!(bst.delete(5));
    assert!(!bst.search(5));
    assert!(!bst.delete(5));
    assert_eq!(bst.in_order_traversal(), vec![3, 3]);
}

#[test]
fn tree_holds_the_extremes() {
    let mut bst = BinarySearchTree::new();
    for v in [0, i32::MAX, i32::MIN, -1, 1] {
        bst.insert(v);
    }
    assert!(bst.search(i32::MIN));
    assert!(bst.search(i32::MAX));
    assert_eq!(bst.in_order_traversal(), vec![i32::MIN, -1, 0, 1, i32::MAX]);
    assert!(bst.delete(0));
    assert_eq!(bst.in_order_traversal(), vec![i32::MIN, -1, 1, i32::MAX]);
}

#[test]
fn tree_on_empty_finds_nothing() {
    let mut bst = BinarySearchTree::new();
    assert!(bst.is_empty());
    assert!(!bst.search(0));
    assert!(!bst.delete(0));
    assert!(bst.is_empty());
}

#[test]
fn tree_scrambled_inserts_and_deletes() {
    let mut bst = BinarySearchTree::new();
    let mut held: Vec<i32> = Vec::new();
    let mut x: i64 = 987654321;
    for step in 0..2000 {
        x = (x * 1103515245 + 12345) % 2147483648;
        let v = (x % 200) as i32;
        if step % 3 == 2 {
            let expected = held.iter().position(|h| *h == v);
            assert_eq!(bst.delete(v), expected.is_some());
            if let Some(at) = expected {
                held.remove(at);
            }
        } else {
            bst.insert(v);
            held.push(v);
        }
        assert_eq!(bst.search(v), held.contains(&v));
    }
    held.sort();
    assert_eq!(bst.in_order_traversal(), held);
}

#[test]
fn tree_degenerate_chain_is_released() {
    // ascending inserts make one long chain to the right, descending ones
    // to the left; neither may exhaust the call stack when it is released
    let mut right = BinarySearchTree::new();
    let mut left = BinarySearchTree::new();
    for i in 0..4000 {
        right.insert(i);
        left.insert(-i);
    }
    assert!(right.search(3999));
    assert!(left.search(-3999));
}

#[test]
fn tree_clear_leaves_an_empty_tree() {
    let mut bst = seven();
    bst.clear();
    assert!(bst.is_empty());
    assert!(!bst.search(5));
    assert_eq!(bst.in_order_traversal(), Vec::<i32>::new());
    bst.clear();
    assert!(bst.is_empty());
    bst.insert(1);
    assert_eq!(bst.in_order_traversal(), vec![1]);
    let mut chain = BinarySearchTree::new();
    for i in 0..3000 {
        chain.insert(i);
    }
    chain.clear();
    assert!(chain.is_empty());
}
