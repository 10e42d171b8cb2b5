use search_trees::binary::{ordering_property, AvlTree, BinaryTree};

fn values_walked(tree: &BinaryTree<i32, i32>) -> Vec<i32> {
    let mut walk = tree.iter();
    let mut seen = Vec::new();
    while let Some(node) = walk.next() {
        seen.push(node.value());
    }
    seen
}

fn ordered_everywhere(tree: &BinaryTree<i32, i32>) -> bool {
    let mut walk = tree.iter();
    while let Some(node) = walk.next() {
        if !ordering_property(node.clone()) {
            return false;
        }
    }
    true
}

#[test]
fn single_is_a_leaf() {
    let tree: AvlTree<i32> = AvlTree::single(3);
    assert!(matches!(tree, BinaryTree::Leaf { value: 3, metadata: 0 }));
    assert_eq!(tree.value(), 3);
    assert_eq!(values_walked(&tree), vec![3]);
    assert!(ordering_property(tree));
}

#[test]
fn a_leaf_becomes_a_branch() {
    let mut tree: AvlTree<i32> = AvlTree::single(3);
    tree.insert(5);
    match &tree {
        BinaryTree::Branch { metadata, value, left, right } => {
            assert_eq!(*metadata, 1);
            assert_eq!(*value, 3);
            assert!(left.is_none());
            let below = right.as_ref().unwrap();
            assert!(matches!(**below, BinaryTree::Leaf { value: 5, metadata: 0 }));
        }
        BinaryTree::Leaf { .. } => panic!("still a leaf"),
    }
    let mut tree: AvlTree<i32> = AvlTree::single(3);
    tree.insert(1);
    match &tree {
        BinaryTree::Branch { metadata, value, left, right } => {
            assert_eq!(*metadata, 1);
            assert_eq!(*value, 3);
            assert!(right.is_none());
            let below = left.as_ref().unwrap();
            assert!(matches!(**below, BinaryTree::Leaf { value: 1, metadata: 0 }));
        }
        BinaryTree::Leaf { .. } => panic!("still a leaf"),
    }
}

#[test]
fn equal_values_are_not_kept_twice() {
    let mut tree: AvlTree<i32> = AvlTree::single(3);
    tree.insert(3);
    assert!(matches!(tree, BinaryTree::Leaf { value: 3, metadata: 0 }));
    tree.insert(5);
    tree.insert(1);
    tree.insert(5);
    tree.insert(1);
    tree.insert(3);
    assert_eq!(values_walked(&tree), vec![3, 5, 1]);
}

#[test]
fn walk_goes_right_before_left() {
    let mut tree: AvlTree<i32> = AvlTree::single(50);
    for v in [30, 70, 20, 40, 60, 80] {
        tree.insert(v);
    }
    assert_eq!(values_walked(&tree), vec![50, 70, 80, 60, 30, 40, 20]);
    assert_eq!(tree.value(), 50);
}

#[test]
fn inserted_trees_are_ordered() {
    let mut tree: AvlTree<i32> = AvlTree::single(0);
    let mut x: i64 = 7;
    let mut distinct = std::collections::BTreeSet::new();
    distinct.insert(0);
    for _ in 0..200 {
        x = (x * 1103515245 + 12345) % 2147483648;
        let value = (x % 2000) as i32 - 1000;
        tree.insert(value);
        distinct.insert(value);
        assert!(ordering_property(tree.clone()));
    }
    assert!(ordered_everywhere(&tree));
    let mut seen = values_walked(&tree);
    seen.sort();
    assert_eq!(seen, distinct.into_iter().collect::<Vec<i32>>());
}

#[test]
fn a_misplaced_value_fails_the_property() {
    let tree: BinaryTree<i32, i32> = BinaryTree::Branch {
        metadata: 1,
        value: 10,
        left: Some(Box::new(BinaryTree::Branch {
            metadata: 1,
            value: 5,
            left: None,
            right: Some(Box::new(BinaryTree::Leaf { value: 11, metadata: 0 })),
        })),
        right: None,
    };
    assert!(!ordering_property(tree.clone()));
    assert!(!tree.all_beside(10, false));
    assert!(tree.all_beside(4, true));
    let tree: BinaryTree<i32, i32> = BinaryTree::Branch {
        metadata: 1,
        value: 10,
        left: None,
        right: Some(Box::new(BinaryTree::Leaf { value: 10, metadata: 0 })),
    };
    assert!(!ordering_property(tree));
}

#[test]
fn clone_copies_the_whole_tree() {
    let mut tree: AvlTree<i32> = AvlTree::single(5);
    tree.insert(3);
    tree.insert(8);
    let copy = tree.clone();
    assert_eq!(values_walked(&copy), vec![5, 8, 3]);
    tree.insert(9);
    assert_eq!(values_walked(&copy), vec![5, 8, 3]);
    assert_eq!(values_walked(&tree), vec![5, 8, 9, 3]);
}

#[test]
fn a_tree_out_of_order_still_takes_values() {
    let mut tree: BinaryTree<i32, i32> = BinaryTree::Branch {
        metadata: 1,
        value: 10,
        left: Some(Box::new(BinaryTree::Leaf { value: 20, metadata: 0 })),
        right: None,
    };
    tree.insert(5);
    assert_eq!(values_walked(&tree), vec![10, 20, 5]);
    tree.insert(20);
    assert_eq!(values_walked(&tree), vec![10, 20, 20, 5]);
    assert!(!ordering_property(tree));
}
