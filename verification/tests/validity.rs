use search_trees::b_plus::{BPlusNodeType, BPlusTree};

fn leaf_level(keys: &[i32], fanout: usize) -> BPlusTree<i32> {
    let mut entries = Vec::new();
    for k in keys {
        entries.push((*k, BPlusTree::leaf_holding(*k, fanout)));
    }
    BPlusTree::internal_from(entries, fanout)
}

fn two_levels() -> BPlusTree<i32> {
    BPlusTree {
        fanout: 4,
        kind: BPlusNodeType::Root,
        value: None,
        entries: vec![(9, leaf_level(&[1, 4, 9], 4)), (25, leaf_level(&[16, 25], 4))],
    }
}

#[test]
fn built_trees_are_valid() {
    assert!(BPlusTree::<i32>::empty().is_valid());
    assert!(BPlusTree::leaf(3).is_valid());
    assert!(leaf_level(&[1, 2, 2, 3], 4).is_valid());
    assert!(two_levels().is_valid());
    let mut tree: BPlusTree<i32> = BPlusTree::with_fanout(2);
    for v in [3, 1, 2, 3, 9, 7, 8, 0, 3] {
        tree.insert(v);
        assert!(tree.is_valid());
    }
}

#[test]
fn measure_gives_the_least_and_the_greatest_key() {
    assert_eq!(two_levels().measure(), Some((1, 25)));
    assert_eq!(BPlusTree::leaf(3).measure(), Some((3, 3)));
    assert_eq!(BPlusTree::<i32>::empty().measure(), None);
    assert_eq!(leaf_level(&[5, 5, 7], 3).measure(), Some((5, 7)));
}

#[test]
fn a_small_fanout_is_not_valid() {
    let mut tree = two_levels();
    tree.fanout = 1;
    assert!(!tree.is_valid());
    let mut bare: BPlusTree<i32> = BPlusTree::empty();
    bare.fanout = 1;
    assert!(!bare.is_valid());
    assert!(!leaf_level(&[1, 2, 3], 2).entries.is_empty());
    let mut crowded = leaf_level(&[1, 2, 3], 3);
    crowded.fanout = 2;
    assert!(!crowded.is_valid());
}

#[test]
fn a_wrong_separator_is_not_valid() {
    let mut tree = two_levels();
    tree.entries[0].0 = 10;
    assert!(!tree.is_valid());
    assert_eq!(tree.measure(), None);
    let mut tree = two_levels();
    tree.entries[1].0 = 16;
    assert!(!tree.is_valid());
}

#[test]
fn keys_out_of_order_are_not_valid() {
    let tree: BPlusTree<i32> = BPlusTree {
        fanout: 4,
        kind: BPlusNodeType::Root,
        value: None,
        entries: vec![(9, leaf_level(&[1, 4, 9], 4)), (25, leaf_level(&[8, 25], 4))],
    };
    assert!(!tree.is_valid());
    assert!(!leaf_level(&[3, 2], 4).is_valid());
    let touching: BPlusTree<i32> = BPlusTree {
        fanout: 4,
        kind: BPlusNodeType::Root,
        value: None,
        entries: vec![(9, leaf_level(&[1, 4, 9], 4)), (25, leaf_level(&[9, 25], 4))],
    };
    assert!(touching.is_valid());
}

#[test]
fn leaves_at_two_depths_are_not_valid() {
    let tree: BPlusTree<i32> = BPlusTree {
        fanout: 4,
        kind: BPlusNodeType::Root,
        value: None,
        entries: vec![(9, leaf_level(&[1, 4, 9], 4)), (25, BPlusTree::leaf_holding(25, 4))],
    };
    assert!(!tree.is_valid());
}

#[test]
fn misplaced_kinds_are_not_valid() {
    let mut tree = two_levels();
    tree.entries[0].1.kind = BPlusNodeType::Root;
    assert!(!tree.is_valid());
    let mut tree = two_levels();
    tree.entries[0].1.entries[1].1.kind = BPlusNodeType::Internal;
    assert!(!tree.is_valid());
    let mut hollow: BPlusTree<i32> = BPlusTree::empty();
    hollow.kind = BPlusNodeType::Internal;
    assert!(!hollow.is_valid());
    let mut leaf = BPlusTree::leaf(3);
    leaf.value = None;
    assert!(!leaf.is_valid());
    let mut root = two_levels();
    root.value = Some(3);
    assert!(!root.is_valid());
    let mut tree = two_levels();
    tree.entries[1].1.fanout = 5;
    assert!(!tree.is_valid());
}

#[test]
fn same_height_compares_the_levels_below() {
    let leaf = BPlusTree::leaf_holding(1, 4);
    let bare: BPlusTree<i32> = BPlusTree::with_fanout(4);
    let low = leaf_level(&[1, 2], 4);
    let high = two_levels();
    assert!(leaf.same_height(&leaf));
    assert!(!leaf.same_height(&bare));
    assert!(!bare.same_height(&leaf));
    assert!(bare.same_height(&low));
    assert!(low.same_height(&bare));
    assert!(!low.same_height(&high));
    assert!(!high.same_height(&bare));
    assert!(high.same_height(&high));
}
