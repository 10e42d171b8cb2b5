use search_trees::b_plus::{BPlusNodeType, BPlusTree, DEFAULT_FANOUT};

fn leaf_level(keys: &[i32], fanout: usize) -> BPlusTree<i32> {
    let mut entries = Vec::new();
    for k in keys {
        entries.push((*k, BPlusTree::leaf_holding(*k, fanout)));
    }
    BPlusTree::internal_from(entries, fanout)
}

fn count_kind(tree: &BPlusTree<i32>, kind: BPlusNodeType) -> usize {
    let mut walk = tree.iterate();
    let mut n = 0;
    while let Some(node) = walk.next() {
        if node.kind == kind {
            n += 1;
        }
    }
    n
}

fn keys_in_order(tree: &BPlusTree<i32>) -> Vec<i32> {
    let mut walk = tree.iterate();
    let mut keys = Vec::new();
    while let Some(node) = walk.next() {
        if node.kind == BPlusNodeType::Leaf {
            keys.push(node.value.unwrap());
        }
    }
    keys
}

fn path_lengths(tree: &BPlusTree<i32>) -> Vec<usize> {
    let mut walk = tree.iterate_paths();
    let mut lengths = Vec::new();
    while let Some(path) = walk.next() {
        lengths.push(path.len());
    }
    lengths
}

/// Checks on a concrete tree what holds of every valid tree.
fn assert_valid(tree: &BPlusTree<i32>, keys: usize) {
    assert!(tree.is_valid());
    assert_eq!(tree.kind, BPlusNodeType::Root);
    assert_eq!(count_kind(tree, BPlusNodeType::Root), 1);
    assert_eq!(count_kind(tree, BPlusNodeType::Leaf), keys);
    let mut walk = tree.iterate();
    while let Some(node) = walk.next() {
        assert!(node.used_capacity() <= tree.fanout);
        assert_eq!(node.fanout, tree.fanout);
        match node.kind {
            BPlusNodeType::Leaf => {
                assert_eq!(node.used_capacity(), 0);
                assert!(node.value.is_some());
            }
            BPlusNodeType::Internal => {
                assert!(node.used_capacity() >= 1);
                assert!(node.value.is_none());
            }
            BPlusNodeType::Root => assert!(node.value.is_none()),
        }
        for entry in &node.entries {
            assert_eq!(entry.1.kind, node.entries[0].1.kind);
            assert_ne!(entry.1.kind, BPlusNodeType::Root);
            assert_eq!(entry.0, entry.1.max_key());
        }
        for pair in node.entries.windows(2) {
            assert!(pair[0].0 <= pair[1].0);
        }
    }
    let mut leaf_depths = Vec::new();
    let mut paths = tree.iterate_paths();
    while let Some(path) = paths.next() {
        assert!(std::ptr::eq(path[0], tree));
        if path[path.len() - 1].kind == BPlusNodeType::Leaf {
            leaf_depths.push(path.len());
        }
    }
    leaf_depths.dedup();
    assert!(leaf_depths.len() <= 1);
    let keys_found = keys_in_order(tree);
    let mut sorted = keys_found.clone();
    sorted.sort();
    assert_eq!(keys_found, sorted);
}

#[test]
fn search_basically_works() {
    let bt: BPlusTree<i32> = BPlusTree {
        fanout: 10,
        kind: BPlusNodeType::Root,
        value: None,
        entries: vec![(9, leaf_level(&[1, 4, 9], 10)), (25, leaf_level(&[16, 25], 10))],
    };

    assert_eq!(bt.clone().entries[1].1.entries[1].1, bt.search(1000).unwrap().clone());
    assert_eq!(bt.clone().entries[0].1.entries[0].1, bt.search(-1000).unwrap().clone());
    assert_eq!(bt.clone().entries[0].1.entries[0].1, bt.search(0).unwrap().clone());
    assert_eq!(bt.clone().entries[1].1.entries[0].1, bt.search(16).unwrap().clone());
}

#[test]
fn empty_tree_is_a_bare_root() {
    let tree: BPlusTree<i32> = BPlusTree::empty();
    assert_eq!(tree.kind, BPlusNodeType::Root);
    assert_eq!(tree.fanout, 10);
    assert_eq!(DEFAULT_FANOUT, 10);
    assert_eq!(tree.used_capacity(), 0);
    assert_eq!(tree.value, None);
    assert_eq!(tree, BPlusTree::create());
    assert_eq!(path_lengths(&tree), vec![1]);
    assert_valid(&tree, 0);
}

#[test]
fn with_fanout_sets_the_fanout() {
    let tree: BPlusTree<u8> = BPlusTree::with_fanout(3);
    assert_eq!(tree.fanout, 3);
    assert_eq!(tree.kind, BPlusNodeType::Root);
    assert_eq!(tree.used_capacity(), 0);
}

#[test]
fn leaf_holds_its_value_and_nothing_else() {
    let leaf = BPlusTree::leaf(7i64);
    assert_eq!(leaf.kind, BPlusNodeType::Leaf);
    assert_eq!(leaf.value, Some(7));
    assert_eq!(leaf.fanout, 10);
    assert_eq!(leaf.used_capacity(), 0);
    assert!(leaf.is_leaf());
    assert_eq!(leaf.max_key(), 7);
    let other = BPlusTree::leaf_holding(7i64, 4);
    assert_eq!(other.fanout, 4);
    assert_eq!(other.value, Some(7));
}

#[test]
fn internal_from_keeps_what_fits() {
    let node = leaf_level(&[1, 2, 3], 4);
    assert_eq!(node.kind, BPlusNodeType::Internal);
    assert_eq!(node.used_capacity(), 3);
    assert!(!node.is_leaf());
    let cut = leaf_level(&[1, 2, 3, 4, 5, 6], 4);
    assert_eq!(cut.used_capacity(), 4);
    assert_eq!(cut.fanout, 4);
    assert_eq!(cut.entries[3].0, 4);
    assert_eq!(cut.max_key(), 4);
}

#[test]
fn median_is_biased_to_the_lower_half() {
    let even = leaf_level(&[10, 20, 30, 40], 10);
    assert_eq!(even.median_index(), 2);
    assert_eq!(even.median(), 30);
    let odd = leaf_level(&[10, 20, 30, 40, 50], 10);
    assert_eq!(odd.median_index(), 2);
    assert_eq!(odd.median(), 30);
    let one = leaf_level(&[10], 10);
    assert_eq!(one.median_index(), 0);
    assert_eq!(one.median(), 10);
}

#[test]
fn position_reaching_bisects() {
    let node = leaf_level(&[10, 20, 20, 30], 10);
    assert_eq!(node.position_reaching(&5, false), 0);
    assert_eq!(node.position_reaching(&10, false), 0);
    assert_eq!(node.position_reaching(&10, true), 1);
    assert_eq!(node.position_reaching(&20, false), 1);
    assert_eq!(node.position_reaching(&20, true), 3);
    assert_eq!(node.position_reaching(&25, false), 3);
    assert_eq!(node.position_reaching(&30, true), 4);
    assert_eq!(node.position_reaching(&31, false), 4);
    assert_eq!(node.route_to(&31), 3);
    assert_eq!(node.route_to(&20), 1);
    assert_eq!(node.route_to(&-1), 0);
}

#[test]
fn insert_entry_keeps_the_separators_ascending() {
    let mut node = leaf_level(&[10, 30], 10);
    node.insert_entry((20, BPlusTree::leaf(20)));
    node.insert_entry((5, BPlusTree::leaf(5)));
    node.insert_entry((40, BPlusTree::leaf(40)));
    let separators: Vec<i32> = node.entries.iter().map(|e| e.0).collect();
    assert_eq!(separators, vec![5, 10, 20, 30, 40]);
    assert_eq!(node.kind, BPlusNodeType::Internal);
}

#[test]
fn insert_entry_goes_behind_an_equal_separator() {
    let mut node = leaf_level(&[10, 20], 4);
    let mut marked = BPlusTree::leaf_holding(10, 4);
    marked.fanout = 99;
    node.insert_entry((10, marked));
    assert_eq!(node.entries[0].1.fanout, 4);
    assert_eq!(node.entries[1].1.fanout, 99);
    assert_eq!(node.entries[2].0, 20);
}

#[test]
fn split_parts_at_the_median() {
    let mut node = leaf_level(&[1, 2, 3, 4, 5], 6);
    let (left, right) = node.split();
    assert_eq!(node.used_capacity(), 0);
    assert_eq!(node.kind, BPlusNodeType::Internal);
    assert_eq!(left.kind, BPlusNodeType::Internal);
    assert_eq!(right.kind, BPlusNodeType::Internal);
    assert_eq!(left.fanout, 6);
    assert_eq!(right.fanout, 6);
    assert_eq!(keys_in_order(&left), vec![1, 2]);
    assert_eq!(keys_in_order(&right), vec![3, 4, 5]);
}

#[test]
fn split_of_a_root_keeps_the_tag() {
    let mut tree: BPlusTree<i32> = BPlusTree::with_fanout(4);
    for v in [1, 2, 3, 4] {
        tree.insert(v);
    }
    let (left, right) = tree.split();
    assert_eq!(left.kind, BPlusNodeType::Root);
    assert_eq!(right.kind, BPlusNodeType::Root);
    assert_eq!(left.used_capacity(), 2);
    assert_eq!(right.used_capacity(), 2);
    assert_eq!(tree.used_capacity(), 0);
}

#[test]
fn absorb_keeps_an_entry_where_there_is_room() {
    let mut node = leaf_level(&[10, 30], 4);
    let promoted = node.absorb(1, (20, BPlusTree::leaf_holding(20, 4)));
    assert!(promoted.is_none());
    assert_eq!(keys_in_order(&node), vec![10, 20, 30]);
}

#[test]
fn absorb_splits_a_full_internal_node() {
    let mut node = leaf_level(&[10, 20, 30, 40], 4);
    let promoted = node.absorb(4, (50, BPlusTree::leaf_holding(50, 4)));
    let (separator, sibling) = promoted.unwrap();
    assert_eq!(separator, 50);
    assert_eq!(sibling.kind, BPlusNodeType::Internal);
    assert_eq!(node.kind, BPlusNodeType::Internal);
    assert_eq!(keys_in_order(&node), vec![10, 20]);
    assert_eq!(keys_in_order(&sibling), vec![30, 40, 50]);
}

#[test]
fn absorb_at_the_median_goes_to_the_lower_half() {
    let mut node = leaf_level(&[10, 20, 30, 40], 4);
    let promoted = node.absorb(2, (25, BPlusTree::leaf_holding(25, 4)));
    let (separator, sibling) = promoted.unwrap();
    assert_eq!(separator, 40);
    assert_eq!(keys_in_order(&node), vec![10, 20, 25]);
    assert_eq!(keys_in_order(&sibling), vec![30, 40]);
}

#[test]
fn ten_keys_fill_the_root() {
    let mut tree: BPlusTree<i32> = BPlusTree::empty();
    for v in 0..10 {
        assert!(tree.insert(v).is_none());
    }
    assert_eq!(count_kind(&tree, BPlusNodeType::Leaf), 10);
    assert_eq!(count_kind(&tree, BPlusNodeType::Root), 1);
    assert_eq!(count_kind(&tree, BPlusNodeType::Internal), 0);
    assert_eq!(tree.used_capacity(), 10);
    assert_eq!(keys_in_order(&tree), (0..10).collect::<Vec<i32>>());
    assert_valid(&tree, 10);
}

#[test]
fn twelve_keys_split_the_root_once() {
    let mut tree: BPlusTree<i32> = BPlusTree::empty();
    for v in 0..12 {
        assert!(tree.insert(v).is_none());
    }
    assert_eq!(count_kind(&tree, BPlusNodeType::Leaf), 12);
    assert_eq!(tree.kind, BPlusNodeType::Root);
    assert_eq!(tree.used_capacity(), 2);
    assert_eq!(tree.entries[0].1.kind, BPlusNodeType::Internal);
    assert_eq!(tree.entries[1].1.kind, BPlusNodeType::Internal);
    assert_eq!(tree.entries[0].0, 4);
    assert_eq!(tree.entries[1].0, 11);
    assert_eq!(tree.entries[0].1.used_capacity(), 5);
    assert_eq!(tree.entries[1].1.used_capacity(), 7);
    let lengths = path_lengths(&tree);
    assert_eq!(lengths.len(), 15);
    assert_eq!(lengths.iter().filter(|l| **l == 1).count(), 1);
    assert_eq!(lengths.iter().filter(|l| **l == 2).count(), 2);
    assert_eq!(lengths.iter().filter(|l| **l == 3).count(), 12);
    assert_valid(&tree, 12);
}

#[test]
fn search_resolves_to_the_right_child_of_a_split_root() {
    let mut tree: BPlusTree<i32> = BPlusTree::empty();
    for v in 0..12 {
        tree.insert(v * 10);
    }
    assert_eq!(tree.used_capacity(), 2);
    let left_max = tree.entries[0].0;
    assert_eq!(left_max, 40);
    let found = tree.search(left_max).unwrap();
    assert_eq!(found.value, Some(40));
    assert!(std::ptr::eq(found, &tree.entries[0].1.entries[4].1));
    let found = tree.search(41).unwrap();
    assert_eq!(found.value, Some(50));
    assert!(std::ptr::eq(found, &tree.entries[1].1.entries[0].1));
    let found = tree.search(35).unwrap();
    assert_eq!(found.value, Some(40));
    assert_eq!(tree.search(-5).unwrap().value, Some(0));
    assert_eq!(tree.search(110).unwrap().value, Some(110));
    assert_eq!(tree.search(1000).unwrap().value, Some(110));
    assert_eq!(found.kind, BPlusNodeType::Leaf);
}

#[test]
fn search_in_an_empty_tree_finds_nothing() {
    let tree: BPlusTree<i32> = BPlusTree::empty();
    assert!(tree.search(3).is_none());
}

#[test]
fn search_at_a_leaf_is_the_leaf() {
    let leaf = BPlusTree::leaf(3);
    assert_eq!(leaf.search(100).unwrap().value, Some(3));
}

#[test]
fn equal_values_make_two_leaves() {
    let mut tree: BPlusTree<i32> = BPlusTree::empty();
    tree.insert(5);
    tree.insert(5);
    assert_eq!(count_kind(&tree, BPlusNodeType::Leaf), 2);
    assert_eq!(keys_in_order(&tree), vec![5, 5]);
    assert_valid(&tree, 2);
}

#[test]
fn many_equal_values_stay_in_a_valid_tree() {
    let mut tree: BPlusTree<i32> = BPlusTree::with_fanout(2);
    let values = [5, 3, 5, 5, 3, 7, 5, 3, 3, 5, 7, 7, 5, 1, 5, 3];
    for (n, v) in values.iter().enumerate() {
        assert!(tree.insert(*v).is_none());
        assert_valid(&tree, n + 1);
    }
    assert_eq!(tree.search(4).unwrap().value, Some(5));
    assert_eq!(tree.search(6).unwrap().value, Some(7));
    assert_eq!(tree.search(8).unwrap().value, Some(7));
}

#[test]
fn invariants_hold_after_every_insert() {
    for fanout in [2usize, 3, 4, 5, 10] {
        let mut tree: BPlusTree<i32> = BPlusTree::with_fanout(fanout);
        let mut x: i64 = 1;
        for n in 0..300 {
            x = (x * 1103515245 + 12345) % 2147483648;
            let value = (x % 1000) as i32;
            assert!(tree.insert(value).is_none());
            assert_valid(&tree, n + 1);
        }
    }
}

#[test]
fn every_inserted_key_is_found() {
    let mut tree: BPlusTree<i32> = BPlusTree::with_fanout(3);
    for v in (0..200).rev() {
        tree.insert(v * 2);
    }
    for v in 0..200 {
        assert_eq!(tree.search(v * 2).unwrap().value, Some(v * 2));
        assert_eq!(tree.search(v * 2 - 1).unwrap().value, Some(v * 2));
    }
    assert_eq!(tree.search(399).unwrap().value, Some(398));
}

#[test]
fn height_grows_only_when_the_root_overflows() {
    let mut tree: BPlusTree<i32> = BPlusTree::with_fanout(2);
    tree.insert(1);
    tree.insert(2);
    assert_eq!(path_lengths(&tree), vec![1, 2, 2]);
    tree.insert(3);
    assert_eq!(path_lengths(&tree), vec![1, 2, 3, 2, 3, 3]);
    assert_eq!(tree.used_capacity(), 2);
    assert_eq!(tree.entries[0].0, 1);
    assert_eq!(tree.entries[1].0, 3);
}

#[test]
fn internal_node_hands_out_its_upper_half() {
    let mut node = leaf_level(&[10, 20, 30, 40], 4);
    let promoted = node.insert(25);
    let (separator, sibling) = promoted.unwrap();
    assert_eq!(separator, 40);
    assert_eq!(keys_in_order(&node), vec![10, 20, 25]);
    assert_eq!(keys_in_order(&sibling), vec![30, 40]);
    let mut node = leaf_level(&[10, 20, 30, 40], 4);
    let (separator, sibling) = node.insert(30).unwrap();
    assert_eq!(separator, 40);
    assert_eq!(keys_in_order(&node), vec![10, 20]);
    assert_eq!(keys_in_order(&sibling), vec![30, 30, 40]);
    let mut node = leaf_level(&[10, 20, 30], 4);
    assert!(node.insert(25).is_none());
    assert_eq!(keys_in_order(&node), vec![10, 20, 25, 30]);
}

#[test]
fn iteration_is_in_pre_order_and_restartable() {
    let mut tree: BPlusTree<i32> = BPlusTree::with_fanout(2);
    for v in [1, 2, 3] {
        tree.insert(v);
    }
    let kinds = |tree: &BPlusTree<i32>| {
        let mut walk = tree.iterate();
        let mut seen = Vec::new();
        while let Some(node) = walk.next() {
            seen.push((node.kind, node.value));
        }
        assert!(walk.next().is_none());
        seen
    };
    let expected = vec![
        (BPlusNodeType::Root, None),
        (BPlusNodeType::Internal, None),
        (BPlusNodeType::Leaf, Some(1)),
        (BPlusNodeType::Internal, None),
        (BPlusNodeType::Leaf, Some(2)),
        (BPlusNodeType::Leaf, Some(3)),
    ];
    assert_eq!(kinds(&tree), expected);
    assert_eq!(kinds(&tree), expected);
}

#[test]
fn paths_end_at_the_nodes_in_pre_order() {
    let mut tree: BPlusTree<i32> = BPlusTree::with_fanout(2);
    for v in [1, 2, 3] {
        tree.insert(v);
    }
    let mut nodes = tree.iterate();
    let mut paths = tree.iterate_paths();
    let mut n = 0;
    while let Some(path) = paths.next() {
        let node = nodes.next().unwrap();
        assert!(std::ptr::eq(path[path.len() - 1], node));
        n += 1;
    }
    assert!(nodes.next().is_none());
    assert_eq!(n, 6);
}

#[test]
fn clone_is_alike_and_apart() {
    let mut tree: BPlusTree<i32> = BPlusTree::with_fanout(3);
    for v in [4, 1, 3, 2, 5, 9, 8] {
        tree.insert(v);
    }
    let copy = tree.clone();
    assert_eq!(copy, tree);
    tree.insert(6);
    assert_ne!(copy, tree);
    assert_eq!(keys_in_order(&copy), vec![1, 2, 3, 4, 5, 8, 9]);
    assert_eq!(keys_in_order(&tree), vec![1, 2, 3, 4, 5, 6, 8, 9]);
}

#[test]
fn max_key_is_the_last_separator() {
    let mut tree: BPlusTree<u32> = BPlusTree::with_fanout(3);
    for v in [4, 1, 3, 2, 5, 9, 8] {
        tree.insert(v);
        assert_eq!(tree.max_key(), tree.entries[tree.entries.len() - 1].0);
    }
    assert_eq!(tree.max_key(), 9);
}
