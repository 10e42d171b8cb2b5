use quickcheck::StdGen;
use rand::rngs::StdRng;
use rand::SeedableRng;
use search_trees::binary::{ordering_property, BinaryTree};

fn values_walked(tree: &BinaryTree<i32, i32>) -> Vec<i32> {
    let mut walk = tree.iter();
    let mut seen = Vec::new();
    while let Some(node) = walk.next() {
        seen.push(node.value());
    }
    seen
}

#[test]
fn drawn_trees_are_ordered_and_in_range() {
    let mut g = StdGen::new(StdRng::seed_from_u64(17), 100);
    let mut distinct = std::collections::BTreeSet::new();
    let mut largest = 0;
    for _ in 0..500 {
        let tree = BinaryTree::arbitrary(&mut g);
        let values = values_walked(&tree);
        largest = largest.max(values.len());
        let mut walk = tree.iter();
        while let Some(node) = walk.next() {
            assert!(ordering_property(node.clone()));
        }
        for v in &values {
            assert!(-1000 <= *v && *v < 1000);
            distinct.insert(*v);
        }
        let mut sorted = values.clone();
        sorted.sort();
        sorted.dedup();
        assert_eq!(sorted.len(), values.len());
    }
    assert!(largest >= 3);
    assert!(distinct.len() >= 100);
}

#[test]
fn the_same_seed_draws_the_same_tree() {
    let mut g = StdGen::new(StdRng::seed_from_u64(3), 100);
    let mut h = StdGen::new(StdRng::seed_from_u64(3), 100);
    for _ in 0..50 {
        let a = BinaryTree::arbitrary(&mut g);
        let b = BinaryTree::arbitrary(&mut h);
        assert_eq!(values_walked(&a), values_walked(&b));
    }
}
