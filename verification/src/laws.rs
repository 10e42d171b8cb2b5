//! What holds of every valid multiway tree, stated over its nodes in
//! pre-order and over its paths.

use crate::b_plus::{
    entries_ok, entry_ok, keys_of, lemma_keys_of_concat, lemma_keys_of_push, BPlusNodeType,
    BPlusTree,
};
use crate::key::Key;
use crate::traversal::{nodes_of, paths_of};
use vstd::prelude::*;

verus! {

/// How many of `nodes` are of the given kind.
pub open spec fn kind_count<T: Key>(nodes: Seq<BPlusTree<T>>, kind: BPlusNodeType) -> nat
    decreases nodes.len(),
{
    if nodes.len() == 0 {
        0
    } else {
        kind_count(nodes.drop_last(), kind) + if nodes.last().kind == kind {
            1nat
        } else {
            0nat
        }
    }
}

/// The count over a concatenation is the sum of the counts over its parts.
pub proof fn lemma_kind_count_concat<T: Key>(
    a: Seq<BPlusTree<T>>,
    b: Seq<BPlusTree<T>>,
    kind: BPlusNodeType,
)
    ensures
        kind_count(a + b, kind) == kind_count(a, kind) + kind_count(b, kind),
    decreases b.len(),
{
    if b.len() == 0 {
        assert(a + b =~= a);
    } else {
        lemma_kind_count_concat(a, b.drop_last(), kind);
        assert((a + b).drop_last() =~= a + b.drop_last());
    }
}

/// Where no node is of the kind, the count is 0.
pub proof fn lemma_kind_count_none<T: Key>(nodes: Seq<BPlusTree<T>>, kind: BPlusNodeType)
    requires
        forall|i: int| 0 <= i < nodes.len() ==> (#[trigger] nodes[i]).kind != kind,
    ensures
        kind_count(nodes, kind) == 0,
    decreases nodes.len(),
{
    if nodes.len() > 0 {
        let front = nodes.drop_last();
        assert forall|i: int| 0 <= i < front.len() implies (#[trigger] front[i]).kind != kind by {
            assert(front[i] == nodes[i]);
        }
        lemma_kind_count_none(front, kind);
        assert(nodes[nodes.len() - 1].kind != kind);
    }
}

/// The entry, and the place among the nodes below it, of the node at
/// position `i` below a run of entries.
pub proof fn lemma_locate<T: Key>(entries: Seq<(T, BPlusTree<T>)>, i: int) -> (at: (int, int))
    requires
        0 <= i < nodes_of(entries).len(),
    ensures
        0 <= at.0 < entries.len(),
        0 <= at.1 < entries[at.0].1.nodes().len(),
        nodes_of(entries)[i] == entries[at.0].1.nodes()[at.1],
    decreases entries.len(),
{
    let first = entries[0].1.nodes();
    if i < first.len() {
        (0, i)
    } else {
        let rest = entries.drop_first();
        let at = lemma_locate(rest, i - first.len());
        assert(rest[at.0] == entries[at.0 + 1]);
        (at.0 + 1, at.1)
    }
}

/// Every node of a valid tree is a valid subtree of the same fanout, and
/// none but the first is a root.
pub proof fn lemma_node<T: Key>(tree: BPlusTree<T>, i: int)
    requires
        tree.wf(),
        0 <= i < tree.nodes().len(),
    ensures
        tree.nodes()[i].wf(),
        tree.nodes()[i].fanout == tree.fanout,
        i == 0 ==> tree.nodes()[i] == tree,
        i > 0 ==> !(tree.nodes()[i].kind is Root),
    decreases tree,
{
    reveal(BPlusTree::wf);
    if i > 0 {
        let at = lemma_locate(tree.entries@, i - 1);
        let child = tree.entries@[at.0].1;
        assert(entry_ok(tree.entries@[at.0], tree.fanout, tree.child_height()));
        lemma_node(child, at.1);
    }
}

/// A valid tree whose first node is a root has exactly one root: no node
/// below the first is one.
pub proof fn law_one_root<T: Key>(tree: BPlusTree<T>)
    requires
        tree.wf(),
        tree.kind is Root,
    ensures
        kind_count(tree.nodes(), BPlusNodeType::Root) == 1,
        tree.nodes()[0] == tree,
        forall|i: int| 0 < i < tree.nodes().len() ==> !((#[trigger] tree.nodes()[i]).kind is Root),
{
    reveal(BPlusTree::wf);
    let below = nodes_of(tree.entries@);
    assert forall|i: int| 0 <= i < below.len() implies (#[trigger] below[i]).kind
        != BPlusNodeType::Root by {
        lemma_node(tree, i + 1);
        assert(tree.nodes()[i + 1] == below[i]);
    }
    lemma_kind_count_none(below, BPlusNodeType::Root);
    lemma_kind_count_concat(seq![tree], below, BPlusNodeType::Root);
    assert(kind_count(seq![tree], BPlusNodeType::Root) == 1) by {
        reveal_with_fuel(kind_count, 2);
        assert(seq![tree].drop_last() =~= Seq::empty());
    }
    assert forall|i: int| 0 < i < tree.nodes().len() implies !((
    #[trigger] tree.nodes()[i]).kind is Root) by {
        lemma_node(tree, i);
    }
}

/// A leaf of a valid tree holds no entry.
pub proof fn law_leaf_is_bare<T: Key>(tree: BPlusTree<T>, i: int)
    requires
        tree.wf(),
        0 <= i < tree.nodes().len(),
        tree.nodes()[i].kind is Leaf,
    ensures
        tree.nodes()[i].entries@.len() == 0,
{
    reveal(BPlusTree::wf);
    lemma_node(tree, i);
}

/// The children of a node of a valid tree are all leaves or all internal
/// nodes.
pub proof fn law_children_alike<T: Key>(tree: BPlusTree<T>, i: int, a: int, b: int)
    requires
        tree.wf(),
        0 <= i < tree.nodes().len(),
        0 <= a < tree.nodes()[i].entries@.len(),
        0 <= b < tree.nodes()[i].entries@.len(),
    ensures
        tree.nodes()[i].entries@[a].1.kind == tree.nodes()[i].entries@[b].1.kind,
        !(tree.nodes()[i].entries@[a].1.kind is Root),
{
    reveal(BPlusTree::wf);
    lemma_node(tree, i);
    let node = tree.nodes()[i];
    assert(entry_ok(node.entries@[a], node.fanout, node.child_height()));
    assert(entry_ok(node.entries@[b], node.fanout, node.child_height()));
}

/// No node of a valid tree holds more entries than the fanout of the tree.
pub proof fn law_fanout_respected<T: Key>(tree: BPlusTree<T>, i: int)
    requires
        tree.wf(),
        0 <= i < tree.nodes().len(),
    ensures
        tree.nodes()[i].entries@.len() <= tree.fanout,
{
    reveal(BPlusTree::wf);
    lemma_node(tree, i);
}

/// Below valid entries there are as many leaves as keys.
pub proof fn lemma_leaf_per_key_below<T: Key>(
    entries: Seq<(T, BPlusTree<T>)>,
    fanout: usize,
    h: nat,
)
    requires
        entries_ok(entries, fanout, h),
    ensures
        kind_count(nodes_of(entries), BPlusNodeType::Leaf) == keys_of(entries).len(),
    decreases entries, 0nat,
{
    reveal(BPlusTree::wf);
    if entries.len() > 0 {
        let rest = entries.drop_first();
        assert(entry_ok(entries[0], fanout, h));
        assert forall|i: int| 0 <= i < rest.len() implies entry_ok(
            #[trigger] rest[i],
            fanout,
            h,
        ) by {
            assert(rest[i] == entries[i + 1]);
        }
        law_leaf_per_key(entries[0].1);
        lemma_leaf_per_key_below(rest, fanout, h);
        lemma_kind_count_concat(entries[0].1.nodes(), nodes_of(rest), BPlusNodeType::Leaf);
        let none = Seq::<(T, BPlusTree<T>)>::empty();
        assert(entries =~= none.push(entries[0]) + rest);
        lemma_keys_of_concat(none.push(entries[0]), rest);
        lemma_keys_of_push(none, entries[0]);
        assert(keys_of(none.push(entries[0])) =~= entries[0].1.keys());
    }
}

/// A valid tree has as many leaves as it holds keys.
pub proof fn law_leaf_per_key<T: Key>(tree: BPlusTree<T>)
    requires
        tree.wf(),
    ensures
        kind_count(tree.nodes(), BPlusNodeType::Leaf) == tree.keys().len(),
    decreases tree, 1nat,
{
    reveal(BPlusTree::wf);
    lemma_kind_count_concat(seq![tree], nodes_of(tree.entries@), BPlusNodeType::Leaf);
    assert(kind_count(seq![tree], BPlusNodeType::Leaf) == if tree.kind is Leaf {
        1nat
    } else {
        0nat
    }) by {
        reveal_with_fuel(kind_count, 2);
        assert(seq![tree].drop_last() =~= Seq::empty());
    }
    if tree.kind is Leaf {
        assert(tree.entries@ =~= Seq::empty());
    } else {
        lemma_leaf_per_key_below(tree.entries@, tree.fanout, tree.child_height());
    }
}

/// A valid tree that takes one more key in has one more leaf.
pub proof fn law_key_adds_leaf<T: Key>(before: BPlusTree<T>, after: BPlusTree<T>, value: T)
    requires
        before.wf(),
        after.wf(),
        after.keys() == before.keys().insert(value),
    ensures
        kind_count(after.nodes(), BPlusNodeType::Leaf) == kind_count(
            before.nodes(),
            BPlusNodeType::Leaf,
        ) + 1,
{
    law_leaf_per_key(before);
    law_leaf_per_key(after);
}

/// The entry, and the place among the paths into it, of the path at
/// position `p` among those into a run of entries.
pub proof fn lemma_locate_path<T: Key>(
    prefix: Seq<&BPlusTree<T>>,
    entries: Seq<(T, BPlusTree<T>)>,
    p: int,
) -> (at: (int, int))
    requires
        0 <= p < paths_of(prefix, entries).len(),
    ensures
        0 <= at.0 < entries.len(),
        0 <= at.1 < entries[at.0].1.paths_under(prefix).len(),
        paths_of(prefix, entries)[p] == entries[at.0].1.paths_under(prefix)[at.1],
    decreases entries.len(),
{
    let first = entries[0].1.paths_under(prefix);
    if p < first.len() {
        (0, p)
    } else {
        let rest = entries.drop_first();
        let at = lemma_locate_path(prefix, rest, p - first.len());
        assert(rest[at.0] == entries[at.0 + 1]);
        (at.0 + 1, at.1)
    }
}

/// A path into a valid subtree goes on from the prefix by as many nodes as
/// the subtree is higher than the node it ends at, and one more.
pub proof fn lemma_path<T: Key>(tree: BPlusTree<T>, prefix: Seq<&BPlusTree<T>>, p: int)
    requires
        tree.wf(),
        0 <= p < tree.paths_under(prefix).len(),
    ensures
        tree.paths_under(prefix)[p].len() >= 1,
        tree.paths_under(prefix)[p].last().wf(),
        tree.paths_under(prefix)[p].len() + tree.paths_under(prefix)[p].last().height()
            == prefix.len() + 1 + tree.height(),
    decreases tree,
{
    reveal(BPlusTree::wf);
    if p > 0 {
        let longer = prefix.push(&tree);
        let at = lemma_locate_path(longer, tree.entries@, p - 1);
        let child = tree.entries@[at.0].1;
        assert(entry_ok(tree.entries@[at.0], tree.fanout, tree.child_height()));
        lemma_path(child, longer, at.1);
    }
}

/// The paths into a run of entries end, one by one, at the nodes below the
/// entries.
pub proof fn lemma_paths_end_at_nodes_below<T: Key>(
    prefix: Seq<&BPlusTree<T>>,
    entries: Seq<(T, BPlusTree<T>)>,
)
    ensures
        paths_of(prefix, entries).len() == nodes_of(entries).len(),
        forall|p: int|
            0 <= p < nodes_of(entries).len() ==> (#[trigger] paths_of(prefix, entries)[p]).len()
                >= 1 && *paths_of(prefix, entries)[p].last() == nodes_of(entries)[p],
    decreases entries, 0nat,
{
    if entries.len() > 0 {
        lemma_paths_end_at_nodes(entries[0].1, prefix);
        lemma_paths_end_at_nodes_below(prefix, entries.drop_first());
    }
}

/// The paths into a subtree end, one by one, at its nodes in pre-order.
pub proof fn lemma_paths_end_at_nodes<T: Key>(tree: BPlusTree<T>, prefix: Seq<&BPlusTree<T>>)
    ensures
        tree.paths_under(prefix).len() == tree.nodes().len(),
        forall|p: int|
            0 <= p < tree.nodes().len() ==> (#[trigger] tree.paths_under(prefix)[p]).len() >= 1
                && *tree.paths_under(prefix)[p].last() == tree.nodes()[p],
    decreases tree, 1nat,
{
    lemma_paths_end_at_nodes_below(prefix.push(&tree), tree.entries@);
}

/// A tree has one path for each of its nodes, which ends at that node.
pub proof fn law_path_per_node<T: Key>(tree: BPlusTree<T>)
    ensures
        tree.paths().len() == tree.nodes().len(),
        forall|p: int|
            0 <= p < tree.nodes().len() ==> (#[trigger] tree.paths()[p]).len() >= 1
                && *tree.paths()[p].last() == tree.nodes()[p],
{
    lemma_paths_end_at_nodes(tree, Seq::empty());
}

/// Every path of a valid tree that ends at a leaf has the same length: one
/// more than the height of the tree.
pub proof fn law_leaves_level<T: Key>(tree: BPlusTree<T>, p: int)
    requires
        tree.wf(),
        0 <= p < tree.paths().len(),
        tree.paths()[p].last().kind is Leaf,
    ensures
        tree.paths()[p].len() == tree.height() + 1,
{
    lemma_path(tree, Seq::empty(), p);
}

/// The entries and places of two nodes below a run of entries: the earlier
/// node lies below an earlier entry, or below the same entry at an earlier
/// place.
pub proof fn lemma_locate_two<T: Key>(entries: Seq<(T, BPlusTree<T>)>, p: int, q: int) -> (at: (
    (int, int),
    (int, int),
))
    requires
        0 <= p < q < nodes_of(entries).len(),
    ensures
        0 <= at.0.0 <= at.1.0 < entries.len(),
        at.0.0 == at.1.0 ==> at.0.1 < at.1.1,
        0 <= at.0.1 < entries[at.0.0].1.nodes().len(),
        0 <= at.1.1 < entries[at.1.0].1.nodes().len(),
        nodes_of(entries)[p] == entries[at.0.0].1.nodes()[at.0.1],
        nodes_of(entries)[q] == entries[at.1.0].1.nodes()[at.1.1],
    decreases entries.len(),
{
    let first = entries[0].1.nodes();
    let rest = entries.drop_first();
    if q < first.len() {
        ((0, p), (0, q))
    } else if p < first.len() {
        let later = lemma_locate(rest, q - first.len());
        assert(rest[later.0] == entries[later.0 + 1]);
        ((0, p), (later.0 + 1, later.1))
    } else {
        let at = lemma_locate_two(rest, p - first.len(), q - first.len());
        assert(rest[at.0.0] == entries[at.0.0 + 1]);
        assert(rest[at.1.0] == entries[at.1.0 + 1]);
        ((at.0.0 + 1, at.0.1), (at.1.0 + 1, at.1.1))
    }
}

/// The key of a leaf of a valid tree is one of the keys of the tree.
pub proof fn lemma_leaf_key<T: Key>(tree: BPlusTree<T>, i: int)
    requires
        tree.wf(),
        0 <= i < tree.nodes().len(),
        tree.nodes()[i].kind is Leaf,
    ensures
        tree.nodes()[i].value is Some,
        tree.keys().contains(tree.nodes()[i].value.unwrap()),
    decreases tree,
{
    reveal(BPlusTree::wf);
    if i > 0 {
        let at = lemma_locate(tree.entries@, i - 1);
        let child = tree.entries@[at.0].1;
        assert(entry_ok(tree.entries@[at.0], tree.fanout, tree.child_height()));
        lemma_leaf_key(child, at.1);
        crate::b_plus::lemma_keys_of_member(tree.entries@, tree.nodes()[i].value.unwrap());
    }
}

/// The leaves of a valid tree come in ascending order of their keys: a walk
/// in pre-order meets no key after a greater one.
pub proof fn law_leaves_ascend<T: Key>(tree: BPlusTree<T>, i: int, j: int)
    requires
        tree.wf(),
        0 <= i < j < tree.nodes().len(),
        tree.nodes()[i].kind is Leaf,
        tree.nodes()[j].kind is Leaf,
    ensures
        tree.nodes()[i].value is Some,
        tree.nodes()[j].value is Some,
        tree.nodes()[i].value.unwrap().rank() <= tree.nodes()[j].value.unwrap().rank(),
    decreases tree,
{
    reveal(BPlusTree::wf);
    lemma_leaf_key(tree, i);
    lemma_leaf_key(tree, j);
    if i == 0 {
        assert(tree.entries@.len() == 0);
        assert(nodes_of(tree.entries@).len() == 0);
    } else {
        let at = lemma_locate_two(tree.entries@, i - 1, j - 1);
        let a = at.0.0;
        let b = at.1.0;
        assert(entry_ok(tree.entries@[a], tree.fanout, tree.child_height()));
        assert(entry_ok(tree.entries@[b], tree.fanout, tree.child_height()));
        if a == b {
            law_leaves_ascend(tree.entries@[a].1, at.0.1, at.1.1);
        } else {
            lemma_leaf_key(tree.entries@[a].1, at.0.1);
            lemma_leaf_key(tree.entries@[b].1, at.1.1);
            assert(crate::b_plus::bounded_below(
                tree.entries@[b].1.keys(),
                tree.entries@[a].0.rank(),
            ));
        }
    }
}

/// In a valid node that holds no key twice, the separators ascend strictly.
pub proof fn law_distinct_keys_separate<T: Key>(node: BPlusTree<T>, i: int, j: int)
    requires
        node.wf(),
        !(node.kind is Leaf),
        forall|k: T| node.keys().count(k) <= 1,
        0 <= i < j < node.entries@.len(),
    ensures
        node.entries@[i].0.rank() < node.entries@[j].0.rank(),
{
    reveal(BPlusTree::wf);
    let entries = node.entries@;
    let front = entries.subrange(0, j);
    let back = entries.subrange(j + 1, entries.len() as int);
    let low = entries[i].0;
    let high = entries[j].0;
    assert(entry_ok(entries[i], node.fanout, node.child_height()));
    assert(entry_ok(entries[j], node.fanout, node.child_height()));
    assert(crate::b_plus::bounded_below(entries[j].1.keys(), low.rank()));
    if low.rank() == high.rank() {
        T::rank_is_injective(low, high);
        assert(entries =~= front.push(entries[j]) + back);
        lemma_keys_of_concat(front.push(entries[j]), back);
        lemma_keys_of_push(front, entries[j]);
        assert(front[i] == entries[i]);
        crate::b_plus::lemma_keys_of_member(front, low);
        assert(keys_of(front).count(low) >= 1);
        assert(entries[j].1.keys().count(low) >= 1);
        assert(keys_of(entries).count(low) >= 2);
        assert(node.keys().count(low) >= 2);
    }
}

} // verus!
