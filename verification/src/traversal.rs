//! Walks over a multiway tree: every node in pre-order, and every path from
//! the root down to a node. Each walk keeps a stack of what is still to be
//! visited and hands out one item a step.

use crate::b_plus::BPlusTree;
use crate::key::Key;
use vstd::prelude::*;

verus! {

/// The nodes below a run of entries, each child before the next, and each
/// node before its own children.
pub open spec fn nodes_of<T: Key>(entries: Seq<(T, BPlusTree<T>)>) -> Seq<BPlusTree<T>>
    decreases entries,
{
    if entries.len() == 0 {
        Seq::empty()
    } else {
        entries[0].1.nodes() + nodes_of(entries.drop_first())
    }
}

/// The paths that lead through `prefix` into the children of a run of
/// entries, in the order of `nodes_of`.
pub open spec fn paths_of<T: Key>(
    prefix: Seq<&BPlusTree<T>>,
    entries: Seq<(T, BPlusTree<T>)>,
) -> Seq<Seq<&BPlusTree<T>>>
    decreases entries,
{
    if entries.len() == 0 {
        Seq::empty()
    } else {
        entries[0].1.paths_under(prefix) + paths_of(prefix, entries.drop_first())
    }
}

/// Each node below an entry is a node below the run of entries.
pub proof fn lemma_nodes_of_child<T: Key>(entries: Seq<(T, BPlusTree<T>)>, j: int, t: int) -> (i:
    int)
    requires
        0 <= j < entries.len(),
        0 <= t < entries[j].1.nodes().len(),
    ensures
        0 <= i < nodes_of(entries).len(),
        nodes_of(entries)[i] == entries[j].1.nodes()[t],
    decreases entries.len(),
{
    if j == 0 {
        t
    } else {
        let rest = entries.drop_first();
        assert(rest[j - 1] == entries[j]);
        let r = lemma_nodes_of_child(rest, j - 1, t);
        entries[0].1.nodes().len() + r
    }
}

/// What a stack of nodes still has to hand out: the nodes of its top
/// subtree, then those of the one below, and so on.
pub open spec fn pending<T: Key>(stack: Seq<&BPlusTree<T>>) -> Seq<BPlusTree<T>>
    decreases stack.len(),
{
    if stack.len() == 0 {
        Seq::empty()
    } else {
        stack.last().nodes() + pending(stack.drop_last())
    }
}

/// What a stack of paths still has to hand out: the top path and those that
/// extend it, then the same of the path below, and so on.
pub open spec fn pending_paths<T: Key>(stack: Seq<Seq<&BPlusTree<T>>>) -> Seq<Seq<&BPlusTree<T>>>
    decreases stack.len(),
{
    if stack.len() == 0 {
        Seq::empty()
    } else if stack.last().len() == 0 {
        pending_paths(stack.drop_last())
    } else {
        stack.last().last().paths_under(stack.last().drop_last()) + pending_paths(
            stack.drop_last(),
        )
    }
}

impl<T: Key> BPlusTree<T> {
    /// The nodes of this subtree in pre-order.
    pub open spec fn nodes(self) -> Seq<BPlusTree<T>>
        decreases self,
    {
        seq![self] + nodes_of(self.entries@)
    }

    /// The paths from the end of `prefix` down to each node of this subtree,
    /// in pre-order of the nodes they end at.
    pub open spec fn paths_under(&self, prefix: Seq<&BPlusTree<T>>) -> Seq<Seq<&BPlusTree<T>>>
        decreases self,
    {
        seq![prefix.push(self)] + paths_of(prefix.push(self), self.entries@)
    }

    /// The paths from this node down to each node of its subtree.
    pub open spec fn paths(&self) -> Seq<Seq<&BPlusTree<T>>> {
        self.paths_under(Seq::empty())
    }

    /// A walk over the nodes of this subtree in pre-order.
    pub fn iterate(&self) -> (walk: BPlusIter<'_, T>)
        ensures
            walk.remaining() == self.nodes(),
    {
        let mut to_visit: Vec<&BPlusTree<T>> = Vec::new();
        to_visit.push(self);
        proof {
            reveal_with_fuel(pending, 2);
            assert(to_visit@.drop_last() =~= Seq::empty());
            assert(to_visit@.last() == self);
            assert(pending(to_visit@) =~= self.nodes());
        }
        BPlusIter { to_visit }
    }

    /// A walk over the paths from this node to each node of its subtree.
    pub fn iterate_paths(&self) -> (walk: BPlusPathIter<'_, T>)
        ensures
            walk.remaining() == self.paths(),
    {
        let mut path: Vec<&BPlusTree<T>> = Vec::new();
        path.push(self);
        let mut to_visit: Vec<Vec<&BPlusTree<T>>> = Vec::new();
        to_visit.push(path);
        proof {
            reveal_with_fuel(pending_paths, 2);
            let stack = Seq::new(to_visit@.len(), |i: int| to_visit@[i]@);
            assert(stack.drop_last() =~= Seq::empty());
            assert(stack.last() =~= Seq::empty().push(self));
            assert(stack.last().drop_last() =~= Seq::empty());
            assert(pending_paths(stack) =~= self.paths());
        }
        BPlusPathIter { to_visit }
    }
}

/// A walk over the nodes of a tree in pre-order.
pub struct BPlusIter<'a, T: Key> {
    /// The subtrees still to be walked, the next one last.
    pub to_visit: Vec<&'a BPlusTree<T>>,
}

impl<'a, T: Key> BPlusIter<'a, T> {
    /// The nodes that this walk has yet to hand out, in order.
    pub open spec fn remaining(self) -> Seq<BPlusTree<T>> {
        pending(self.to_visit@)
    }

    /// Hands out the next node, and `None` once every node has been handed
    /// out.
    pub fn next(&mut self) -> (node: Option<&'a BPlusTree<T>>)
        ensures
            old(self).remaining().len() == 0 ==> node is None && final(self).remaining().len() == 0,
            old(self).remaining().len() > 0 ==> node is Some && *node.unwrap() == old(
                self).remaining()[0] && final(self).remaining() == old(
                self).remaining().drop_first(),
    {
        let top = self.to_visit.pop();
        match top {
            None => None,
            Some(node) => {
                let ghost base = self.to_visit@;
                proof {
                    assert(old(self).to_visit@.drop_last() =~= base);
                    assert(nodes_of(node.entries@.subrange(
                        node.entries@.len() as int,
                        node.entries@.len() as int,
                    )) =~= Seq::empty());
                }
                let mut j: usize = node.entries.len();
                while j > 0
                    invariant
                        j <= node.entries@.len(),
                        pending(self.to_visit@) == nodes_of(
                            node.entries@.subrange(j as int, node.entries@.len() as int),
                        ) + pending(base),
                    decreases j,
                {
                    let ghost stack = self.to_visit@;
                    j = j - 1;
                    let child: &'a BPlusTree<T> = &node.entries[j].1;
                    self.to_visit.push(child);
                    proof {
                        let len = node.entries@.len() as int;
                        let rest = node.entries@.subrange(j as int, len);
                        assert(self.to_visit@.drop_last() =~= stack);
                        assert(rest.drop_first() =~= node.entries@.subrange(j as int + 1, len));
                        assert(pending(self.to_visit@) =~= nodes_of(rest) + pending(base));
                    }
                }
                proof {
                    assert(node.entries@.subrange(0, node.entries@.len() as int) =~= node.entries@);
                    assert(old(self).remaining() =~= node.nodes() + pending(base));
                    assert(self.remaining() =~= old(self).remaining().drop_first());
                }
                Some(node)
            },
        }
    }
}

/// A walk over the paths from the root of a tree to each of its nodes.
pub struct BPlusPathIter<'a, T: Key> {
    /// The paths still to be walked with all that extend them, the next one
    /// last.
    pub to_visit: Vec<Vec<&'a BPlusTree<T>>>,
}

/// A copy of `path` with `node` behind it.
fn extended<'a, T: Key>(path: &Vec<&'a BPlusTree<T>>, node: &'a BPlusTree<T>) -> (longer: Vec<
    &'a BPlusTree<T>,
>)
    ensures
        longer@ == path@.push(node),
{
    let mut longer: Vec<&'a BPlusTree<T>> = Vec::new();
    let mut i: usize = 0;
    while i < path.len()
        invariant
            i <= path@.len(),
            longer@ == path@.subrange(0, i as int),
        decreases path@.len() - i,
    {
        longer.push(path[i]);
        i = i + 1;
        proof {
            assert(longer@ =~= path@.subrange(0, i as int));
        }
    }
    longer.push(node);
    proof {
        assert(longer@ =~= path@.push(node));
    }
    longer
}

impl<'a, T: Key> BPlusPathIter<'a, T> {
    /// The stack of this walk, each path as a sequence.
    pub open spec fn stack(self) -> Seq<Seq<&'a BPlusTree<T>>> {
        Seq::new(self.to_visit@.len(), |i: int| self.to_visit@[i]@)
    }

    /// The paths that this walk has yet to hand out, in order.
    pub open spec fn remaining(self) -> Seq<Seq<&'a BPlusTree<T>>> {
        pending_paths(self.stack())
    }

    /// Hands out the next path, and `None` once every path has been handed
    /// out.
    pub fn next(&mut self) -> (path: Option<Vec<&'a BPlusTree<T>>>)
        ensures
            old(self).remaining().len() == 0 ==> path is None && final(self).remaining().len() == 0,
            old(self).remaining().len() > 0 ==> path is Some && path.unwrap()@ == old(
                self).remaining()[0] && final(self).remaining() == old(
                self).remaining().drop_first(),
    {
        while self.to_visit.len() > 0 && self.to_visit[self.to_visit.len() - 1].len() == 0
            invariant
                self.remaining() == old(self).remaining(),
            decreases self.to_visit@.len(),
        {
            let ghost stack = self.stack();
            self.to_visit.pop();
            proof {
                assert(self.stack() =~= stack.drop_last());
            }
        }
        let ghost full = self.stack();
        let top = self.to_visit.pop();
        match top {
            None => None,
            Some(path) => {
                let ghost base = self.stack();
                let ghost above = path@.drop_last();
                let node: &'a BPlusTree<T> = path[path.len() - 1];
                proof {
                    assert(full.drop_last() =~= base);
                    assert(full.last() == path@);
                    assert(above.push(node) =~= path@);
                    assert(old(self).remaining() =~= node.paths_under(above) + pending_paths(
                        base,
                    ));
                    assert(paths_of(
                        path@,
                        node.entries@.subrange(
                            node.entries@.len() as int,
                            node.entries@.len() as int,
                        ),
                    ) =~= Seq::empty());
                }
                let mut j: usize = node.entries.len();
                while j > 0
                    invariant
                        j <= node.entries@.len(),
                        self.remaining() == paths_of(
                            path@,
                            node.entries@.subrange(j as int, node.entries@.len() as int),
                        ) + pending_paths(base),
                    decreases j,
                {
                    let ghost stack = self.stack();
                    j = j - 1;
                    let child: &'a BPlusTree<T> = &node.entries[j].1;
                    let longer = extended(&path, child);
                    self.to_visit.push(longer);
                    proof {
                        let len = node.entries@.len() as int;
                        let rest = node.entries@.subrange(j as int, len);
                        let next_path = path@.push(child);
                        assert(self.stack() =~= stack.push(next_path));
                        assert(self.stack().drop_last() =~= stack);
                        assert(next_path.drop_last() =~= path@);
                        assert(rest.drop_first() =~= node.entries@.subrange(j as int + 1, len));
                        assert(self.remaining() =~= paths_of(path@, rest) + pending_paths(base));
                    }
                }
                proof {
                    assert(node.entries@.subrange(0, node.entries@.len() as int) =~= node.entries@);
                    assert(self.remaining() =~= old(self).remaining().drop_first());
                }
                Some(path)
            },
        }
    }
}

} // verus!
