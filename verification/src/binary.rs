//! An ordered binary tree without equal values, and a walk over its nodes.

use crate::key::Key;
use vstd::prelude::*;

verus! {

/// A binary tree that carries a value and some metadata at every node.
#[derive(Debug)]
pub enum BinaryTree<V: Key, M> {
    Branch {
        metadata: M,
        value: V,
        left: Option<Box<BinaryTree<V, M>>>,
        right: Option<Box<BinaryTree<V, M>>>,
    },
    Leaf { value: V, metadata: M },
}

/// A binary tree whose metadata is a number.
pub type AvlTree<V> = BinaryTree<V, i32>;

impl<V: Key, M> View for BinaryTree<V, M> {
    type V = Set<V>;

    /// A tree is seen as the values that it holds.
    open spec fn view(&self) -> Set<V> {
        self.values()
    }
}

impl<V: Key, M> BinaryTree<V, M> {
    /// The value at the top of this tree.
    pub open spec fn top(self) -> V {
        match self {
            BinaryTree::Branch { value, .. } => value,
            BinaryTree::Leaf { value, .. } => value,
        }
    }

    /// The values in an optional subtree.
    pub open spec fn values_in(side: Option<Box<BinaryTree<V, M>>>) -> Set<V>
        decreases side,
    {
        match side {
            None => Set::empty(),
            Some(tree) => tree.values(),
        }
    }

    /// The values in this tree.
    pub open spec fn values(self) -> Set<V>
        decreases self,
    {
        match self {
            BinaryTree::Leaf { value, .. } => Set::empty().insert(value),
            BinaryTree::Branch { value, left, right, .. } => Self::values_in(left).union(
                Self::values_in(right),
            ).insert(value),
        }
    }

    /// Whether an optional subtree is ordered.
    pub open spec fn ordered_in(side: Option<Box<BinaryTree<V, M>>>) -> bool
        decreases side,
    {
        match side {
            None => true,
            Some(tree) => tree.ordered(),
        }
    }

    /// At every branch, the values on the left come before the value of the
    /// branch, and those on the right come after it.
    pub open spec fn ordered(self) -> bool
        decreases self,
    {
        match self {
            BinaryTree::Leaf { .. } => true,
            BinaryTree::Branch { value, left, right, .. } => {
                &&& forall|x: V| #[trigger]
                    Self::values_in(left).contains(x) ==> x.rank() < value.rank()
                &&& forall|x: V| #[trigger]
                    Self::values_in(right).contains(x) ==> value.rank() < x.rank()
                &&& Self::ordered_in(left)
                &&& Self::ordered_in(right)
            },
        }
    }

    /// The nodes of an optional subtree, in the order of `walk`.
    pub open spec fn walk_in(side: Option<Box<BinaryTree<V, M>>>) -> Seq<BinaryTree<V, M>>
        decreases side,
    {
        match side {
            None => Seq::empty(),
            Some(tree) => tree.walk(),
        }
    }

    /// The nodes of this tree in the order in which a walk hands them out:
    /// a node, then the nodes on its right, then those on its left.
    pub open spec fn walk(self) -> Seq<BinaryTree<V, M>>
        decreases self,
    {
        match self {
            BinaryTree::Leaf { .. } => seq![self],
            BinaryTree::Branch { left, right, .. } => seq![self] + Self::walk_in(right)
                + Self::walk_in(left),
        }
    }

    /// Whether the top of this tree is in order: the values on its left come
    /// before its own, and those on its right come after it.
    pub open spec fn top_ordered(self) -> bool {
        match self {
            BinaryTree::Leaf { .. } => true,
            BinaryTree::Branch { value, left, right, .. } => {
                &&& forall|x: V| #[trigger]
                    Self::values_in(left).contains(x) ==> x.rank() < value.rank()
                &&& forall|x: V| #[trigger]
                    Self::values_in(right).contains(x) ==> value.rank() < x.rank()
            },
        }
    }

    /// The value at the top of this tree.
    pub fn value(&self) -> (v: V)
        ensures
            v == self.top(),
    {
        match self {
            BinaryTree::Branch { value, .. } => *value,
            BinaryTree::Leaf { value, .. } => *value,
        }
    }

    /// A walk over the nodes of this tree.
    pub fn iter(&self) -> (walk: BinaryTreeIterator<'_, V, M>)
        ensures
            walk.remaining() == self.walk(),
    {
        let mut to_visit: Vec<&BinaryTree<V, M>> = Vec::new();
        to_visit.push(self);
        proof {
            reveal_with_fuel(pending_walk, 2);
            assert(to_visit@.drop_last() =~= Seq::empty());
            assert(to_visit@.last() == self);
            assert(pending_walk(to_visit@) =~= self.walk());
        }
        BinaryTreeIterator { to_visit }
    }

    /// Whether every value of this tree comes before `bound` (with `after`:
    /// comes after it).
    pub fn all_beside(&self, bound: V, after: bool) -> (holds: bool)
        ensures
            holds == (forall|x: V| #[trigger]
                self.values().contains(x) ==> if after {
                    bound.rank() < x.rank()
                } else {
                    x.rank() < bound.rank()
                }),
    {
        let mut walk = self.iter();
        let ghost mut seen: int = 0;
        loop
            invariant
                0 <= seen <= self.walk().len(),
                walk.remaining() == self.walk().subrange(seen, self.walk().len() as int),
                forall|i: int|
                    0 <= i < seen ==> if after {
                        bound.rank() < (#[trigger] self.walk()[i]).top().rank()
                    } else {
                        self.walk()[i].top().rank() < bound.rank()
                    },
            decreases walk.remaining().len(),
        {
            match walk.next() {
                None => {
                    proof {
                        assert forall|x: V| #[trigger] self.values().contains(x) implies if after {
                            bound.rank() < x.rank()
                        } else {
                            x.rank() < bound.rank()
                        } by {
                            let i = lemma_value_in_walk(*self, x);
                            assert(self.walk()[i].top() == x);
                        }
                    }
                    return true;
                },
                Some(node) => {
                    let v = node.value();
                    let fine = if after {
                        bound.precedes(&v)
                    } else {
                        v.precedes(&bound)
                    };
                    proof {
                        assert(*node == self.walk()[seen]);
                        assert(walk.remaining() =~= self.walk().subrange(
                            seen + 1,
                            self.walk().len() as int,
                        ));
                    }
                    if !fine {
                        proof {
                            lemma_walk_in_values(*self, seen);
                        }
                        return false;
                    }
                    proof {
                        seen = seen + 1;
                    }
                },
            }
        }
    }
}

/// The value at each node of a walk is a value of the tree.
pub proof fn lemma_walk_in_values<V: Key, M>(tree: BinaryTree<V, M>, i: int)
    requires
        0 <= i < tree.walk().len(),
    ensures
        tree.values().contains(tree.walk()[i].top()),
    decreases tree,
{
    match tree {
        BinaryTree::Leaf { .. } => {},
        BinaryTree::Branch { left, right, .. } => {
            let on_right = BinaryTree::walk_in(right);
            if i == 0 {
            } else if i - 1 < on_right.len() {
                lemma_walk_in_values(*right.unwrap(), i - 1);
            } else {
                lemma_walk_in_values(*left.unwrap(), i - 1 - on_right.len());
            }
        },
    }
}

/// Each value of the tree is the value at some node of its walk.
pub proof fn lemma_value_in_walk<V: Key, M>(tree: BinaryTree<V, M>, x: V) -> (i: int)
    requires
        tree.values().contains(x),
    ensures
        0 <= i < tree.walk().len(),
        tree.walk()[i].top() == x,
    decreases tree,
{
    match tree {
        BinaryTree::Leaf { .. } => 0,
        BinaryTree::Branch { value, left, right, .. } => {
            let on_right = BinaryTree::walk_in(right);
            if x == value {
                0
            } else if BinaryTree::values_in(right).contains(x) {
                let i = lemma_value_in_walk(*right.unwrap(), x);
                1 + i
            } else {
                let i = lemma_value_in_walk(*left.unwrap(), x);
                1 + on_right.len() + i
            }
        },
    }
}

/// What a stack of trees still has to hand out: the walk of its top tree,
/// then that of the one below, and so on.
pub open spec fn pending_walk<V: Key, M>(stack: Seq<&BinaryTree<V, M>>) -> Seq<BinaryTree<V, M>>
    decreases stack.len(),
{
    if stack.len() == 0 {
        Seq::empty()
    } else {
        stack.last().walk() + pending_walk(stack.drop_last())
    }
}

/// A walk over the nodes of a binary tree.
pub struct BinaryTreeIterator<'a, V: Key, M> {
    /// The trees still to be walked, the next one last.
    pub to_visit: Vec<&'a BinaryTree<V, M>>,
}

impl<'a, V: Key, M> BinaryTreeIterator<'a, V, M> {
    /// The nodes that this walk has yet to hand out, in order.
    pub open spec fn remaining(self) -> Seq<BinaryTree<V, M>> {
        pending_walk(self.to_visit@)
    }

    /// Hands out the next node, and `None` once every node has been handed
    /// out.
    pub fn next(&mut self) -> (node: Option<&'a BinaryTree<V, M>>)
        ensures
            old(self).remaining().len() == 0 ==> node is None && final(self).remaining().len() == 0,
            old(self).remaining().len() > 0 ==> node is Some && *node.unwrap() == old(
                self).remaining()[0] && final(self).remaining() == old(
                self).remaining().drop_first(),
    {
        let ret = self.to_visit.pop();
        let ghost base = self.to_visit@;
        proof {
            if ret is Some {
                assert(old(self).to_visit@.drop_last() =~= base);
            }
        }
        match ret {
            Some(BinaryTree::Branch { left, right, .. }) => {
                match left {
                    Some(below) => {
                        self.to_visit.push(&**below);
                        proof {
                            assert(self.to_visit@.drop_last() =~= base);
                        }
                    },
                    None => {},
                }
                let ghost middle = self.to_visit@;
                match right {
                    Some(below) => {
                        self.to_visit.push(&**below);
                        proof {
                            assert(self.to_visit@.drop_last() =~= middle);
                        }
                    },
                    None => {},
                }
                proof {
                    assert(pending_walk(middle) =~= BinaryTree::walk_in(*left) + pending_walk(
                        base,
                    ));
                    assert(self.remaining() =~= BinaryTree::walk_in(*right) + BinaryTree::walk_in(
                        *left,
                    ) + pending_walk(base));
                    assert(self.remaining() =~= old(self).remaining().drop_first());
                }
            },
            Some(BinaryTree::Leaf { .. }) => {
                proof {
                    assert(self.remaining() =~= old(self).remaining().drop_first());
                }
            },
            None => {},
        }
        ret
    }
}

impl<V: Key, M: Copy> Clone for BinaryTree<V, M> {
    /// A copy of the whole tree.
    fn clone(&self) -> (copy: Self)
        ensures
            copy == *self,
        decreases self,
    {
        match self {
            BinaryTree::Leaf { value, metadata } => BinaryTree::Leaf {
                value: *value,
                metadata: *metadata,
            },
            BinaryTree::Branch { metadata, value, left, right } => {
                let left_copy = match left {
                    Some(below) => Some(Box::new((&**below).clone())),
                    None => None,
                };
                let right_copy = match right {
                    Some(below) => Some(Box::new((&**below).clone())),
                    None => None,
                };
                BinaryTree::Branch {
                    metadata: *metadata,
                    value: *value,
                    left: left_copy,
                    right: right_copy,
                }
            },
        }
    }
}

/// Whether the top of `bt` is in order: every value on its left comes before
/// its own, and every value on its right after it.
pub fn ordering_property(bt: BinaryTree<i32, i32>) -> (holds: bool)
    ensures
        holds == bt.top_ordered(),
{
    match &bt {
        BinaryTree::Branch { value, left, right, .. } => {
            let left_holds = match left {
                Some(below) => below.all_beside(*value, false),
                None => true,
            };
            let right_holds = match right {
                Some(below) => below.all_beside(*value, true),
                None => true,
            };
            proof {
                if left is Some {
                    assert(BinaryTree::values_in(*left) == left.unwrap().values());
                }
                if right is Some {
                    assert(BinaryTree::values_in(*right) == right.unwrap().values());
                }
            }
            left_holds && right_holds
        },
        BinaryTree::Leaf { .. } => true,
    }
}

/// A tree that is ordered at every branch passes at its top.
pub proof fn law_ordered_passes<V: Key, M>(bt: BinaryTree<V, M>)
    requires
        bt.ordered(),
    ensures
        bt.top_ordered(),
{
}

impl<V: Key> AvlTree<V> {
    /// This tree with `v` put in: a leaf of another value becomes a branch
    /// over a new leaf, a branch takes the value on the side where it belongs,
    /// and a tree that holds the value stays as it is.
    pub open spec fn with(self, v: V) -> Self
        decreases self,
    {
        let fresh = BinaryTree::Leaf { value: v, metadata: 0i32 };
        match self {
            BinaryTree::Leaf { value, .. } => {
                if value.rank() < v.rank() {
                    BinaryTree::Branch {
                        metadata: 1i32,
                        value,
                        left: None,
                        right: Some(Box::new(fresh)),
                    }
                } else if v.rank() < value.rank() {
                    BinaryTree::Branch {
                        metadata: 1i32,
                        value,
                        left: Some(Box::new(fresh)),
                        right: None,
                    }
                } else {
                    self
                }
            },
            BinaryTree::Branch { metadata, value, left, right } => {
                if v.rank() < value.rank() {
                    BinaryTree::Branch {
                        metadata,
                        value,
                        left: Some(
                            Box::new(
                                match left {
                                    Some(below) => below.with(v),
                                    None => fresh,
                                },
                            ),
                        ),
                        right,
                    }
                } else if value.rank() < v.rank() {
                    BinaryTree::Branch {
                        metadata,
                        value,
                        left,
                        right: Some(
                            Box::new(
                                match right {
                                    Some(below) => below.with(v),
                                    None => fresh,
                                },
                            ),
                        ),
                    }
                } else {
                    self
                }
            },
        }
    }

    /// The tree that grows from the one value `first` as each value of `more`
    /// is put in, in turn.
    pub open spec fn grown(first: V, more: Seq<V>) -> Self
        decreases more.len(),
    {
        if more.len() == 0 {
            BinaryTree::Leaf { value: first, metadata: 0i32 }
        } else {
            Self::grown(first, more.drop_last()).with(more.last())
        }
    }

    /// A tree of the one value `value`.
    pub fn single(value: V) -> (tree: Self)
        ensures
            tree == (BinaryTree::<V, i32>::Leaf { value, metadata: 0 }),
            tree.ordered(),
            tree@ == Set::<V>::empty().insert(value),
    {
        BinaryTree::Leaf { value, metadata: 0 }
    }

    /// Puts `new_value` where the order places it, unless it meets the value
    /// on its way down. An ordered tree stays ordered, and stays as it is where
    /// it holds the value already.
    pub fn insert(&mut self, new_value: V)
        ensures
            *final(self) == old(self).with(new_value),
            final(self)@ == old(self)@.insert(new_value),
            final(self).top() == old(self).top(),
            old(self).ordered() ==> final(self).ordered(),
            old(self).ordered() && old(self)@.contains(new_value) ==> *final(self) == *old(self),
        decreases *old(self),
    {
        match self {
            BinaryTree::Leaf { value, .. } => {
                let value: V = *value;
                if value.precedes(&new_value) {
                    let fresh = Self::single(new_value);
                    *self = BinaryTree::Branch {
                        metadata: 1,
                        value,
                        right: Some(Box::new(fresh)),
                        left: None,
                    };
                    proof {
                        assert(self.values() =~= old(self).values().insert(new_value));
                    }
                } else if new_value.precedes(&value) {
                    let fresh = Self::single(new_value);
                    *self = BinaryTree::Branch {
                        metadata: 1,
                        value,
                        left: Some(Box::new(fresh)),
                        right: None,
                    };
                    proof {
                        assert(self.values() =~= old(self).values().insert(new_value));
                    }
                } else {
                    proof {
                        V::rank_is_injective(value, new_value);
                        assert(self.values() =~= old(self).values().insert(new_value));
                    }
                }
            },
            BinaryTree::Branch { value, left, right, .. } => {
                if new_value.precedes(value) {
                    match left {
                        Some(below) => below.insert(new_value),
                        None => {
                            *left = Some(Box::new(Self::single(new_value)));
                        },
                    }
                    proof {
                        assert(Self::values_in(self->left) =~= Self::values_in(
                            old(self)->left,
                        ).insert(new_value));
                        assert(self.values() =~= old(self).values().insert(new_value));
                        if old(self).ordered() && old(self).values().contains(new_value) {
                            if Self::values_in(old(self)->right).contains(new_value) {
                                assert(old(self).top().rank() < new_value.rank());
                            }
                            assert(Self::values_in(old(self)->left).contains(new_value));
                        }
                    }
                } else if value.precedes(&new_value) {
                    match right {
                        Some(below) => below.insert(new_value),
                        None => {
                            *right = Some(Box::new(Self::single(new_value)));
                        },
                    }
                    proof {
                        assert(Self::values_in(self->right) =~= Self::values_in(
                            old(self)->right,
                        ).insert(new_value));
                        assert(self.values() =~= old(self).values().insert(new_value));
                        if old(self).ordered() && old(self).values().contains(new_value) {
                            if Self::values_in(old(self)->left).contains(new_value) {
                                assert(new_value.rank() < old(self).top().rank());
                            }
                            assert(Self::values_in(old(self)->right).contains(new_value));
                        }
                    }
                } else {
                    proof {
                        V::rank_is_injective(*value, new_value);
                        assert(self.values() =~= old(self).values().insert(new_value));
                    }
                }
            },
        }
    }
}

/// Putting a value into an ordered tree leaves it ordered, and adds the value
/// to its values.
pub proof fn law_with_keeps_order<V: Key>(tree: AvlTree<V>, v: V)
    requires
        tree.ordered(),
    ensures
        tree.with(v).ordered(),
        tree.with(v).values() == tree.values().insert(v),
        tree.with(v).top() == tree.top(),
    decreases tree,
{
    let fresh = BinaryTree::<V, i32>::Leaf { value: v, metadata: 0i32 };
    let after = tree.with(v);
    assert(fresh.values() =~= Set::empty().insert(v));
    assert(fresh.ordered());
    match tree {
        BinaryTree::Leaf { value, .. } => {
            if value.rank() < v.rank() {
                assert(BinaryTree::values_in(after->right) == fresh.values());
                assert(BinaryTree::values_in(after->left) =~= Set::empty());
            } else if v.rank() < value.rank() {
                assert(BinaryTree::values_in(after->left) == fresh.values());
                assert(BinaryTree::values_in(after->right) =~= Set::empty());
            } else {
                V::rank_is_injective(value, v);
            }
            assert(after.values() =~= tree.values().insert(v));
        },
        BinaryTree::Branch { value, left, right, .. } => {
            if v.rank() < value.rank() {
                if left is Some {
                    law_with_keeps_order(*left.unwrap(), v);
                }
                assert(BinaryTree::values_in(after->left) =~= BinaryTree::values_in(left).insert(
                    v,
                ));
                assert(after->right == right);
            } else if value.rank() < v.rank() {
                if right is Some {
                    law_with_keeps_order(*right.unwrap(), v);
                }
                assert(BinaryTree::values_in(after->right) =~= BinaryTree::values_in(right).insert(
                    v,
                ));
                assert(after->left == left);
            } else {
                V::rank_is_injective(value, v);
            }
            assert(after.values() =~= tree.values().insert(v));
        },
    }
}

/// A tree that grew from one value by putting values in is ordered at every
/// branch, and so at its top.
pub proof fn law_grown_is_ordered<V: Key>(first: V, more: Seq<V>)
    ensures
        AvlTree::grown(first, more).ordered(),
        AvlTree::grown(first, more).top_ordered(),
        AvlTree::grown(first, more).top() == first,
    decreases more.len(),
{
    if more.len() > 0 {
        law_grown_is_ordered(first, more.drop_last());
        law_with_keeps_order(AvlTree::grown(first, more.drop_last()), more.last());
    }
}

} // verus!
