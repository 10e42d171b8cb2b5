//! A fixed-fanout multiway search tree whose leaves all sit at one depth.

use crate::key::Key;
use vstd::multiset::Multiset;
use vstd::prelude::*;

verus! {

/// The fanout of a tree that was made without naming one.
pub const DEFAULT_FANOUT: usize = 10;

/// What a node is within its tree.
#[derive(Clone, Copy, Debug, PartialEq, Eq, Structural)]
pub enum BPlusNodeType {
    Root,
    Internal,
    Leaf,
}

/// A node together with the subtree below it. The tree as a whole is its
/// `Root` node.
#[derive(Debug, PartialEq, Eq)]
pub struct BPlusTree<T: Key> {
    /// The most entries a node of this tree may hold.
    pub fanout: usize,
    /// Whether this node is the root of its tree, a node between the root
    /// and the leaves, or a leaf.
    pub kind: BPlusNodeType,
    /// The key that a `Leaf` stands for; `None` on every other node.
    pub value: Option<T>,
    /// The children in ascending order, each beside the greatest key below it.
    pub entries: Vec<(T, BPlusTree<T>)>,
}

/// Every key of `keys` has rank at most `r`.
pub open spec fn bounded_above<T: Key>(keys: Multiset<T>, r: int) -> bool {
    forall|k: T| #[trigger] keys.contains(k) ==> k.rank() <= r
}

/// Every key of `keys` has rank at least `r`.
pub open spec fn bounded_below<T: Key>(keys: Multiset<T>, r: int) -> bool {
    forall|k: T| #[trigger] keys.contains(k) ==> r <= k.rank()
}

/// The separators never descend.
pub open spec fn ascending<T: Key>(entries: Seq<(T, BPlusTree<T>)>) -> bool {
    forall|i: int, j: int|
        0 <= i <= j < entries.len() ==> (#[trigger] entries[i]).0.rank() <= (
        #[trigger] entries[j]).0.rank()
}

/// The first position whose separator has rank `r` or more, and the length
/// where no separator has.
pub open spec fn first_reaching<T: Key>(entries: Seq<(T, BPlusTree<T>)>, r: int) -> int
    decreases entries.len(),
{
    if entries.len() == 0 || entries[0].0.rank() >= r {
        0
    } else {
        1 + first_reaching(entries.drop_first(), r)
    }
}

/// `first_reaching` is the one position that has only lesser separators
/// before it and a separator of rank `r` or more at it.
pub proof fn lemma_first_reaching_is<T: Key>(entries: Seq<(T, BPlusTree<T>)>, r: int, p: int)
    requires
        0 <= p <= entries.len(),
        forall|i: int| 0 <= i < p ==> (#[trigger] entries[i]).0.rank() < r,
        p < entries.len() ==> entries[p].0.rank() >= r,
    ensures
        first_reaching(entries, r) == p,
    decreases entries.len(),
{
    if p > 0 {
        let rest = entries.drop_first();
        assert(entries[0].0.rank() < r);
        assert forall|i: int| 0 <= i < p - 1 implies (#[trigger] rest[i]).0.rank() < r by {
            assert(rest[i] == entries[i + 1]);
        }
        lemma_first_reaching_is(rest, r, p - 1);
    }
}

/// What `first_reaching` says of the separators on either side of it.
pub proof fn lemma_first_reaching_bounds<T: Key>(entries: Seq<(T, BPlusTree<T>)>, r: int)
    ensures
        0 <= first_reaching(entries, r) <= entries.len(),
        forall|i: int|
            0 <= i < first_reaching(entries, r) ==> (#[trigger] entries[i]).0.rank() < r,
        first_reaching(entries, r) < entries.len() ==> entries[first_reaching(entries, r)].0.rank()
            >= r,
        ascending(entries) ==> forall|i: int|
            first_reaching(entries, r) <= i < entries.len() ==> (#[trigger] entries[i]).0.rank()
                >= r,
    decreases entries.len(),
{
    if !(entries.len() == 0 || entries[0].0.rank() >= r) {
        let rest = entries.drop_first();
        lemma_first_reaching_bounds(rest, r);
        let p = first_reaching(entries, r);
        assert forall|i: int| 0 <= i < p implies (#[trigger] entries[i]).0.rank() < r by {
            if i > 0 {
                assert(entries[i] == rest[i - 1]);
            }
        }
        if p < entries.len() {
            assert(entries[p] == rest[p - 1]);
        }
    }
    if ascending(entries) {
        let p = first_reaching(entries, r);
        assert forall|i: int| p <= i < entries.len() implies (#[trigger] entries[i]).0.rank()
            >= r by {
            assert(entries[p].0.rank() <= entries[i].0.rank());
        }
    }
}

/// The keys held below a run of entries.
pub open spec fn keys_of<T: Key>(entries: Seq<(T, BPlusTree<T>)>) -> Multiset<T>
    decreases entries,
{
    if entries.len() == 0 {
        Multiset::empty()
    } else {
        keys_of(entries.drop_last()).add(entries.last().1.keys())
    }
}

/// Appending an entry adds the keys below it.
pub proof fn lemma_keys_of_push<T: Key>(entries: Seq<(T, BPlusTree<T>)>, e: (T, BPlusTree<T>))
    ensures
        keys_of(entries.push(e)) == keys_of(entries).add(e.1.keys()),
{
    assert(entries.push(e).drop_last() =~= entries);
}

/// The keys below a concatenation are those below its two parts.
pub proof fn lemma_keys_of_concat<T: Key>(
    a: Seq<(T, BPlusTree<T>)>,
    b: Seq<(T, BPlusTree<T>)>,
)
    ensures
        keys_of(a + b) == keys_of(a).add(keys_of(b)),
    decreases b.len(),
{
    if b.len() == 0 {
        assert(a + b =~= a);
        assert(keys_of(a).add(keys_of(b)) =~= keys_of(a));
    } else {
        lemma_keys_of_concat(a, b.drop_last());
        assert((a + b).drop_last() =~= a + b.drop_last());
        assert(keys_of(a + b) =~= keys_of(a).add(keys_of(b)));
    }
}

/// A key lies below a run of entries exactly if it lies below one of them.
pub proof fn lemma_keys_of_member<T: Key>(entries: Seq<(T, BPlusTree<T>)>, k: T)
    ensures
        keys_of(entries).contains(k) <==> exists|j: int|
            0 <= j < entries.len() && (#[trigger] entries[j]).1.keys().contains(k),
    decreases entries.len(),
{
    if entries.len() > 0 {
        let front = entries.drop_last();
        lemma_keys_of_member(front, k);
        if keys_of(entries).contains(k) {
            if entries.last().1.keys().contains(k) {
                assert(entries[entries.len() - 1].1.keys().contains(k));
            } else {
                let j = choose|j: int|
                    0 <= j < front.len() && (#[trigger] front[j]).1.keys().contains(k);
                assert(entries[j].1.keys().contains(k));
            }
        }
        if exists|j: int| 0 <= j < entries.len() && (#[trigger] entries[j]).1.keys().contains(k) {
            let j = choose|j: int|
                0 <= j < entries.len() && (#[trigger] entries[j]).1.keys().contains(k);
            if j < front.len() {
                assert(front[j].1.keys().contains(k));
            }
        }
    }
}

/// What a node of the given fanout, over children of height `h`, asks of one
/// of its entries.
pub open spec fn entry_ok<T: Key>(e: (T, BPlusTree<T>), fanout: usize, h: nat) -> bool
    decreases e,
{
    &&& e.1.wf()
    &&& e.1.fanout == fanout
    &&& !(e.1.kind is Root)
    &&& e.1.height() == h
    &&& e.1.keys().contains(e.0)
    &&& bounded_above(e.1.keys(), e.0.rank())
}

/// Each entry is one that such a node may hold.
pub open spec fn entries_ok<T: Key>(entries: Seq<(T, BPlusTree<T>)>, fanout: usize, h: nat) -> bool
    decreases entries,
{
    forall|i: int| 0 <= i < entries.len() ==> entry_ok(#[trigger] entries[i], fanout, h)
}

/// No key below a later entry is less than an earlier separator.
pub open spec fn ordered<T: Key>(entries: Seq<(T, BPlusTree<T>)>) -> bool {
    forall|i: int, j: int|
        0 <= i < j < entries.len() ==> bounded_below(
            (#[trigger] entries[j]).1.keys(),
            (#[trigger] entries[i]).0.rank(),
        )
}

/// No key of `a` comes after a key of `b`.
pub open spec fn precedes_all<T: Key>(a: Multiset<T>, b: Multiset<T>) -> bool {
    forall|x: T, y: T| #[trigger] a.contains(x) && #[trigger] b.contains(y) ==> x.rank() <= y.rank()
}

impl<T: Key> View for BPlusTree<T> {
    type V = Multiset<T>;

    /// A tree is seen as the keys that it holds.
    open spec fn view(&self) -> Multiset<T> {
        self.keys()
    }
}

impl<T: Key> BPlusTree<T> {
    /// The keys stored in the leaves of this subtree, each as often as it was
    /// inserted.
    pub open spec fn keys(self) -> Multiset<T>
        decreases self,
    {
        match self.kind {
            BPlusNodeType::Leaf => match self.value {
                Some(v) => Multiset::singleton(v),
                None => Multiset::empty(),
            },
            _ => keys_of(self.entries@),
        }
    }

    /// The number of levels below this node: 0 for a leaf.
    pub open spec fn height(self) -> nat
        decreases self,
    {
        if self.kind is Leaf {
            0
        } else if self.entries@.len() == 0 {
            1
        } else {
            1 + self.entries@[0].1.height()
        }
    }

    /// The height of this node's children: 0 where it has none.
    pub open spec fn child_height(self) -> nat
        decreases self,
    {
        if self.entries@.len() == 0 {
            0
        } else {
            self.entries@[0].1.height()
        }
    }

    /// The invariant of a subtree: a leaf holds a key and no entry; any other
    /// node holds at most `fanout` entries (an internal node at least one),
    /// whose children are valid subtrees of one height and one fanout, none of
    /// them a root; each separator is the greatest key below its child, and no
    /// key below a later child is less than an earlier separator. Folded until
    /// revealed.
    #[verifier::opaque]
    pub open spec fn wf(self) -> bool
        decreases self,
    {
        &&& self.fanout >= 2
        &&& if self.kind is Leaf {
            &&& self.entries@.len() == 0
            &&& self.value is Some
        } else {
            &&& self.value is None
            &&& self.entries@.len() <= self.fanout
            &&& (self.kind is Internal ==> self.entries@.len() >= 1)
            &&& entries_ok(self.entries@, self.fanout, self.child_height())
            &&& ordered(self.entries@)
        }
    }

    /// A leaf that stands for `data`, in a tree of the default fanout.
    pub fn leaf(data: T) -> (node: Self)
        ensures
            node.wf(),
            node.kind is Leaf,
            node.fanout == DEFAULT_FANOUT,
            node.value == Some(data),
            node.entries@.len() == 0,
            node@ == Multiset::singleton(data),
            node.height() == 0,
    {
        Self::leaf_holding(data, DEFAULT_FANOUT)
    }

    /// A leaf that stands for `value`, in a tree of the given fanout.
    pub fn leaf_holding(value: T, fanout: usize) -> (node: Self)
        requires
            fanout >= 2,
        ensures
            node.wf(),
            node.kind is Leaf,
            node.fanout == fanout,
            node.value == Some(value),
            node.entries@.len() == 0,
            node@ == Multiset::singleton(value),
            node.height() == 0,
    {
        proof {
            reveal(BPlusTree::wf);
        }
        BPlusTree { fanout, kind: BPlusNodeType::Leaf, value: Some(value), entries: Vec::new() }
    }

    /// A tree of the default fanout that holds no key.
    pub fn empty() -> (tree: Self)
        ensures
            tree.wf(),
            tree.kind is Root,
            tree.fanout == DEFAULT_FANOUT,
            tree.value is None,
            tree.entries@.len() == 0,
            tree@ == Multiset::<T>::empty(),
            tree.height() == 1,
    {
        Self::with_fanout(DEFAULT_FANOUT)
    }

    /// A tree of the default fanout that holds no key.
    pub fn create() -> (tree: Self)
        ensures
            tree.wf(),
            tree.kind is Root,
            tree.fanout == DEFAULT_FANOUT,
            tree.value is None,
            tree.entries@.len() == 0,
            tree@ == Multiset::<T>::empty(),
            tree.height() == 1,
    {
        Self::empty()
    }

    /// A tree of the given fanout that holds no key.
    pub fn with_fanout(fanout: usize) -> (tree: Self)
        requires
            fanout >= 2,
        ensures
            tree.wf(),
            tree.kind is Root,
            tree.fanout == fanout,
            tree.value is None,
            tree.entries@.len() == 0,
            tree@ == Multiset::<T>::empty(),
            tree.height() == 1,
    {
        proof {
            reveal(BPlusTree::wf);
        }
        BPlusTree { fanout, kind: BPlusNodeType::Root, value: None, entries: Vec::new() }
    }

    /// An internal node over the first `fanout` of the given entries.
    pub fn internal_from(entries: Vec<(T, BPlusTree<T>)>, fanout: usize) -> (node: Self)
        ensures
            node.kind is Internal,
            node.fanout == fanout,
            node.value is None,
            entries@.len() <= fanout ==> node.entries@ == entries@,
            entries@.len() > fanout ==> node.entries@ == entries@.subrange(0, fanout as int),
    {
        let mut entries = entries;
        entries.truncate(fanout);
        BPlusTree { fanout, kind: BPlusNodeType::Internal, value: None, entries }
    }

    /// The number of entries in this node.
    pub fn used_capacity(&self) -> (used: usize)
        ensures
            used == self.entries@.len(),
    {
        self.entries.len()
    }

    /// The position at which this node is split.
    pub fn median_index(&self) -> (m: usize)
        ensures
            m == self.entries@.len() / 2,
    {
        self.used_capacity() / 2
    }

    /// The separator at the position at which this node is split.
    pub fn median(&self) -> (separator: T)
        requires
            self.entries@.len() >= 1,
        ensures
            separator == self.entries@[self.entries@.len() as int / 2].0,
    {
        self.entries[self.median_index()].0
    }

    /// The first position whose separator is `value` or more (with `beyond`:
    /// is more than `value`), found by bisection.
    pub fn position_reaching(&self, value: &T, beyond: bool) -> (p: usize)
        requires
            ascending(self.entries@),
        ensures
            p == first_reaching(
                self.entries@,
                if beyond {
                    value.rank() + 1
                } else {
                    value.rank()
                },
            ),
            p <= self.entries@.len(),
    {
        let ghost r = if beyond {
            value.rank() + 1
        } else {
            value.rank()
        };
        let mut lo: usize = 0;
        let mut hi: usize = self.entries.len();
        while lo < hi
            invariant
                lo <= hi <= self.entries@.len(),
                ascending(self.entries@),
                r == if beyond {
                    value.rank() + 1
                } else {
                    value.rank()
                },
                forall|i: int| 0 <= i < lo ==> (#[trigger] self.entries@[i]).0.rank() < r,
                forall|i: int|
                    hi <= i < self.entries@.len() ==> (#[trigger] self.entries@[i]).0.rank() >= r,
            decreases hi - lo,
        {
            let mid: usize = lo + (hi - lo) / 2;
            let separator: T = self.entries[mid].0;
            let reaches = if beyond {
                value.precedes(&separator)
            } else {
                !separator.precedes(value)
            };
            if reaches {
                assert forall|i: int| mid <= i < self.entries@.len() implies (
                #[trigger] self.entries@[i]).0.rank() >= r by {
                    assert(self.entries@[mid as int].0.rank() <= self.entries@[i].0.rank());
                }
                hi = mid;
            } else {
                assert forall|i: int| 0 <= i < mid + 1 implies (
                #[trigger] self.entries@[i]).0.rank() < r by {
                    assert(self.entries@[i].0.rank() <= self.entries@[mid as int].0.rank());
                }
                lo = mid + 1;
            }
        }
        proof {
            lemma_first_reaching_is(self.entries@, r, lo as int);
        }
        lo
    }

    /// Puts `entry` where the separators stay in ascending order, behind the
    /// entries whose separator equals its own.
    pub fn insert_entry(&mut self, entry: (T, BPlusTree<T>))
        requires
            old(self).entries@.len() < old(self).fanout,
            ascending(old(self).entries@),
        ensures
            final(self).entries@ == old(self).entries@.insert(
                first_reaching(old(self).entries@, entry.0.rank() + 1),
                entry,
            ),
            ascending(final(self).entries@),
            final(self).fanout == old(self).fanout,
            final(self).kind == old(self).kind,
            final(self).value == old(self).value,
    {
        let at = self.position_reaching(&entry.0, true);
        proof {
            lemma_first_reaching_bounds(self.entries@, entry.0.rank() + 1);
        }
        self.entries.insert(at, entry);
        proof {
            let before = old(self).entries@;
            let after = self.entries@;
            assert forall|i: int, j: int| 0 <= i <= j < after.len() implies (
            #[trigger] after[i]).0.rank() <= (#[trigger] after[j]).0.rank() by {
                if i < at && j > at {
                    assert(after[i] == before[i]);
                    assert(after[j] == before[j - 1]);
                } else if i < at && j < at {
                    assert(after[i] == before[i]);
                    assert(after[j] == before[j]);
                } else if i > at {
                    assert(after[i] == before[i - 1]);
                    assert(after[j] == before[j - 1]);
                } else if i < at {
                    assert(after[i] == before[i]);
                } else if j > at {
                    assert(after[j] == before[j - 1]);
                }
            }
        }
    }

    /// Moves the entries out of this node into two new nodes of its kind: those
    /// before the median position, and the rest.
    pub fn split(&mut self) -> (halves: (Self, Self))
        ensures
            final(self).entries@.len() == 0,
            final(self).fanout == old(self).fanout,
            final(self).kind == old(self).kind,
            final(self).value == old(self).value,
            halves.0.entries@ == old(self).entries@.subrange(
                0,
                old(self).entries@.len() as int / 2,
            ),
            halves.1.entries@ == old(self).entries@.subrange(
                old(self).entries@.len() as int / 2,
                old(self).entries@.len() as int,
            ),
            halves.0.fanout == old(self).fanout,
            halves.1.fanout == old(self).fanout,
            halves.0.kind == old(self).kind,
            halves.1.kind == old(self).kind,
            halves.0.value == old(self).value,
            halves.1.value == old(self).value,
    {
        let m = self.median_index();
        let right_entries = self.entries.split_off(m);
        let mut left_entries: Vec<(T, BPlusTree<T>)> = Vec::new();
        std::mem::swap(&mut self.entries, &mut left_entries);
        let left = BPlusTree {
            fanout: self.fanout,
            kind: self.kind,
            value: self.value,
            entries: left_entries,
        };
        let right = BPlusTree {
            fanout: self.fanout,
            kind: self.kind,
            value: self.value,
            entries: right_entries,
        };
        (left, right)
    }
}

} // verus!
