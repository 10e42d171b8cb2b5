//! Copies of a multiway tree.

use crate::b_plus::{bounded_below, entries_ok, entry_ok, keys_of, ordered, BPlusTree};
use crate::key::Key;
use vstd::prelude::*;

verus! {

impl<T: Key> BPlusTree<T> {
    /// The two subtrees are alike node by node: each node has the fanout,
    /// the kind, the key and the separators of its counterpart.
    pub open spec fn mirrors(self, other: Self) -> bool
        decreases self,
    {
        &&& self.fanout == other.fanout
        &&& self.kind == other.kind
        &&& self.value == other.value
        &&& self.entries@.len() == other.entries@.len()
        &&& forall|i: int|
            0 <= i < self.entries@.len() ==> (#[trigger] self.entries@[i]).0 == other.entries@[i].0
                && self.entries@[i].1.mirrors(other.entries@[i].1)
    }
}

/// Entry by entry, the separators are equal and the children alike.
pub open spec fn entries_mirror<T: Key>(
    a: Seq<(T, BPlusTree<T>)>,
    b: Seq<(T, BPlusTree<T>)>,
) -> bool {
    &&& a.len() == b.len()
    &&& forall|i: int| 0 <= i < a.len() ==> (#[trigger] a[i]).0 == b[i].0 && a[i].1.mirrors(b[i].1)
}

/// Entries that are alike hold the same keys, and are valid and ordered
/// together.
pub proof fn lemma_entries_mirror<T: Key>(
    a: Seq<(T, BPlusTree<T>)>,
    b: Seq<(T, BPlusTree<T>)>,
    fanout: usize,
    h: nat,
)
    requires
        entries_mirror(a, b),
    ensures
        keys_of(a) == keys_of(b),
        entries_ok(a, fanout, h) == entries_ok(b, fanout, h),
        ordered(a) == ordered(b),
    decreases a, 0nat,
{
    reveal(BPlusTree::wf);
    assert forall|i: int| 0 <= i < a.len() implies a[i].1.keys() == b[i].1.keys() && entry_ok(
        #[trigger] a[i],
        fanout,
        h,
    ) == entry_ok(b[i], fanout, h) by {
        lemma_mirror(a[i].1, b[i].1);
    }
    if entries_ok(a, fanout, h) {
        assert forall|i: int| 0 <= i < b.len() implies entry_ok(#[trigger] b[i], fanout, h) by {
            assert(entry_ok(a[i], fanout, h));
        }
    }
    if entries_ok(b, fanout, h) {
        assert forall|i: int| 0 <= i < a.len() implies entry_ok(#[trigger] a[i], fanout, h) by {
            assert(entry_ok(b[i], fanout, h));
        }
    }
    if ordered(a) {
        assert forall|i: int, j: int| 0 <= i < j < b.len() implies bounded_below(
            (#[trigger] b[j]).1.keys(),
            (#[trigger] b[i]).0.rank(),
        ) by {
            assert(bounded_below(a[j].1.keys(), a[i].0.rank()));
        }
    }
    if ordered(b) {
        assert forall|i: int, j: int| 0 <= i < j < a.len() implies bounded_below(
            (#[trigger] a[j]).1.keys(),
            (#[trigger] a[i]).0.rank(),
        ) by {
            assert(bounded_below(b[j].1.keys(), b[i].0.rank()));
        }
    }
    if a.len() > 0 {
        assert forall|i: int| 0 <= i < a.drop_last().len() implies (#[trigger] a.drop_last()[i]).0
            == b.drop_last()[i].0 && a.drop_last()[i].1.mirrors(b.drop_last()[i].1) by {
            assert(a.drop_last()[i] == a[i]);
            assert(b.drop_last()[i] == b[i]);
        }
        lemma_entries_mirror(a.drop_last(), b.drop_last(), fanout, h);
        assert(a.last() == a[a.len() - 1]);
        assert(b.last() == b[b.len() - 1]);
    }
}

/// Subtrees that are alike hold the same keys, are of one height, and are
/// valid together.
pub proof fn lemma_mirror<T: Key>(a: BPlusTree<T>, b: BPlusTree<T>)
    requires
        a.mirrors(b),
    ensures
        a.keys() == b.keys(),
        a.height() == b.height(),
        a.wf() == b.wf(),
    decreases a, 1nat,
{
    reveal(BPlusTree::wf);
    if a.entries@.len() > 0 {
        lemma_mirror(a.entries@[0].1, b.entries@[0].1);
    }
    lemma_entries_mirror(a.entries@, b.entries@, a.fanout, a.child_height());
}

impl<T: Key> Clone for BPlusTree<T> {
    /// A copy of the whole subtree.
    fn clone(&self) -> (copy: Self)
        ensures
            copy.mirrors(*self),
            copy@ == self@,
            copy.height() == self.height(),
            copy.wf() == self.wf(),
        decreases self,
    {
        let mut entries: Vec<(T, BPlusTree<T>)> = Vec::new();
        let mut i: usize = 0;
        while i < self.entries.len()
            invariant
                i <= self.entries@.len(),
                entries@.len() == i,
                forall|j: int|
                    0 <= j < i ==> (#[trigger] entries@[j]).0 == self.entries@[j].0
                        && entries@[j].1.mirrors(self.entries@[j].1),
            decreases self.entries@.len() - i,
        {
            let child = self.entries[i].1.clone();
            entries.push((self.entries[i].0, child));
            i = i + 1;
        }
        let copy = BPlusTree { fanout: self.fanout, kind: self.kind, value: self.value, entries };
        proof {
            lemma_mirror(copy, *self);
        }
        copy
    }
}

} // verus!
