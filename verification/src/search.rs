//! Lookup in a multiway tree by descent along the separators.

use crate::b_plus::{
    bounded_above, bounded_below, entries_ok, entry_ok, keys_of, lemma_keys_of_member, ordered,
    BPlusTree,
};
use crate::insertion::lemma_ordered_ascending;
use crate::key::Key;
use crate::traversal::lemma_nodes_of_child;
use vstd::multiset::Multiset;
use vstd::prelude::*;

verus! {

/// `k` is the key of `keys` that a search for `value` ends at: the least key
/// that is `value` or more, and the greatest key where there is none.
pub open spec fn nearest<T: Key>(keys: Multiset<T>, value: T, k: T) -> bool {
    &&& keys.contains(k)
    &&& if k.rank() >= value.rank() {
        forall|x: T| #[trigger]
            keys.contains(x) && x.rank() >= value.rank() ==> k.rank() <= x.rank()
    } else {
        bounded_above(keys, k.rank())
    }
}

/// The key that a search ends at below the entry under which the separators
/// place `value` is the key that it ends at among all the entries.
pub proof fn lemma_search_step<T: Key>(
    entries: Seq<(T, BPlusTree<T>)>,
    fanout: usize,
    h: nat,
    i: int,
    value: T,
    k: T,
)
    requires
        entries_ok(entries, fanout, h),
        ordered(entries),
        0 <= i < entries.len(),
        forall|j: int| 0 <= j < i ==> (#[trigger] entries[j]).0.rank() < value.rank(),
        i < entries.len() - 1 ==> entries[i].0.rank() >= value.rank(),
        nearest(entries[i].1.keys(), value, k),
    ensures
        nearest(keys_of(entries), value, k),
{
    let all = keys_of(entries);
    lemma_keys_of_member(entries, k);
    lemma_ordered_ascending(entries, fanout, h);
    assert(entry_ok(entries[i], fanout, h));
    if k.rank() >= value.rank() {
        assert forall|x: T| #[trigger] all.contains(x) && x.rank() >= value.rank() implies k.rank()
            <= x.rank() by {
            lemma_keys_of_member(entries, x);
            let j = choose|j: int|
                0 <= j < entries.len() && (#[trigger] entries[j]).1.keys().contains(x);
            assert(entry_ok(entries[j], fanout, h));
            if j > i {
                assert(bounded_below(entries[j].1.keys(), entries[i].0.rank()));
            }
        }
    } else {
        assert(entries[i].1.keys().contains(entries[i].0));
        assert forall|x: T| #[trigger] all.contains(x) implies x.rank() <= k.rank() by {
            lemma_keys_of_member(entries, x);
            let j = choose|j: int|
                0 <= j < entries.len() && (#[trigger] entries[j]).1.keys().contains(x);
            assert(entry_ok(entries[j], fanout, h));
            assert(entries[j].0.rank() <= entries[entries.len() - 1].0.rank());
        }
    }
}

/// A search for a key that is held ends at that key.
pub proof fn law_search_finds_held<T: Key>(keys: Multiset<T>, value: T, k: T)
    requires
        keys.contains(value),
        nearest(keys, value, k),
    ensures
        k == value,
{
    T::rank_is_injective(k, value);
}

impl<T: Key> BPlusTree<T> {
    /// The leaf that a search for `value` ends at: that of the least key that
    /// is `value` or more, and that of the greatest key where there is none.
    /// A tree without keys has no such leaf.
    pub fn search(&self, value: T) -> (found: Option<&Self>)
        requires
            self.wf(),
        ensures
            found is None <==> self@ == Multiset::<T>::empty(),
            found is None <==> !(self.kind is Leaf) && self.entries@.len() == 0,
            match found {
                Some(leaf) => {
                    &&& leaf.wf()
                    &&& leaf.kind is Leaf
                    &&& leaf.fanout == self.fanout
                    &&& leaf.value is Some
                    &&& nearest(self@, value, leaf.value.unwrap())
                    &&& self.nodes().contains(*leaf)
                },
                None => true,
            },
    {
        proof {
            reveal(BPlusTree::wf);
        }
        if !self.is_leaf() && self.entries.len() == 0 {
            return None;
        }
        proof {
            if !(self.kind is Leaf) {
                assert(entry_ok(self.entries@[0], self.fanout, self.child_height()));
                lemma_keys_of_member(self.entries@, self.entries@[0].0);
            }
        }
        let mut current: &Self = self;
        while !current.is_leaf()
            invariant
                current.wf(),
                current.fanout == self.fanout,
                current.kind is Leaf || current.entries@.len() >= 1,
                forall|k: T| #[trigger]
                    nearest(current.keys(), value, k) ==> nearest(self.keys(), value, k),
                forall|x: BPlusTree<T>| #[trigger]
                    current.nodes().contains(x) ==> self.nodes().contains(x),
            decreases current.height(),
        {
            let i = current.route_to(&value);
            let ghost above = current;
            proof {
                reveal(BPlusTree::wf);
                assert(entry_ok(above.entries@[i as int], above.fanout, above.child_height()));
                assert(entry_ok(above.entries@[0], above.fanout, above.child_height()));
                assert forall|k: T| #[trigger]
                    nearest(above.entries@[i as int].1.keys(), value, k) implies nearest(
                    self.keys(),
                    value,
                    k,
                ) by {
                    lemma_search_step(
                        above.entries@,
                        above.fanout,
                        above.child_height(),
                        i as int,
                        value,
                        k,
                    );
                    assert(nearest(above.keys(), value, k));
                }
                let below = above.entries@[i as int].1;
                assert forall|x: BPlusTree<T>| #[trigger]
                    below.nodes().contains(x) implies self.nodes().contains(x) by {
                    let t = choose|t: int| 0 <= t < below.nodes().len() && below.nodes()[t] == x;
                    let at = lemma_nodes_of_child(above.entries@, i as int, t);
                    assert(above.nodes()[at + 1] == x);
                    assert(above.nodes().contains(x));
                }
            }
            current = &current.entries[i].1;
        }
        proof {
            reveal(BPlusTree::wf);
            let k = current.value.unwrap();
            assert(current.nodes()[0] == *current);
            assert(current.nodes().contains(*current));
            assert(current.keys() =~= Multiset::singleton(k));
            assert(nearest(current.keys(), value, k));
        }
        Some(current)
    }
}

} // verus!
