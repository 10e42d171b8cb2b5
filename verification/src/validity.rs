//! A check of the invariant of a multiway tree, node by node.

use crate::b_plus::{
    bounded_above, bounded_below, entries_ok, entry_ok, keys_of, lemma_keys_of_member, ordered,
    BPlusNodeType, BPlusTree,
};
use crate::insertion::lemma_last_separator_greatest;
use crate::key::Key;
use vstd::multiset::Multiset;
use vstd::prelude::*;

verus! {

/// `k` is a key of `keys`, and none comes before it.
pub open spec fn least<T: Key>(keys: Multiset<T>, k: T) -> bool {
    keys.contains(k) && bounded_below(keys, k.rank())
}

/// `k` is a key of `keys`, and none comes after it.
pub open spec fn greatest<T: Key>(keys: Multiset<T>, k: T) -> bool {
    keys.contains(k) && bounded_above(keys, k.rank())
}

impl<T: Key> BPlusTree<T> {
    /// Whether this subtree and `other` are of one height.
    pub fn same_height(&self, other: &Self) -> (same: bool)
        ensures
            same == (self.height() == other.height()),
    {
        let mut here: &Self = self;
        let mut there: &Self = other;
        loop
            invariant
                (here.height() == there.height()) == (self.height() == other.height()),
            decreases here.height(),
        {
            proof {
                reveal_with_fuel(BPlusTree::height, 2);
            }
            if here.is_leaf() {
                return there.is_leaf();
            }
            if there.is_leaf() {
                return false;
            }
            if here.entries.len() == 0 {
                return there.entries.len() == 0 || there.entries[0].1.is_leaf();
            }
            if there.entries.len() == 0 {
                return here.entries[0].1.is_leaf();
            }
            here = &here.entries[0].1;
            there = &there.entries[0].1;
        }
    }

    /// The least and the greatest key of this subtree, where it is valid and
    /// holds a key; `None` where it is not valid or holds none.
    pub fn measure(&self) -> (span: Option<(T, T)>)
        ensures
            span is Some <==> self.wf() && (self.kind is Leaf || self.entries@.len() >= 1),
            match span {
                Some((low, high)) => least(self@, low) && greatest(self@, high),
                None => true,
            },
        decreases self,
    {
        proof {
            reveal(BPlusTree::wf);
        }
        if self.fanout < 2 {
            return None;
        }
        if self.is_leaf() {
            if self.entries.len() != 0 {
                return None;
            }
            return match self.value {
                Some(v) => Some((v, v)),
                None => None,
            };
        }
        if self.value.is_some() || self.entries.len() == 0 || self.entries.len() > self.fanout {
            return None;
        }
        let ghost h = self.child_height();
        let mut low: T = self.entries[0].0;
        let mut last: T = self.entries[0].0;
        let mut i: usize = 0;
        while i < self.entries.len()
            invariant
                i <= self.entries@.len(),
                self.entries@.len() >= 1,
                h == self.child_height(),
                forall|j: int| 0 <= j < i ==> entry_ok(#[trigger] self.entries@[j], self.fanout, h),
                forall|a: int, b: int|
                    0 <= a < b < i ==> bounded_below(
                        (#[trigger] self.entries@[b]).1.keys(),
                        (#[trigger] self.entries@[a]).0.rank(),
                    ),
                forall|a: int| 0 <= a < i ==> (#[trigger] self.entries@[a]).0.rank() <= last.rank(),
                i > 0 ==> last == self.entries@[i - 1].0,
                i > 0 ==> least(self.entries@[0].1.keys(), low),
            decreases self.entries@.len() - i,
        {
            let separator: T = self.entries[i].0;
            let child = &self.entries[i].1;
            let ghost entry = self.entries@[i as int];
            if child.fanout != self.fanout || !child.same_height(&self.entries[0].1) {
                proof {
                    if self.wf() {
                        reveal(BPlusTree::wf);
                        assert(entry_ok(entry, self.fanout, h));
                    }
                }
                return None;
            }
            match child.kind {
                BPlusNodeType::Root => {
                    proof {
                        if self.wf() {
                            reveal(BPlusTree::wf);
                            assert(entry_ok(entry, self.fanout, h));
                        }
                    }
                    return None;
                },
                _ => {},
            }
            match child.measure() {
                None => {
                    proof {
                        if self.wf() {
                            reveal(BPlusTree::wf);
                            assert(entry_ok(entry, self.fanout, h));
                        }
                    }
                    return None;
                },
                Some((below, above)) => {
                    let agree = !above.precedes(&separator) && !separator.precedes(&above);
                    let follows = i == 0 || !below.precedes(&last);
                    if !agree || !follows {
                        proof {
                            if self.wf() {
                                reveal(BPlusTree::wf);
                                assert(entry_ok(entry, self.fanout, h));
                                if i > 0 {
                                    assert(bounded_below(
                                        self.entries@[i as int].1.keys(),
                                        self.entries@[i - 1].0.rank(),
                                    ));
                                }
                            }
                        }
                        return None;
                    }
                    proof {
                        reveal(BPlusTree::wf);
                        T::rank_is_injective(above, separator);
                        assert(entry.1@ == entry.1.keys());
                        assert(entry_ok(entry, self.fanout, h));
                        assert forall|a: int| 0 <= a < i implies bounded_below(
                            self.entries@[i as int].1.keys(),
                            (#[trigger] self.entries@[a]).0.rank(),
                        ) by {
                            assert(self.entries@[a].0.rank() <= last.rank());
                            assert(last.rank() <= below.rank());
                            assert(bounded_below(entry.1.keys(), below.rank()));
                        }
                    }
                    if i == 0 {
                        low = below;
                    }
                    last = separator;
                },
            }
            i = i + 1;
        }
        proof {
            let entries = self.entries@;
            assert(entries_ok(entries, self.fanout, h));
            assert(ordered(entries));
            lemma_last_separator_greatest(entries, self.fanout, h);
            lemma_keys_of_member(entries, low);
            assert(entry_ok(entries[0], self.fanout, h));
            assert forall|k: T| #[trigger] keys_of(entries).contains(k) implies low.rank()
                <= k.rank() by {
                lemma_keys_of_member(entries, k);
                let j = choose|j: int|
                    0 <= j < entries.len() && (#[trigger] entries[j]).1.keys().contains(k);
                if j > 0 {
                    assert(bounded_below(entries[j].1.keys(), entries[0].0.rank()));
                    assert(entries[0].1.keys().contains(entries[0].0));
                }
            }
        }
        Some((low, last))
    }

    /// Whether this subtree is valid.
    pub fn is_valid(&self) -> (valid: bool)
        ensures
            valid == self.wf(),
    {
        proof {
            reveal(BPlusTree::wf);
        }
        if !self.is_leaf() && self.entries.len() == 0 {
            let bare = match self.kind {
                BPlusNodeType::Root => true,
                _ => false,
            };
            self.fanout >= 2 && self.value.is_none() && bare
        } else {
            self.measure().is_some()
        }
    }
}

} // verus!
