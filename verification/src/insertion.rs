//! Insertion into a multiway tree: a full node splits at its median and hands
//! the upper half to its parent; a full root grows a level instead.

use crate::b_plus::{
    ascending, bounded_above, bounded_below, entries_ok, entry_ok, first_reaching, keys_of,
    lemma_first_reaching_bounds, lemma_keys_of_concat, lemma_keys_of_member, ordered,
    precedes_all, BPlusNodeType, BPlusTree,
};
use crate::key::Key;
use vstd::multiset::Multiset;
use vstd::prelude::*;

verus! {

/// Where a full node of `len` entries that takes one more at position `at` is
/// cut in two: behind the median position, and one further where the new
/// entry stands at or before it.
pub open spec fn cut_after(len: int, at: int) -> int {
    if at <= len / 2 {
        len / 2 + 1
    } else {
        len / 2
    }
}

/// `entry` may stand at position `at`: no key below it is less than a
/// separator before that position, and no key below an entry from that
/// position on is less than its separator.
pub open spec fn fits<T: Key>(
    entries: Seq<(T, BPlusTree<T>)>,
    at: int,
    entry: (T, BPlusTree<T>),
) -> bool {
    &&& 0 <= at <= entries.len()
    &&& forall|j: int|
        0 <= j < at ==> bounded_below(entry.1.keys(), (#[trigger] entries[j]).0.rank())
    &&& forall|j: int|
        at <= j < entries.len() ==> bounded_below(
            (#[trigger] entries[j]).1.keys(),
            entry.0.rank(),
        )
}

/// The separators of valid, ordered entries never descend.
pub proof fn lemma_ordered_ascending<T: Key>(
    entries: Seq<(T, BPlusTree<T>)>,
    fanout: usize,
    h: nat,
)
    requires
        entries_ok(entries, fanout, h),
        ordered(entries),
    ensures
        ascending(entries),
{
    assert forall|i: int, j: int| 0 <= i <= j < entries.len() implies (
    #[trigger] entries[i]).0.rank() <= (#[trigger] entries[j]).0.rank() by {
        if i < j {
            assert(entry_ok(entries[j], fanout, h));
            assert(bounded_below(entries[j].1.keys(), entries[i].0.rank()));
            assert(entries[j].1.keys().contains(entries[j].0));
        }
    }
}

/// A stretch of valid, ordered entries is valid and ordered.
pub proof fn lemma_subrange_ok<T: Key>(
    entries: Seq<(T, BPlusTree<T>)>,
    fanout: usize,
    h: nat,
    from: int,
    to: int,
)
    requires
        entries_ok(entries, fanout, h),
        ordered(entries),
        0 <= from <= to <= entries.len(),
    ensures
        entries_ok(entries.subrange(from, to), fanout, h),
        ordered(entries.subrange(from, to)),
{
    let part = entries.subrange(from, to);
    assert forall|i: int| 0 <= i < part.len() implies entry_ok(#[trigger] part[i], fanout, h) by {
        assert(part[i] == entries[i + from]);
    }
    assert forall|i: int, j: int| 0 <= i < j < part.len() implies bounded_below(
        (#[trigger] part[j]).1.keys(),
        (#[trigger] part[i]).0.rank(),
    ) by {
        assert(part[i] == entries[i + from]);
        assert(part[j] == entries[j + from]);
    }
}

/// An entry put where it fits leaves the entries valid and ordered, and adds
/// the keys below it.
pub proof fn lemma_insert_ok<T: Key>(
    entries: Seq<(T, BPlusTree<T>)>,
    fanout: usize,
    h: nat,
    at: int,
    entry: (T, BPlusTree<T>),
)
    requires
        entries_ok(entries, fanout, h),
        ordered(entries),
        entry_ok(entry, fanout, h),
        fits(entries, at, entry),
    ensures
        entries_ok(entries.insert(at, entry), fanout, h),
        ordered(entries.insert(at, entry)),
        keys_of(entries.insert(at, entry)) == keys_of(entries).add(entry.1.keys()),
{
    let after = entries.insert(at, entry);
    assert forall|i: int| 0 <= i < after.len() implies entry_ok(#[trigger] after[i], fanout, h) by {
        if i < at {
            assert(after[i] == entries[i]);
        } else if i > at {
            assert(after[i] == entries[i - 1]);
        }
    }
    assert forall|i: int, j: int| 0 <= i < j < after.len() implies bounded_below(
        (#[trigger] after[j]).1.keys(),
        (#[trigger] after[i]).0.rank(),
    ) by {
        if j < at {
            assert(after[i] == entries[i]);
            assert(after[j] == entries[j]);
        } else if j == at {
            assert(after[i] == entries[i]);
        } else if i < at {
            assert(after[i] == entries[i]);
            assert(after[j] == entries[j - 1]);
        } else if i == at {
            assert(after[j] == entries[j - 1]);
        } else {
            assert(after[i] == entries[i - 1]);
            assert(after[j] == entries[j - 1]);
        }
    }
    let front = entries.subrange(0, at);
    let back = entries.subrange(at, entries.len() as int);
    assert(entries =~= front + back);
    assert(after =~= front.push(entry) + back);
    lemma_keys_of_concat(front, back);
    lemma_keys_of_concat(front.push(entry), back);
    crate::b_plus::lemma_keys_of_push(front, entry);
    assert(keys_of(after) =~= keys_of(entries).add(entry.1.keys()));
}

/// Where valid, ordered entries are cut in two, no key of the first part
/// comes after a key of the second, and the two parts hold all the keys.
pub proof fn lemma_cut<T: Key>(entries: Seq<(T, BPlusTree<T>)>, fanout: usize, h: nat, m: int)
    requires
        entries_ok(entries, fanout, h),
        ordered(entries),
        0 <= m <= entries.len(),
    ensures
        precedes_all(
            keys_of(entries.subrange(0, m)),
            keys_of(entries.subrange(m, entries.len() as int)),
        ),
        keys_of(entries) == keys_of(entries.subrange(0, m)).add(
            keys_of(entries.subrange(m, entries.len() as int)),
        ),
{
    let front = entries.subrange(0, m);
    let back = entries.subrange(m, entries.len() as int);
    assert(entries =~= front + back);
    lemma_keys_of_concat(front, back);
    assert forall|x: T, y: T| #[trigger]
        keys_of(front).contains(x) && #[trigger] keys_of(back).contains(y) implies x.rank()
        <= y.rank() by {
        lemma_keys_of_member(front, x);
        lemma_keys_of_member(back, y);
        let i = choose|i: int| 0 <= i < front.len() && (#[trigger] front[i]).1.keys().contains(x);
        let j = choose|j: int| 0 <= j < back.len() && (#[trigger] back[j]).1.keys().contains(y);
        assert(front[i] == entries[i]);
        assert(back[j] == entries[j + m]);
        assert(entry_ok(entries[i], fanout, h));
        assert(bounded_below(entries[j + m].1.keys(), entries[i].0.rank()));
    }
}

/// The last separator of valid, ordered entries is the greatest key below
/// them.
pub proof fn lemma_last_separator_greatest<T: Key>(
    entries: Seq<(T, BPlusTree<T>)>,
    fanout: usize,
    h: nat,
)
    requires
        entries_ok(entries, fanout, h),
        ordered(entries),
        entries.len() >= 1,
    ensures
        keys_of(entries).contains(entries.last().0),
        bounded_above(keys_of(entries), entries.last().0.rank()),
{
    let last = entries.len() - 1;
    assert(entry_ok(entries[last], fanout, h));
    lemma_keys_of_member(entries, entries.last().0);
    lemma_ordered_ascending(entries, fanout, h);
    assert forall|k: T| #[trigger] keys_of(entries).contains(k) implies k.rank()
        <= entries.last().0.rank() by {
        lemma_keys_of_member(entries, k);
        let j = choose|j: int|
            0 <= j < entries.len() && (#[trigger] entries[j]).1.keys().contains(k);
        assert(entry_ok(entries[j], fanout, h));
        assert(entries[j].0.rank() <= entries[last].0.rank());
    }
}

/// A key of one of two parts is a key of the whole.
pub proof fn lemma_part_of_taken<T: Key>(
    part: Multiset<T>,
    spill: Multiset<T>,
    base: Multiset<T>,
    value: T,
    k: T,
)
    requires
        part.add(spill) == base.insert(value),
        part.contains(k) || spill.contains(k),
    ensures
        k == value || base.contains(k),
{
    assert(part.add(spill).count(k) == part.count(k) + spill.count(k));
    assert(part.add(spill).count(k) > 0);
    assert(base.insert(value).count(k) > 0);
    if k != value {
        assert(base.insert(value).count(k) == base.count(k));
    }
}

/// What a step down into the child at `i` leaves behind: the child, changed
/// into `slot`, took `value` in, with `spill` the keys that it gave up to a
/// new sibling (none, where it did not split). The entries stay valid and
/// ordered, and gain `value`.
pub proof fn lemma_descend<T: Key>(
    before: Seq<(T, BPlusTree<T>)>,
    fanout: usize,
    h: nat,
    i: int,
    value: T,
    slot: (T, BPlusTree<T>),
    spill: Multiset<T>,
)
    requires
        entries_ok(before, fanout, h),
        ordered(before),
        0 <= i < before.len(),
        forall|j: int| 0 <= j < i ==> (#[trigger] before[j]).0.rank() < value.rank(),
        i < before.len() - 1 ==> before[i].0.rank() >= value.rank(),
        entry_ok(slot, fanout, h),
        slot.1.keys().add(spill) == before[i].1.keys().insert(value),
    ensures
        entries_ok(before.update(i, slot), fanout, h),
        ordered(before.update(i, slot)),
        keys_of(before.update(i, slot)).add(spill) == keys_of(before).insert(value),
{
    let after = before.update(i, slot);
    assert(entry_ok(before[i], fanout, h));
    assert forall|j: int| 0 <= j < after.len() implies entry_ok(#[trigger] after[j], fanout, h) by {
        if j != i {
            assert(after[j] == before[j]);
        }
    }
    assert forall|a: int, b: int| 0 <= a < b < after.len() implies bounded_below(
        (#[trigger] after[b]).1.keys(),
        (#[trigger] after[a]).0.rank(),
    ) by {
        if b == i {
            assert(after[a] == before[a]);
            assert(bounded_below(before[i].1.keys(), before[a].0.rank()));
            assert forall|k: T| #[trigger] slot.1.keys().contains(k) implies before[a].0.rank()
                <= k.rank() by {
                lemma_part_of_taken(slot.1.keys(), spill, before[i].1.keys(), value, k);
            }
        } else if a == i {
            assert(after[b] == before[b]);
            assert(bounded_below(before[b].1.keys(), before[i].0.rank()));
            lemma_part_of_taken(slot.1.keys(), spill, before[i].1.keys(), value, slot.0);
            assert(slot.0.rank() <= before[i].0.rank());
        } else {
            assert(after[a] == before[a]);
            assert(after[b] == before[b]);
        }
    }
    let front = before.subrange(0, i);
    let back = before.subrange(i + 1, before.len() as int);
    assert(before =~= front.push(before[i]) + back);
    assert(after =~= front.push(slot) + back);
    lemma_keys_of_concat(front.push(before[i]), back);
    lemma_keys_of_concat(front.push(slot), back);
    crate::b_plus::lemma_keys_of_push(front, before[i]);
    crate::b_plus::lemma_keys_of_push(front, slot);
    assert(keys_of(after).add(spill) =~= keys_of(front).add(slot.1.keys().add(spill)).add(
        keys_of(back),
    ));
    assert(keys_of(after).add(spill) =~= keys_of(before).insert(value));
}

/// After such a step down, the sibling that the child handed out fits right
/// behind it.
pub proof fn lemma_sibling_fits<T: Key>(
    before: Seq<(T, BPlusTree<T>)>,
    fanout: usize,
    h: nat,
    i: int,
    value: T,
    slot: (T, BPlusTree<T>),
    sibling: (T, BPlusTree<T>),
)
    requires
        entries_ok(before, fanout, h),
        ordered(before),
        0 <= i < before.len(),
        forall|j: int| 0 <= j < i ==> (#[trigger] before[j]).0.rank() < value.rank(),
        i < before.len() - 1 ==> before[i].0.rank() >= value.rank(),
        entry_ok(slot, fanout, h),
        entry_ok(sibling, fanout, h),
        precedes_all(slot.1.keys(), sibling.1.keys()),
        slot.1.keys().add(sibling.1.keys()) == before[i].1.keys().insert(value),
    ensures
        fits(before.update(i, slot), i + 1, sibling),
{
    let after = before.update(i, slot);
    assert(entry_ok(before[i], fanout, h));
    assert forall|j: int| 0 <= j < i + 1 implies bounded_below(
        sibling.1.keys(),
        (#[trigger] after[j]).0.rank(),
    ) by {
        assert forall|k: T| #[trigger] sibling.1.keys().contains(k) implies after[j].0.rank()
            <= k.rank() by {
            lemma_part_of_taken(slot.1.keys(), sibling.1.keys(), before[i].1.keys(), value, k);
            if j < i {
                assert(after[j] == before[j]);
                assert(bounded_below(before[i].1.keys(), before[j].0.rank()));
            } else {
                assert(slot.1.keys().contains(slot.0));
            }
        }
    }
    assert forall|j: int| i + 1 <= j < after.len() implies bounded_below(
        (#[trigger] after[j]).1.keys(),
        sibling.0.rank(),
    ) by {
        assert(after[j] == before[j]);
        assert(bounded_below(before[j].1.keys(), before[i].0.rank()));
        lemma_part_of_taken(
            slot.1.keys(),
            sibling.1.keys(),
            before[i].1.keys(),
            value,
            sibling.0,
        );
        assert(sibling.0.rank() <= before[i].0.rank());
    }
}

/// A leaf fits behind the separators that do not exceed its key, in a node
/// whose children are leaves.
pub proof fn lemma_leaf_fits<T: Key>(
    before: Seq<(T, BPlusTree<T>)>,
    fanout: usize,
    entry: (T, BPlusTree<T>),
)
    requires
        entries_ok(before, fanout, 0),
        ordered(before),
        entry_ok(entry, fanout, 0),
    ensures
        fits(before, first_reaching(before, entry.0.rank() + 1), entry),
{
    let at = first_reaching(before, entry.0.rank() + 1);
    lemma_ordered_ascending(before, fanout, 0);
    lemma_first_reaching_bounds(before, entry.0.rank() + 1);
    assert(entry.1.kind is Leaf);
    assert forall|j: int| 0 <= j < at implies bounded_below(
        entry.1.keys(),
        (#[trigger] before[j]).0.rank(),
    ) by {
        assert(entry.1.keys().contains(entry.0));
    }
    assert forall|j: int| at <= j < before.len() implies bounded_below(
        (#[trigger] before[j]).1.keys(),
        entry.0.rank(),
    ) by {
        assert(entry_ok(before[j], fanout, 0));
        assert(before[j].1.kind is Leaf);
    }
}

impl<T: Key> BPlusTree<T> {
    /// Whether this node is a leaf.
    pub fn is_leaf(&self) -> (b: bool)
        ensures
            b == (self.kind is Leaf),
    {
        match self.kind {
            BPlusNodeType::Leaf => true,
            _ => false,
        }
    }

    /// The greatest key in this subtree.
    pub fn max_key(&self) -> (k: T)
        requires
            self.wf(),
            self.kind is Leaf || self.entries@.len() >= 1,
        ensures
            self.keys().contains(k),
            bounded_above(self.keys(), k.rank()),
            k == if self.kind is Leaf {
                self.value.unwrap()
            } else {
                self.entries@.last().0
            },
    {
        proof {
            reveal(BPlusTree::wf);
        }
        match self.kind {
            BPlusNodeType::Leaf => self.value.unwrap(),
            _ => {
                proof {
                    lemma_last_separator_greatest(
                        self.entries@,
                        self.fanout,
                        self.child_height(),
                    );
                }
                self.entries[self.entries.len() - 1].0
            },
        }
    }
}

impl<T: Key> BPlusTree<T> {
    /// How the entries lie after this node took `entry` in at position `at`.
    /// A node with room holds them all. A full node is cut in two halves: a
    /// root holds the halves as two internal nodes, each under its last
    /// separator; an internal node keeps the lower half and hands out the
    /// upper one under its last separator. Folded until revealed.
    #[verifier::opaque]
    pub open spec fn shares_out(
        self,
        at: int,
        entry: (T, BPlusTree<T>),
        after: Self,
        promoted: Option<(T, BPlusTree<T>)>,
    ) -> bool {
        let full = self.entries@.insert(at, entry);
        let cut = cut_after(self.entries@.len() as int, at);
        if self.entries@.len() < self.fanout {
            after.entries@ == full
        } else if self.kind is Root {
            &&& after.entries@.len() == 2
            &&& after.entries@[0].0 == full[cut - 1].0
            &&& after.entries@[1].0 == full.last().0
            &&& after.entries@[0].1.kind is Internal
            &&& after.entries@[1].1.kind is Internal
            &&& after.entries@[0].1.entries@ == full.subrange(0, cut)
            &&& after.entries@[1].1.entries@ == full.subrange(cut, full.len() as int)
        } else {
            &&& promoted is Some
            &&& after.entries@ == full.subrange(0, cut)
            &&& promoted.unwrap().1.entries@ == full.subrange(cut, full.len() as int)
            &&& promoted.unwrap().0 == full.last().0
        }
    }

    /// Parts this full node around `entry`, which stands at position `at`:
    /// the node is cut at its median, the entry goes to the half that holds
    /// its position, and the two halves come back as internal nodes.
    fn part(&mut self, at: usize, entry: (T, BPlusTree<T>)) -> (halves: (Self, Self))
        requires
            old(self).wf(),
            !(old(self).kind is Leaf),
            old(self).entries@.len() == old(self).fanout,
            entry_ok(entry, old(self).fanout, old(self).child_height()),
            fits(old(self).entries@, at as int, entry),
        ensures
            final(self).entries@.len() == 0,
            final(self).kind == old(self).kind,
            final(self).fanout == old(self).fanout,
            final(self).value == old(self).value,
            halves.0.wf(),
            halves.1.wf(),
            halves.0.kind is Internal,
            halves.1.kind is Internal,
            halves.0.fanout == old(self).fanout,
            halves.1.fanout == old(self).fanout,
            halves.0.height() == old(self).height(),
            halves.1.height() == old(self).height(),
            halves.0.entries@ == old(self).entries@.insert(at as int, entry).subrange(
                0,
                cut_after(old(self).entries@.len() as int, at as int),
            ),
            halves.1.entries@ == old(self).entries@.insert(at as int, entry).subrange(
                cut_after(old(self).entries@.len() as int, at as int),
                old(self).entries@.len() as int + 1,
            ),
            precedes_all(halves.0.keys(), halves.1.keys()),
            halves.0.keys().add(halves.1.keys()) == old(self).keys().add(entry.1.keys()),
    {
        proof {
            reveal(BPlusTree::wf);
        }
        let ghost before = self.entries@;
        let ghost h = self.child_height();
        let ghost full = before.insert(at as int, entry);
        let (mut left, mut right) = self.split();
        left.kind = BPlusNodeType::Internal;
        right.kind = BPlusNodeType::Internal;
        let m = left.entries.len();
        if at <= m {
            left.entries.insert(at, entry);
        } else {
            right.entries.insert(at - m, entry);
        }
        proof {
            let cut = left.entries@.len() as int;
            lemma_insert_ok(before, self.fanout, h, at as int, entry);
            assert(left.entries@ =~= full.subrange(0, cut));
            assert(right.entries@ =~= full.subrange(cut, full.len() as int));
            lemma_subrange_ok(full, self.fanout, h, 0, cut);
            lemma_subrange_ok(full, self.fanout, h, cut, full.len() as int);
            lemma_cut(full, self.fanout, h, cut);
            assert(left.entries@[0].1.height() == h) by {
                assert(entry_ok(left.entries@[0], self.fanout, h));
            }
            assert(right.entries@[0].1.height() == h) by {
                assert(entry_ok(right.entries@[0], self.fanout, h));
            }
            assert(before[0].1.height() == h);
        }
        (left, right)
    }

    /// Takes `entry` in at position `at`. A node with room keeps it. A full
    /// node splits at its median, and the entry goes to the half that holds
    /// its position: an internal node keeps the lower half and hands out the
    /// upper one under its greatest key, a root puts both halves below itself.
    pub fn absorb(&mut self, at: usize, entry: (T, BPlusTree<T>)) -> (promoted: Option<
        (T, BPlusTree<T>),
    >)
        requires
            old(self).wf(),
            !(old(self).kind is Leaf),
            entry_ok(entry, old(self).fanout, old(self).child_height()),
            fits(old(self).entries@, at as int, entry),
        ensures
            final(self).wf(),
            final(self).kind == old(self).kind,
            final(self).fanout == old(self).fanout,
            promoted is Some <==> old(self).kind is Internal && old(self).entries@.len() == old(
                self).fanout,
            final(self).height() == old(self).height() + if old(self).kind is Root && old(
                self).entries@.len() == old(self).fanout {
                1nat
            } else {
                0nat
            },
            match promoted {
                None => final(self).keys() == old(self).keys().add(entry.1.keys()),
                Some(sibling) => {
                    &&& entry_ok(sibling, old(self).fanout, old(self).height())
                    &&& sibling.1.kind is Internal
                    &&& precedes_all(final(self).keys(), sibling.1.keys())
                    &&& final(self).keys().add(sibling.1.keys()) == old(self).keys().add(
                        entry.1.keys(),
                    )
                },
            },
            old(self).shares_out(at as int, entry, *final(self), promoted),
    {
        proof {
            reveal(BPlusTree::wf);
        }
        if self.entries.len() < self.fanout {
            proof {
                reveal(BPlusTree::shares_out);
                lemma_insert_ok(
                    self.entries@,
                    self.fanout,
                    self.child_height(),
                    at as int,
                    entry,
                );
                let full = self.entries@.insert(at as int, entry);
                assert(entry_ok(full[0], self.fanout, self.child_height()));
            }
            self.entries.insert(at, entry);
            None
        } else {
            let ghost h = self.child_height();
            let (left, right) = self.part(at, entry);
            let left_max = left.max_key();
            let right_max = right.max_key();
            match self.kind {
                BPlusNodeType::Root => {
                    let ghost lower = (left_max, left);
                    let ghost upper = (right_max, right);
                    self.entries.push((left_max, left));
                    self.entries.push((right_max, right));
                    proof {
                        let grown = self.entries@;
                        assert(grown =~= seq![lower, upper]);
                        assert(entry_ok(lower, self.fanout, h + 1));
                        assert(entry_ok(upper, self.fanout, h + 1));
                        assert(ordered(grown)) by {
                            assert forall|i: int, j: int|
                                0 <= i < j < grown.len() implies bounded_below(
                                (#[trigger] grown[j]).1.keys(),
                                (#[trigger] grown[i]).0.rank(),
                            ) by {
                                assert(i == 0 && j == 1);
                            }
                        }
                        assert(keys_of(grown) =~= lower.1.keys().add(upper.1.keys())) by {
                            let none = Seq::<(T, BPlusTree<T>)>::empty();
                            assert(grown =~= none.push(lower).push(upper));
                            crate::b_plus::lemma_keys_of_push(none, lower);
                            crate::b_plus::lemma_keys_of_push(none.push(lower), upper);
                        }
                        assert(old(self).shares_out(at as int, entry, *self, None)) by {
                            reveal(BPlusTree::shares_out);
                        }
                    }
                    None
                },
                _ => {
                    *self = left;
                    proof {
                        assert(old(self).shares_out(
                            at as int,
                            entry,
                            *self,
                            Some((right_max, right)),
                        )) by {
                            reveal(BPlusTree::shares_out);
                        }
                    }
                    Some((right_max, right))
                },
            }
        }
    }
}

/// Where a full node over leaves takes a key in, the median decides the side:
/// a key that comes before the separator at the median position goes to the
/// lower half, and any other key, one equal to that separator too, to the
/// upper half.
pub proof fn law_median_decides<T: Key>(entries: Seq<(T, BPlusTree<T>)>, value: T)
    requires
        ascending(entries),
        entries.len() >= 1,
    ensures
        first_reaching(entries, value.rank() + 1) < cut_after(
            entries.len() as int,
            first_reaching(entries, value.rank() + 1),
        ) <==> value.rank() < entries[entries.len() as int / 2].0.rank(),
{
    lemma_first_reaching_bounds(entries, value.rank() + 1);
    let at = first_reaching(entries, value.rank() + 1);
    let m = entries.len() as int / 2;
    if at <= m {
        if at < entries.len() {
            assert(entries[at].0.rank() <= entries[m].0.rank());
        }
    } else {
        assert(entries[m].0.rank() < value.rank() + 1);
    }
}

/// From what a step down into a child and the taking in of its sibling leave
/// behind to the lay of the entries.
pub proof fn lemma_lays_below<T: Key>(
    node: BPlusTree<T>,
    value: T,
    after: BPlusTree<T>,
    promoted: Option<(T, BPlusTree<T>)>,
    stepped: Seq<(T, BPlusTree<T>)>,
    handed: Option<(T, BPlusTree<T>)>,
)
    requires
        node.wf(),
        !(node.kind is Leaf),
        node.child_height() > 0,
        0 <= node.route(value) < node.entries@.len(),
        stepped.len() == node.entries@.len(),
        forall|j: int|
            0 <= j < stepped.len() && j != node.route(value) ==> #[trigger] stepped[j]
                == node.entries@[j],
        node.entries@[node.route(value)].1.settles(value, stepped[node.route(value)].1, handed),
        if node.entries@[node.route(value)].1.child_height() == 0 {
            node.entries@[node.route(value)].1.lays_leaf(
                value,
                stepped[node.route(value)].1,
                handed,
            )
        } else {
            node.entries@[node.route(value)].1.lays_below(
                value,
                stepped[node.route(value)].1,
                handed,
            )
        },
        node.laid_out(value, after, promoted) == if handed is Some {
            stepped.insert(node.route(value) + 1, handed.unwrap())
        } else {
            stepped
        },
        node.overflows(value) ==> node.lower_half(after).len() == cut_after(
            node.entries@.len() as int,
            node.route(value) + 1,
        ),
    ensures
        node.lays_below(value, after, promoted),
{
    reveal(BPlusTree::wf);
    reveal(BPlusTree::lays_below);
    let i = node.route(value);
    let all = node.laid_out(value, after, promoted);
    assert(entry_ok(node.entries@[i], node.fanout, node.child_height()));
    assert(node.entries@[i].1.kind is Internal);
    assert(handed is Some <==> node.takes_entry(value));
    if handed is Some {
        assert(all[i] == stepped[i]);
        assert(all[i + 1] == handed.unwrap());
        assert forall|j: int| i < j < node.entries@.len() implies all[j + 1]
            == #[trigger] node.entries@[j] by {
            assert(all[j + 1] == stepped[j]);
        }
    } else {
        assert(all[i] == stepped[i]);
    }
}

impl<T: Key> BPlusTree<T> {
    /// The position of the entry under which `value` belongs: the first whose
    /// separator is `value` or more, and the last where none is.
    pub open spec fn route(self, value: T) -> int {
        let p = first_reaching(self.entries@, value.rank());
        if 0 <= p < self.entries@.len() {
            p
        } else {
            self.entries@.len() - 1
        }
    }

    /// Whether taking `value` in fills this node beyond its fanout: it is
    /// full, and either its children are leaves or the child under which
    /// `value` belongs overflows in turn.
    pub open spec fn overflows(self, value: T) -> bool
        decreases self,
    {
        &&& self.entries@.len() >= 1
        &&& self.entries@.len() == self.fanout
        &&& (self.child_height() == 0 || self.entries@[self.route(value)].1.overflows(value))
    }

    /// Whether taking `value` in gives this node one more entry: its children
    /// are leaves, or the child under which `value` belongs overflows.
    pub open spec fn takes_entry(self, value: T) -> bool {
        self.child_height() == 0 || (self.entries@.len() >= 1
            && self.entries@[self.route(value)].1.overflows(value))
    }

    /// The entries that this node held before, as they lie after it took a
    /// key in: in the node itself where it did not overflow, else in its lower
    /// half followed by its upper half.
    pub open spec fn laid_out(
        self,
        value: T,
        after: Self,
        promoted: Option<(T, BPlusTree<T>)>,
    ) -> Seq<(T, BPlusTree<T>)> {
        if promoted is Some {
            after.entries@ + promoted.unwrap().1.entries@
        } else if self.kind is Root && self.overflows(value) {
            after.entries@[0].1.entries@ + after.entries@[1].1.entries@
        } else {
            after.entries@
        }
    }

    /// The entries of the lower half of this node after it overflowed.
    pub open spec fn lower_half(self, after: Self) -> Seq<(T, BPlusTree<T>)> {
        if self.kind is Root {
            after.entries@[0].1.entries@
        } else {
            after.entries@
        }
    }

    /// The position of the entry under which `value` belongs.
    pub fn route_to(&self, value: &T) -> (i: usize)
        requires
            self.wf(),
            self.entries@.len() >= 1,
        ensures
            i == self.route(*value),
            i < self.entries@.len(),
            forall|j: int| 0 <= j < i ==> (#[trigger] self.entries@[j]).0.rank() < value.rank(),
            i < self.entries@.len() - 1 ==> self.entries@[i as int].0.rank() >= value.rank(),
    {
        proof {
            reveal(BPlusTree::wf);
        }
        proof {
            lemma_ordered_ascending(self.entries@, self.fanout, self.child_height());
            lemma_first_reaching_bounds(self.entries@, value.rank());
        }
        let p = self.position_reaching(value, false);
        if p < self.entries.len() {
            p
        } else {
            self.entries.len() - 1
        }
    }

    /// What holds of a node that took `value` in, whatever its level: it is
    /// still a valid subtree of its kind and fanout. An internal node that
    /// overflowed handed out a valid sibling of its own height under the
    /// sibling's greatest key, no key of which comes before a key that it
    /// kept; no other node hands anything out. The two together hold the keys
    /// of before and `value` once more. A root that overflowed is one level
    /// higher and holds two entries; no other node changes its height.
    pub open spec fn settles(
        self,
        value: T,
        after: Self,
        promoted: Option<(T, BPlusTree<T>)>,
    ) -> bool {
        &&& after.wf()
        &&& after.kind == self.kind
        &&& after.fanout == self.fanout
        &&& promoted is Some <==> self.kind is Internal && self.overflows(value)
        &&& after.height() == self.height() + if self.kind is Root && self.overflows(value) {
            1nat
        } else {
            0nat
        }
        &&& self.kind is Root && self.overflows(value) ==> after.entries@.len() == 2
        &&& match promoted {
            None => after.keys() == self.keys().insert(value),
            Some(sibling) => {
                &&& entry_ok(sibling, self.fanout, self.height())
                &&& sibling.1.kind is Internal
                &&& precedes_all(after.keys(), sibling.1.keys())
                &&& after.keys().add(sibling.1.keys()) == self.keys().insert(value)
            },
        }
    }

    /// How the entries of a node over leaves lie after it took `value` in:
    /// as before, with a leaf for `value` behind the separators that do not
    /// exceed it. Where the node overflowed, the lower half ends behind the
    /// median position, and one further where the new leaf stands at or before
    /// it. Folded until revealed.
    #[verifier::opaque]
    pub open spec fn lays_leaf(
        self,
        value: T,
        after: Self,
        promoted: Option<(T, BPlusTree<T>)>,
    ) -> bool {
        let at = first_reaching(self.entries@, value.rank() + 1);
        let all = self.laid_out(value, after, promoted);
        &&& all.len() == self.entries@.len() + 1
        &&& all.remove(at) == self.entries@
        &&& all[at].0 == value
        &&& all[at].1.kind is Leaf
        &&& all[at].1.value == Some(value)
        &&& self.overflows(value) ==> self.lower_half(after).len() == cut_after(
            self.entries@.len() as int,
            at,
        )
    }

    /// How the entries of a node over internal nodes lie after it took
    /// `value` in: those before and behind the child under which `value`
    /// belongs are as before, that child took the value in and its own
    /// entries lie as this says in turn, and where the child overflowed its
    /// new sibling stands right behind it. Where the node itself overflowed,
    /// the lower half ends behind the median position, and one further where
    /// the new sibling stands at or before it. Folded until revealed.
    #[verifier::opaque]
    pub open spec fn lays_below(
        self,
        value: T,
        after: Self,
        promoted: Option<(T, BPlusTree<T>)>,
    ) -> bool
        decreases self,
    {
        let i = self.route(value);
        let all = self.laid_out(value, after, promoted);
        let gain: int = if self.takes_entry(value) {
            1
        } else {
            0
        };
        let handed = if gain == 1 {
            Some(all[i + 1])
        } else {
            None
        };
        &&& self.entries@.len() >= 1
        &&& all.len() == self.entries@.len() + gain
        &&& forall|j: int| 0 <= j < i ==> #[trigger] all[j] == self.entries@[j]
        &&& forall|j: int|
            i < j < self.entries@.len() ==> all[j + gain] == #[trigger] self.entries@[j]
        &&& self.entries@[i].1.settles(value, all[i].1, handed)
        &&& if self.entries@[i].1.child_height() == 0 {
            self.entries@[i].1.lays_leaf(value, all[i].1, handed)
        } else {
            self.entries@[i].1.lays_below(value, all[i].1, handed)
        }
        &&& self.overflows(value) ==> self.lower_half(after).len() == cut_after(
            self.entries@.len() as int,
            i + 1,
        )
    }

    /// Adds a leaf for `value`, equal keys included, below the node under
    /// which the separators place it. A node that overflows splits at its
    /// median: an internal node hands the upper half to its caller, a root
    /// grows a level and hands out nothing.
    pub fn insert(&mut self, value: T) -> (promoted: Option<(T, BPlusTree<T>)>)
        requires
            old(self).wf(),
            !(old(self).kind is Leaf),
        ensures
            final(self).wf(),
            final(self).kind == old(self).kind,
            final(self).fanout == old(self).fanout,
            promoted is Some <==> old(self).kind is Internal && old(self).overflows(value),
            final(self).height() == old(self).height() + if old(self).kind is Root && old(
                self).overflows(value) {
                1nat
            } else {
                0nat
            },
            old(self).kind is Root && old(self).overflows(value) ==> final(self).entries@.len()
                == 2,
            match promoted {
                None => final(self)@ == old(self)@.insert(value),
                Some(sibling) => {
                    &&& entry_ok(sibling, old(self).fanout, old(self).height())
                    &&& sibling.1.kind is Internal
                    &&& precedes_all(final(self)@, sibling.1@)
                    &&& final(self)@.add(sibling.1@) == old(self)@.insert(value)
                },
            },
            old(self).child_height() == 0 ==> old(self).lays_leaf(value, *final(self), promoted),
            old(self).child_height() > 0 ==> old(self).lays_below(value, *final(self), promoted),
        decreases *old(self), 2nat,
    {
        proof {
            reveal(BPlusTree::wf);
        }
        let leaf_level = self.entries.len() == 0 || self.entries[0].1.is_leaf();
        proof {
            if self.entries@.len() > 0 {
                assert(entry_ok(self.entries@[0], self.fanout, self.child_height()));
            }
        }
        if leaf_level {
            self.insert_leaf(value)
        } else {
            self.insert_below(value)
        }
    }

    /// `insert` on a node whose children are leaves.
    fn insert_leaf(&mut self, value: T) -> (promoted: Option<(T, BPlusTree<T>)>)
        requires
            old(self).wf(),
            !(old(self).kind is Leaf),
            old(self).child_height() == 0,
        ensures
            old(self).settles(value, *final(self), promoted),
            old(self).lays_leaf(value, *final(self), promoted),
    {
        proof {
            reveal(BPlusTree::wf);
        }
        let ghost before = self.entries@;
        let entry = (value, Self::leaf_holding(value, self.fanout));
        let ghost slot = first_reaching(before, value.rank() + 1);
        let ghost full = before.insert(slot, entry);
        proof {
            reveal(BPlusTree::lays_leaf);
            reveal(BPlusTree::shares_out);
            assert(entry_ok(entry, self.fanout, 0));
            lemma_leaf_fits(before, self.fanout, entry);
            lemma_ordered_ascending(before, self.fanout, 0);
            lemma_insert_ok(before, self.fanout, 0, slot, entry);
            lemma_first_reaching_bounds(before, value.rank() + 1);
            assert(old(self).keys().add(entry.1.keys()) =~= old(self).keys().insert(value));
            assert(full.remove(slot) =~= before);
        }
        if self.used_capacity() < self.fanout {
            self.insert_entry(entry);
            proof {
                assert(entry_ok(self.entries@[0], self.fanout, 0));
            }
            None
        } else {
            let at = self.position_reaching(&value, true);
            let promoted = self.absorb(at, entry);
            proof {
                let cut = cut_after(before.len() as int, slot);
                assert(old(self).laid_out(value, *self, promoted) =~= full.subrange(0, cut)
                    + full.subrange(cut, full.len() as int));
                assert(old(self).laid_out(value, *self, promoted) =~= full);
            }
            promoted
        }
    }

    /// The step of `insert` down into the child under which `value` belongs:
    /// the child takes the value in, and its separator follows.
    fn step_down(&mut self, value: T) -> (out: (usize, Option<(T, BPlusTree<T>)>))
        requires
            old(self).wf(),
            !(old(self).kind is Leaf),
            old(self).child_height() > 0,
        ensures
            out.0 == old(self).route(value),
            out.0 < old(self).entries@.len(),
            final(self).wf(),
            final(self).kind == old(self).kind,
            final(self).fanout == old(self).fanout,
            final(self).height() == old(self).height(),
            final(self).child_height() == old(self).child_height(),
            final(self).entries@.len() == old(self).entries@.len(),
            out.1 is Some <==> old(self).takes_entry(value),
            forall|j: int|
                0 <= j < old(self).entries@.len() && j != out.0 ==> #[trigger] final(
                    self).entries@[j] == old(self).entries@[j],
            old(self).entries@[out.0 as int].1.settles(
                value,
                final(self).entries@[out.0 as int].1,
                out.1,
            ),
            if old(self).entries@[out.0 as int].1.child_height() == 0 {
                old(self).entries@[out.0 as int].1.lays_leaf(
                    value,
                    final(self).entries@[out.0 as int].1,
                    out.1,
                )
            } else {
                old(self).entries@[out.0 as int].1.lays_below(
                    value,
                    final(self).entries@[out.0 as int].1,
                    out.1,
                )
            },
            match out.1 {
                None => final(self).keys() == old(self).keys().insert(value),
                Some(sibling) => {
                    &&& final(self).keys().add(sibling.1.keys()) == old(self).keys().insert(value)
                    &&& fits(final(self).entries@, out.0 + 1, sibling)
                    &&& entry_ok(sibling, old(self).fanout, old(self).child_height())
                },
            },
        decreases *old(self), 0nat,
    {
        proof {
            reveal(BPlusTree::wf);
        }
        let ghost before = self.entries@;
        let ghost h = self.child_height();
        let i = self.route_to(&value);
        proof {
            assert(entry_ok(before[i as int], self.fanout, h));
        }
        let slot = &mut self.entries[i];
        let handed = slot.1.insert(value);
        let separator = slot.1.max_key();
        slot.0 = separator;
        proof {
            let spill = if handed is Some {
                handed.unwrap().1.keys()
            } else {
                Multiset::empty()
            };
            let stepped = self.entries@;
            let changed = stepped[i as int];
            assert(stepped =~= before.update(i as int, changed));
            assert(entry_ok(changed, self.fanout, h));
            assert(changed.1.keys().add(spill) =~= before[i as int].1.keys().insert(value));
            lemma_descend(before, self.fanout, h, i as int, value, changed, spill);
            assert(entry_ok(stepped[0], self.fanout, h));
            assert(keys_of(stepped).add(spill) =~= keys_of(before).insert(value));
            if handed is None {
                assert(keys_of(stepped).add(spill) =~= keys_of(stepped));
            } else {
                lemma_sibling_fits(
                    before,
                    self.fanout,
                    h,
                    i as int,
                    value,
                    changed,
                    handed.unwrap(),
                );
            }
        }
        (i, handed)
    }

    /// `insert` on a node whose children are internal nodes.
    fn insert_below(&mut self, value: T) -> (promoted: Option<(T, BPlusTree<T>)>)
        requires
            old(self).wf(),
            !(old(self).kind is Leaf),
            old(self).child_height() > 0,
        ensures
            old(self).settles(value, *final(self), promoted),
            old(self).lays_below(value, *final(self), promoted),
        decreases *old(self), 1nat,
    {
        let (i, handed) = self.step_down(value);
        let ghost stepped = self.entries@;
        assert(i < self.entries.len());
        assert(old(self).overflows(value) <==> old(self).entries@.len() == old(self).fanout
            && handed is Some);
        match handed {
            None => {
                proof {
                    lemma_lays_below(*old(self), value, *self, None, stepped, handed);
                }
                None
            },
            Some(sibling) => {
                let ghost full = stepped.insert(i as int + 1, sibling);
                let promoted = self.absorb(i + 1, sibling);
                proof {
                    let cut = cut_after(stepped.len() as int, i as int + 1);
                    assert(old(self).laid_out(value, *self, promoted) == full && (old(
                        self).overflows(value) ==> old(self).lower_half(*self).len() == cut) && (
                    old(self).kind is Root && old(self).overflows(value) ==> self.entries@.len()
                        == 2)) by {
                        reveal(BPlusTree::shares_out);
                        assert(stepped.len() <= self.fanout) by {
                            reveal(BPlusTree::wf);
                        }
                        if stepped.len() == self.fanout {
                            assert(old(self).laid_out(value, *self, promoted) =~= full.subrange(
                                0,
                                cut,
                            ) + full.subrange(cut, full.len() as int));
                        }
                        assert(old(self).laid_out(value, *self, promoted) =~= full);
                    }
                    lemma_lays_below(*old(self), value, *self, promoted, stepped, handed);
                }
                promoted
            },
        }
    }
}

} // verus!
