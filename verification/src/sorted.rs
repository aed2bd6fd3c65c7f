//! A map from byte strings to values or tombstones, kept in key order.
use vstd::prelude::*;

use crate::octets::{copy_bytes, same_bytes};
use crate::order;
use crate::order::is_before;

verus! {

/// What a map holds for a key: a value, or a tombstone.
pub type Slot = Option<Seq<u8>>;

/// What a sorted map stands for.
pub type Table = Map<Seq<u8>, Slot>;

/// A value or a tombstone by its view.
pub open spec fn slot_view(slot: Option<Vec<u8>>) -> Slot {
    match slot {
        Some(value) => Some(value@),
        None => None,
    }
}

/// Entries by their views.
pub open spec fn entries_view(entries: Seq<(Vec<u8>, Option<Vec<u8>>)>) -> Seq<(Seq<u8>, Slot)> {
    entries.map_values(|entry: (Vec<u8>, Option<Vec<u8>>)| (entry.0@, slot_view(entry.1)))
}

/// A slot stands for its value or for a tombstone, and a list for its entries in
/// their order.
pub proof fn law_entries_stand_for_themselves(
    entries: Seq<(Vec<u8>, Option<Vec<u8>>)>,
    slot: Option<Vec<u8>>,
    i: int,
)
    ensures
        slot is None <==> slot_view(slot) is None,
        slot matches Some(value) ==> slot_view(slot) == Some(value@),
        entries_view(entries).len() == entries.len(),
        0 <= i < entries.len() ==> entries_view(entries)[i] == (
            entries[i].0@,
            slot_view(entries[i].1),
        ),
{
}

/// The map that results when entries are inserted in order: of two entries
/// with the same key the later one stays.
pub open spec fn table_of(entries: Seq<(Seq<u8>, Slot)>) -> Table
    decreases entries.len(),
{
    if entries.len() == 0 {
        Map::empty()
    } else {
        table_of(entries.drop_last()).insert(entries.last().0, entries.last().1)
    }
}

/// The keys ascend, so that none occurs twice.
pub open spec fn ascending(entries: Seq<(Seq<u8>, Slot)>) -> bool {
    forall|i: int, j: int|
        0 <= i < j < entries.len() ==> order::precedes(
            (#[trigger] entries[i]).0,
            (#[trigger] entries[j]).0,
        )
}

/// Ascending entries are a map: each key stands for the slot beside it.
pub proof fn lemma_table_of_ascending(entries: Seq<(Seq<u8>, Slot)>)
    requires
        ascending(entries),
    ensures
        forall|i: int|
            0 <= i < entries.len() ==> table_of(entries).contains_key((#[trigger] entries[i]).0)
                && table_of(entries)[entries[i].0] == entries[i].1,
        forall|key: Seq<u8>| #[trigger]
            table_of(entries).contains_key(key) ==> exists|i: int|
                0 <= i < entries.len() && (#[trigger] entries[i]).0 == key,
        table_of(entries).dom().finite(),
        table_of(entries).dom().len() == entries.len(),
    decreases entries.len(),
{
    if entries.len() > 0 {
        let front = entries.drop_last();
        let last = entries.last();
        lemma_table_of_ascending(front);
        assert forall|i: int| 0 <= i < front.len() implies (#[trigger] entries[i]).0 != last.0 by {
            order::lemma_asymmetric(entries[i].0, entries[entries.len() - 1].0);
        }
        assert(!table_of(front).contains_key(last.0)) by {
            if table_of(front).contains_key(last.0) {
                let i = choose|i: int| 0 <= i < front.len() && (#[trigger] front[i]).0 == last.0;
                assert(entries[i].0 == last.0);
            }
        }
        assert forall|i: int| 0 <= i < entries.len() implies table_of(entries).contains_key(
            (#[trigger] entries[i]).0,
        ) && table_of(entries)[entries[i].0] == entries[i].1 by {
            if i < front.len() {
                assert(front[i] == entries[i]);
            }
        }
        assert forall|key: Seq<u8>| #[trigger] table_of(entries).contains_key(key) implies exists|
            i: int,
        |
            0 <= i < entries.len() && (#[trigger] entries[i]).0 == key by {
            if key == last.0 {
                assert(entries[entries.len() - 1].0 == key);
            } else {
                let i = choose|i: int| 0 <= i < front.len() && (#[trigger] front[i]).0 == key;
                assert(entries[i].0 == key);
            }
        }
    }
}

/// A map from byte strings to values or tombstones, kept in key order.
#[derive(Debug, PartialEq, Eq)]
pub struct SortedMap {
    entries: Vec<(Vec<u8>, Option<Vec<u8>>)>,
}

impl View for SortedMap {
    type V = Table;

    closed spec fn view(&self) -> Table {
        table_of(self.entries())
    }
}

impl SortedMap {
    /// The entries in key order.
    pub closed spec fn entries(&self) -> Seq<(Seq<u8>, Slot)> {
        entries_view(self.entries@)
    }

    #[verifier::type_invariant]
    spec fn sorted(&self) -> bool {
        ascending(self.entries())
    }

    /// An empty map.
    pub fn new() -> (map: Self)
        ensures
            map@ == Map::<Seq<u8>, Slot>::empty(),
    {
        let map = SortedMap { entries: Vec::new() };
        assert(map.entries() =~= Seq::empty());
        map
    }

    /// The entries in key order.
    pub fn as_entries(&self) -> (entries: &Vec<(Vec<u8>, Option<Vec<u8>>)>)
        ensures
            entries_view(entries@) == self.entries(),
            ascending(self.entries()),
            self@ == table_of(self.entries()),
    {
        proof {
            use_type_invariant(self);
        }
        &self.entries
    }

    /// The number of keys, tombstones included.
    pub fn len(&self) -> (n: usize)
        ensures
            n == self@.dom().len(),
            self@.dom().finite(),
    {
        proof {
            use_type_invariant(self);
            lemma_table_of_ascending(self.entries());
        }
        self.entries.len()
    }

    /// Whether there is no key.
    pub fn is_empty(&self) -> (empty: bool)
        ensures
            empty == (self@ == Map::<Seq<u8>, Slot>::empty()),
    {
        proof {
            use_type_invariant(self);
            lemma_table_of_ascending(self.entries());
            if self.entries@.len() > 0 {
                assert(self@.contains_key(self.entries()[0].0));
            }
        }
        self.entries.len() == 0
    }

    /// What the map holds for a key, if anything.
    pub fn get(&self, key: &[u8]) -> (slot: Option<&Option<Vec<u8>>>)
        ensures
            match slot {
                Some(slot) => self@.contains_key(key@) && self@[key@] == slot_view(*slot),
                None => !self@.contains_key(key@),
            },
    {
        proof {
            use_type_invariant(self);
            lemma_table_of_ascending(self.entries());
        }
        let at: usize = position(&self.entries, key);
        if at < self.entries.len() && same_bytes(&self.entries[at].0, key) {
            assert(self.entries()[at as int].0 == key@);
            Some(&self.entries[at].1)
        } else {
            proof {
                lemma_absent(self.entries(), key@, at as int);
            }
            None
        }
    }

    /// Sets what the map holds for a key.
    pub fn insert(&mut self, key: Vec<u8>, slot: Option<Vec<u8>>)
        ensures
            final(self)@ == old(self)@.insert(key@, slot_view(slot)),
    {
        proof {
            use_type_invariant(&*self);
        }
        let ghost before = self.entries();
        let ghost new_entry = (key@, slot_view(slot));
        let mut entries: Vec<(Vec<u8>, Option<Vec<u8>>)> = Vec::new();
        std::mem::swap(&mut entries, &mut self.entries);
        let at: usize = position(&entries, &key);
        if at < entries.len() && same_bytes(&entries[at].0, &key) {
            entries[at] = (key, slot);
            proof {
                assert(entries_view(entries@) =~= before.update(at as int, new_entry));
                lemma_replace(before, at as int, new_entry);
            }
        } else {
            proof {
                lemma_absent(before, key@, at as int);
            }
            entries.insert(at, (key, slot));
            proof {
                assert(entries_view(entries@) =~= before.insert(at as int, new_entry));
                lemma_insert(before, at as int, new_entry);
            }
        }
        self.entries = entries;
    }
}

/// The part of a map that is no tombstone.
pub open spec fn live(table: Table) -> Table {
    Map::new(|key: Seq<u8>| table.contains_key(key) && table[key] is Some, |key: Seq<u8>| table[key])
}

/// A map without its tombstones knows exactly the keys that have a value, with
/// that value.
pub proof fn law_live_part_has_the_values(table: Table, key: Seq<u8>)
    ensures
        live(table).contains_key(key) <==> table.contains_key(key) && table[key] is Some,
        live(table).contains_key(key) ==> live(table)[key] == table[key],
{
}

/// Of entries that are inserted in order, the last one for a key stays, whatever
/// stands before it.
pub proof fn law_last_entry_stays(
    before: Seq<(Seq<u8>, Slot)>,
    entry: (Seq<u8>, Slot),
    after: Seq<(Seq<u8>, Slot)>,
)
    requires
        forall|i: int| 0 <= i < after.len() ==> (#[trigger] after[i]).0 != entry.0,
    ensures
        table_of(before + seq![entry] + after).contains_key(entry.0),
        table_of(before + seq![entry] + after)[entry.0] == entry.1,
    decreases after.len(),
{
    let all = before + seq![entry] + after;
    if after.len() == 0 {
        assert(all.last() == entry);
    } else {
        assert(after[after.len() - 1] == after.last());
        assert(all.drop_last() =~= before + seq![entry] + after.drop_last());
        assert forall|i: int| 0 <= i < after.len() - 1 implies (#[trigger] after.drop_last()[i]).0
            != entry.0 by {
            assert(after.drop_last()[i] == after[i]);
        }
        law_last_entry_stays(before, entry, after.drop_last());
        assert(all.last() == after.last());
    }
}

/// A key for which no entry is inserted is not known.
pub proof fn law_no_entry_no_key(entries: Seq<(Seq<u8>, Slot)>, key: Seq<u8>)
    requires
        forall|i: int| 0 <= i < entries.len() ==> (#[trigger] entries[i]).0 != key,
    ensures
        !table_of(entries).contains_key(key),
    decreases entries.len(),
{
    if entries.len() > 0 {
        assert(entries[entries.len() - 1] == entries.last());
        assert forall|i: int| 0 <= i < entries.len() - 1 implies (
        #[trigger] entries.drop_last()[i]).0 != key by {
            assert(entries.drop_last()[i] == entries[i]);
        }
        law_no_entry_no_key(entries.drop_last(), key);
    }
}

spec fn live_entries(entries: Seq<(Seq<u8>, Slot)>) -> Seq<(Seq<u8>, Slot)>
    decreases entries.len(),
{
    if entries.len() == 0 {
        Seq::empty()
    } else if entries.last().1 is Some {
        live_entries(entries.drop_last()).push(entries.last())
    } else {
        live_entries(entries.drop_last())
    }
}

proof fn lemma_live_entries(entries: Seq<(Seq<u8>, Slot)>)
    requires
        ascending(entries),
    ensures
        ascending(live_entries(entries)),
        forall|i: int|
            0 <= i < live_entries(entries).len() ==> exists|j: int|
                0 <= j < entries.len() && entries[j] == #[trigger] live_entries(entries)[i],
        table_of(live_entries(entries)) == live(table_of(entries)),
    decreases entries.len(),
{
    if entries.len() == 0 {
        assert(table_of(live_entries(entries)) =~= live(table_of(entries)));
    } else {
        let front = entries.drop_last();
        let kept = live_entries(front);
        let last = entries.last();
        let all = live_entries(entries);
        lemma_live_entries(front);
        lemma_table_of_ascending(entries);
        lemma_table_of_ascending(front);
        assert forall|i: int| 0 <= i < kept.len() implies order::precedes(
            (#[trigger] kept[i]).0,
            last.0,
        ) && exists|j: int| 0 <= j < entries.len() && entries[j] == kept[i] by {
            let j = choose|j: int| 0 <= j < front.len() && front[j] == kept[i];
            assert(entries[j] == kept[i]);
            assert(order::precedes(entries[j].0, entries[entries.len() - 1].0));
        }
        assert forall|i: int, j: int| 0 <= i < j < all.len() implies order::precedes(
            (#[trigger] all[i]).0,
            (#[trigger] all[j]).0,
        ) by {
            assert(all[i] == kept[i]);
            if j < kept.len() {
                assert(all[j] == kept[j]);
            }
        }
        assert forall|i: int| 0 <= i < all.len() implies exists|j: int|
            0 <= j < entries.len() && entries[j] == #[trigger] all[i] by {
            if i < kept.len() {
                assert(all[i] == kept[i]);
            } else {
                assert(entries[entries.len() - 1] == all[i]);
            }
        }
        assert(!table_of(front).contains_key(last.0)) by {
            if table_of(front).contains_key(last.0) {
                let i = choose|i: int| 0 <= i < front.len() && (#[trigger] front[i]).0 == last.0;
                assert(entries[i].0 == last.0);
                order::lemma_asymmetric(entries[i].0, entries[entries.len() - 1].0);
            }
        }
        if last.1 is Some {
            assert(all.drop_last() =~= kept);
        }
        assert(table_of(all) =~= live(table_of(entries)));
    }
}

impl SortedMap {
    /// Removes the tombstones.
    pub fn drop_tombstones(&mut self)
        ensures
            final(self)@ == live(old(self)@),
    {
        proof {
            use_type_invariant(&*self);
        }
        let ghost views = self.entries();
        let mut kept: Vec<(Vec<u8>, Option<Vec<u8>>)> = Vec::new();
        let mut i: usize = 0;
        assert(entries_view(kept@) =~= live_entries(views.take(0)));
        while i < self.entries.len()
            invariant
                i <= self.entries@.len() == views.len(),
                self == old(self),
                views == entries_view(self.entries@),
                entries_view(kept@) == live_entries(views.take(i as int)),
            decreases self.entries@.len() - i,
        {
            let ghost before = kept@;
            match &self.entries[i].1 {
                Some(value) => {
                    kept.push((copy_bytes(&self.entries[i].0), Some(copy_bytes(value))));
                    assert(entries_view(kept@) =~= entries_view(before).push(views[i as int]));
                },
                None => {},
            }
            assert(views.take(i + 1).drop_last() =~= views.take(i as int));
            i = i + 1;
        }
        proof {
            assert(views.take(i as int) =~= views);
            lemma_live_entries(views);
        }
        self.entries = kept;
    }
}

/// Where a key stands, or would stand, among ascending entries.
spec fn is_position(entries: Seq<(Seq<u8>, Slot)>, key: Seq<u8>, at: int) -> bool {
    &&& 0 <= at <= entries.len()
    &&& forall|i: int| 0 <= i < at ==> order::precedes((#[trigger] entries[i]).0, key)
    &&& forall|i: int| at <= i < entries.len() ==> !order::precedes((#[trigger] entries[i]).0, key)
}

fn position(entries: &Vec<(Vec<u8>, Option<Vec<u8>>)>, key: &[u8]) -> (at: usize)
    requires
        ascending(entries_view(entries@)),
    ensures
        is_position(entries_view(entries@), key@, at as int),
{
    let ghost views = entries_view(entries@);
    let mut lo: usize = 0;
    let mut hi: usize = entries.len();
    while lo < hi
        invariant
            lo <= hi <= entries@.len() == views.len(),
            views == entries_view(entries@),
            ascending(views),
            forall|i: int| 0 <= i < lo ==> order::precedes((#[trigger] views[i]).0, key@),
            forall|i: int|
                hi <= i < views.len() ==> !order::precedes((#[trigger] views[i]).0, key@),
        decreases hi - lo,
    {
        let mid: usize = lo + (hi - lo) / 2;
        assert(views[mid as int].0 == entries@[mid as int].0@);
        if is_before(&entries[mid].0, key) {
            assert forall|i: int| 0 <= i < mid + 1 implies order::precedes(
                (#[trigger] views[i]).0,
                key@,
            ) by {
                if i < mid {
                    order::lemma_transitive(views[i].0, views[mid as int].0, key@);
                }
            }
            lo = mid + 1;
        } else {
            assert forall|i: int| mid <= i < views.len() implies !order::precedes(
                (#[trigger] views[i]).0,
                key@,
            ) by {
                if i > mid && order::precedes(views[i].0, key@) {
                    order::lemma_transitive(views[mid as int].0, views[i].0, key@);
                }
            }
            hi = mid;
        }
    }
    lo
}

/// A key that does not stand at its position is not there at all.
proof fn lemma_absent(entries: Seq<(Seq<u8>, Slot)>, key: Seq<u8>, at: int)
    requires
        ascending(entries),
        is_position(entries, key, at),
        at < entries.len() ==> entries[at].0 != key,
    ensures
        !table_of(entries).contains_key(key),
        forall|i: int| at <= i < entries.len() ==> order::precedes(key, (#[trigger] entries[i]).0),
{
    lemma_table_of_ascending(entries);
    assert forall|i: int| at <= i < entries.len() implies order::precedes(
        key,
        (#[trigger] entries[i]).0,
    ) by {
        order::lemma_total(key, entries[at].0);
        if i > at {
            order::lemma_transitive(key, entries[at].0, entries[i].0);
        }
    }
    if table_of(entries).contains_key(key) {
        let i = choose|i: int| 0 <= i < entries.len() && (#[trigger] entries[i]).0 == key;
        order::lemma_irreflexive(key);
    }
}

proof fn lemma_replace(entries: Seq<(Seq<u8>, Slot)>, at: int, entry: (Seq<u8>, Slot))
    requires
        ascending(entries),
        0 <= at < entries.len(),
        entries[at].0 == entry.0,
    ensures
        ascending(entries.update(at, entry)),
        table_of(entries.update(at, entry)) == table_of(entries).insert(entry.0, entry.1),
{
    let after = entries.update(at, entry);
    assert forall|i: int, j: int| 0 <= i < j < after.len() implies order::precedes(
        (#[trigger] after[i]).0,
        (#[trigger] after[j]).0,
    ) by {
        assert(order::precedes(entries[i].0, entries[j].0));
    }
    lemma_table_of_ascending(entries);
    lemma_table_of_ascending(after);
    let expected = table_of(entries).insert(entry.0, entry.1);
    assert forall|key: Seq<u8>| #[trigger]
        table_of(after).contains_key(key) == expected.contains_key(key) by {
        if table_of(after).contains_key(key) {
            let i = choose|i: int| 0 <= i < after.len() && (#[trigger] after[i]).0 == key;
            assert(entries[i].0 == key);
        }
        if expected.contains_key(key) {
            if key == entry.0 {
                assert(after[at].0 == key);
            } else {
                let i = choose|i: int| 0 <= i < entries.len() && (#[trigger] entries[i]).0 == key;
                assert(after[i].0 == key);
            }
        }
    }
    assert forall|key: Seq<u8>| #[trigger] table_of(after).contains_key(key) implies table_of(
        after,
    )[key] == expected[key] by {
        let i = choose|i: int| 0 <= i < after.len() && (#[trigger] after[i]).0 == key;
        if i == at {
        } else {
            assert(entries[i] == after[i]);
            if i < at {
                order::lemma_asymmetric(entries[i].0, entries[at].0);
            } else {
                order::lemma_asymmetric(entries[at].0, entries[i].0);
            }
        }
    }
    assert(table_of(after) =~= expected);
}

proof fn lemma_insert(entries: Seq<(Seq<u8>, Slot)>, at: int, entry: (Seq<u8>, Slot))
    requires
        ascending(entries),
        0 <= at <= entries.len(),
        forall|i: int| 0 <= i < at ==> order::precedes((#[trigger] entries[i]).0, entry.0),
        forall|i: int|
            at <= i < entries.len() ==> order::precedes(entry.0, (#[trigger] entries[i]).0),
    ensures
        ascending(entries.insert(at, entry)),
        table_of(entries.insert(at, entry)) == table_of(entries).insert(entry.0, entry.1),
{
    let after = entries.insert(at, entry);
    assert forall|i: int| 0 <= i < after.len() implies #[trigger] after[i] == (if i < at {
        entries[i]
    } else if i == at {
        entry
    } else {
        entries[i - 1]
    }) by {}
    assert forall|i: int, j: int| 0 <= i < j < after.len() implies order::precedes(
        (#[trigger] after[i]).0,
        (#[trigger] after[j]).0,
    ) by {
    }
    lemma_table_of_ascending(entries);
    lemma_table_of_ascending(after);
    let expected = table_of(entries).insert(entry.0, entry.1);
    assert forall|key: Seq<u8>| #[trigger]
        table_of(after).contains_key(key) == expected.contains_key(key) by {
        if table_of(after).contains_key(key) {
            let i = choose|i: int| 0 <= i < after.len() && (#[trigger] after[i]).0 == key;
            if i < at {
                assert(entries[i].0 == key);
            } else if i > at {
                assert(entries[i - 1].0 == key);
            }
        }
        if expected.contains_key(key) {
            if key == entry.0 {
                assert(after[at].0 == key);
            } else {
                let i = choose|i: int| 0 <= i < entries.len() && (#[trigger] entries[i]).0 == key;
                if i < at {
                    assert(after[i].0 == key);
                } else {
                    assert(after[i + 1].0 == key);
                }
            }
        }
    }
    assert forall|key: Seq<u8>| #[trigger] table_of(after).contains_key(key) implies table_of(
        after,
    )[key] == expected[key] by {
        let i = choose|i: int| 0 <= i < after.len() && (#[trigger] after[i]).0 == key;
        if i < at {
            assert(entries[i].0 == key);
            order::lemma_asymmetric(entries[i].0, entry.0);
        } else if i > at {
            assert(entries[i - 1].0 == key);
            order::lemma_asymmetric(entry.0, entries[i - 1].0);
        }
    }
    assert(table_of(after) =~= expected);
}

} // verus!
