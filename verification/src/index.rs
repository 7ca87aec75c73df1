//! Index: from each key to the offset of its latest record.
//!
//! The index keeps one entry per key, in the order in which the keys first
//! came in. As a map it is read through its view.

use crate::log::{located, Located};
use crate::record::KeyValuePair;
use vstd::prelude::*;
use vstd::slice::slice_to_vec;

verus! {

/// Some entry holds `key`.
pub open spec fn holds(entries: Seq<(Seq<u8>, u64)>, key: Seq<u8>) -> bool {
    exists|i: int| 0 <= i < entries.len() && (#[trigger] entries[i]).0 == key
}

/// The place of an entry that holds `key`.
pub open spec fn place(entries: Seq<(Seq<u8>, u64)>, key: Seq<u8>) -> int {
    choose|i: int| 0 <= i < entries.len() && (#[trigger] entries[i]).0 == key
}

/// No key occurs in two entries.
pub open spec fn distinct(entries: Seq<(Seq<u8>, u64)>) -> bool {
    forall|i: int, j: int|
        0 <= i < j < entries.len() ==> (#[trigger] entries[i]).0 != (#[trigger] entries[j]).0
}

/// The map that a list of entries stands for. Of two entries with one key
/// the later one counts.
pub open spec fn map_of(entries: Seq<(Seq<u8>, u64)>) -> Map<Seq<u8>, u64>
    decreases entries.len(),
{
    if entries.len() == 0 {
        Map::empty()
    } else {
        map_of(entries.drop_last()).insert(entries.last().0, entries.last().1)
    }
}

/// The entries after `key` was given the offset `offset`: its entry is
/// overwritten where it has one, and added at the end where it has none.
pub open spec fn with_entry(entries: Seq<(Seq<u8>, u64)>, key: Seq<u8>, offset: u64) -> Seq<
    (Seq<u8>, u64),
> {
    if holds(entries, key) {
        entries.update(place(entries, key), (key, offset))
    } else {
        entries.push((key, offset))
    }
}

/// The entries after the entry of `key`, if there is one, was taken out.
pub open spec fn without(entries: Seq<(Seq<u8>, u64)>, key: Seq<u8>) -> Seq<(Seq<u8>, u64)> {
    if holds(entries, key) {
        entries.remove(place(entries, key))
    } else {
        entries
    }
}

/// The entries that come of taking entries in one by one, in order.
pub open spec fn collected(entries: Seq<(Seq<u8>, u64)>) -> Seq<(Seq<u8>, u64)>
    decreases entries.len(),
{
    if entries.len() == 0 {
        Seq::empty()
    } else {
        with_entry(collected(entries.drop_last()), entries.last().0, entries.last().1)
    }
}

/// Each record's key with the record's offset.
pub open spec fn keyed(records: Seq<Located>) -> Seq<(Seq<u8>, u64)> {
    records.map_values(|r: Located| (r.pair.key, r.offset))
}

/// The entries that result from indexing located records in order.
pub open spec fn entries_of(records: Seq<Located>) -> Seq<(Seq<u8>, u64)> {
    collected(keyed(records))
}

/// The map from each key among the records to the offset of the last record
/// that holds it.
pub open spec fn index_of(records: Seq<Located>) -> Map<Seq<u8>, u64> {
    map_of(keyed(records))
}

/// Entries with distinct keys have distinct keys without their last.
pub proof fn lemma_distinct_front(entries: Seq<(Seq<u8>, u64)>)
    requires
        distinct(entries),
        entries.len() > 0,
    ensures
        distinct(entries.drop_last()),
{
    let front = entries.drop_last();
    assert forall|a: int, b: int| 0 <= a < b < front.len() implies (#[trigger] front[a]).0 != (
    #[trigger] front[b]).0 by {
        assert(front[a] == entries[a]);
        assert(front[b] == entries[b]);
    }
}

/// Exactly the keys of the entries are keys of the map, and where no key
/// occurs twice each entry gives its key's offset.
pub proof fn lemma_map_of(entries: Seq<(Seq<u8>, u64)>, key: Seq<u8>)
    ensures
        map_of(entries).contains_key(key) <==> holds(entries, key),
        distinct(entries) && holds(entries, key) ==> map_of(entries)[key] == entries[place(
            entries,
            key,
        )].1,
    decreases entries.len(),
{
    if entries.len() > 0 {
        let front = entries.drop_last();
        lemma_map_of(front, key);
        if holds(entries, key) {
            let i = place(entries, key);
            if i < entries.len() - 1 {
                assert(front[i] == entries[i]);
                assert(holds(front, key));
                if distinct(entries) {
                    lemma_distinct_front(entries);
                    let j = place(front, key);
                    assert(front[j] == entries[j]);
                    assert(entries[entries.len() - 1].0 != entries[i].0);
                    if j != i {
                        assert(entries[i].0 != entries[j].0);
                    }
                }
            }
        }
        if holds(front, key) {
            let j = place(front, key);
            assert(entries[j] == front[j]);
        }
    }
}

/// Where no key occurs twice, the map has as many keys as there are entries.
pub proof fn lemma_map_of_len(entries: Seq<(Seq<u8>, u64)>)
    requires
        distinct(entries),
    ensures
        map_of(entries).dom().finite(),
        map_of(entries).dom().len() == entries.len(),
    decreases entries.len(),
{
    if entries.len() > 0 {
        let front = entries.drop_last();
        lemma_distinct_front(entries);
        lemma_map_of_len(front);
        lemma_map_of(front, entries.last().0);
        if holds(front, entries.last().0) {
            let i = place(front, entries.last().0);
            assert(front[i] == entries[i]);
            assert(entries[i].0 != entries[entries.len() - 1].0);
        }
    }
}

/// Where no key occurs twice, an entry is the one that `place` finds for its key.
pub proof fn lemma_place(entries: Seq<(Seq<u8>, u64)>, i: int)
    requires
        distinct(entries),
        0 <= i < entries.len(),
    ensures
        holds(entries, entries[i].0),
        place(entries, entries[i].0) == i,
{
    let j = place(entries, entries[i].0);
    if j < i {
        assert(entries[j].0 != entries[i].0);
    } else if i < j {
        assert(entries[i].0 != entries[j].0);
    }
}

/// Giving a key an offset keeps the keys distinct and, read as a map, is an
/// insertion.
pub proof fn lemma_with_entry(entries: Seq<(Seq<u8>, u64)>, key: Seq<u8>, offset: u64)
    requires
        distinct(entries),
    ensures
        distinct(with_entry(entries, key, offset)),
        map_of(with_entry(entries, key, offset)) == map_of(entries).insert(key, offset),
{
    let after = with_entry(entries, key, offset);
    if holds(entries, key) {
        let i = place(entries, key);
        assert forall|a: int, b: int| 0 <= a < b < after.len() implies (#[trigger] after[a]).0 != (
        #[trigger] after[b]).0 by {
            assert(after[a].0 == entries[a].0);
            assert(after[b].0 == entries[b].0);
        }
        assert forall|k: Seq<u8>|
            #[trigger] map_of(after).contains_key(k) == map_of(entries).insert(
                key,
                offset,
            ).contains_key(k) && (map_of(after).contains_key(k) ==> map_of(after)[k] == map_of(
                entries,
            ).insert(key, offset)[k]) by {
            lemma_map_of(after, k);
            lemma_map_of(entries, k);
            if holds(entries, k) {
                let p = place(entries, k);
                assert(after[p].0 == k);
                lemma_place(after, p);
            }
            if holds(after, k) {
                let p = place(after, k);
                assert(entries[p].0 == k);
                lemma_place(entries, p);
            }
        }
        assert(map_of(after) =~= map_of(entries).insert(key, offset));
    } else {
        assert(after.drop_last() =~= entries);
        assert forall|a: int, b: int| 0 <= a < b < after.len() implies (#[trigger] after[a]).0 != (
        #[trigger] after[b]).0 by {
            assert(after[a] == entries[a]);
            if b < entries.len() {
                assert(after[b] == entries[b]);
            }
        }
    }
}

/// Taking a key out keeps the keys distinct and, read as a map, is a removal.
pub proof fn lemma_without(entries: Seq<(Seq<u8>, u64)>, key: Seq<u8>)
    requires
        distinct(entries),
    ensures
        distinct(without(entries, key)),
        map_of(without(entries, key)) == map_of(entries).remove(key),
{
    let after = without(entries, key);
    if holds(entries, key) {
        let i = place(entries, key);
        assert forall|a: int| 0 <= a < after.len() implies #[trigger] after[a] == entries[if a
            < i {
            a
        } else {
            a + 1
        }] by {}
        assert forall|a: int, b: int| 0 <= a < b < after.len() implies (#[trigger] after[a]).0 != (
        #[trigger] after[b]).0 by {
            let a0 = if a < i { a } else { a + 1 };
            let b0 = if b < i { b } else { b + 1 };
            assert(after[a] == entries[a0]);
            assert(after[b] == entries[b0]);
        }
        assert forall|k: Seq<u8>|
            #[trigger] map_of(after).contains_key(k) == map_of(entries).remove(key).contains_key(
                k,
            ) && (map_of(after).contains_key(k) ==> map_of(after)[k] == map_of(entries).remove(
                key,
            )[k]) by {
            lemma_map_of(after, k);
            lemma_map_of(entries, k);
            lemma_place(entries, i);
            if holds(entries, k) && k != key {
                let p = place(entries, k);
                let q = if p < i { p } else { p - 1 };
                assert(p != i);
                assert(after[q] == entries[p]);
                lemma_place(after, q);
                assert(holds(after, k));
            }
            if holds(after, k) {
                let q = place(after, k);
                let p = if q < i { q } else { q + 1 };
                assert(after[q] == entries[p]);
                lemma_place(entries, p);
                assert(k != key);
                assert(holds(entries, k));
                assert(map_of(after)[k] == entries[p].1);
                assert(map_of(entries)[k] == entries[p].1);
            }
        }
        assert(map_of(after) =~= map_of(entries).remove(key));
    } else {
        lemma_map_of(entries, key);
        assert(map_of(entries).remove(key) =~= map_of(entries));
    }
}

/// Entries with distinct keys, taken in one by one, come out as they are.
pub proof fn lemma_collected_distinct(entries: Seq<(Seq<u8>, u64)>)
    requires
        distinct(entries),
    ensures
        collected(entries) == entries,
    decreases entries.len(),
{
    if entries.len() > 0 {
        let front = entries.drop_last();
        lemma_distinct_front(entries);
        lemma_collected_distinct(front);
        if holds(front, entries.last().0) {
            let i = place(front, entries.last().0);
            assert(front[i] == entries[i]);
            assert(entries[i].0 != entries[entries.len() - 1].0);
        }
        assert(front.push(entries.last()) =~= entries);
    } else {
        assert(collected(entries) =~= entries);
    }
}

/// Taking entries in one by one keeps the keys distinct and yields, read as
/// a map, what the entries stand for.
pub proof fn lemma_collected(entries: Seq<(Seq<u8>, u64)>)
    ensures
        distinct(collected(entries)),
        map_of(collected(entries)) == map_of(entries),
    decreases entries.len(),
{
    if entries.len() > 0 {
        lemma_collected(entries.drop_last());
        lemma_with_entry(collected(entries.drop_last()), entries.last().0, entries.last().1);
    }
}

/// The entries of an index as plain values.
pub open spec fn plain(entries: Seq<(Vec<u8>, u64)>) -> Seq<(Seq<u8>, u64)> {
    entries.map_values(|e: (Vec<u8>, u64)| (e.0@, e.1))
}

/// Whether two byte strings are the same.
pub fn same_bytes(a: &[u8], b: &[u8]) -> (same: bool)
    ensures
        same == (a@ == b@),
{
    if a.len() != b.len() {
        return false;
    }
    let mut i: usize = 0;
    while i < a.len()
        invariant
            a@.len() == b@.len(),
            i <= a@.len(),
            forall|j: int| 0 <= j < i ==> a@[j] == b@[j],
        decreases a@.len() - i,
    {
        if a[i] != b[i] {
            return false;
        }
        i += 1;
    }
    assert(a@ =~= b@);
    true
}

/// The in-memory index.
#[derive(Debug)]
pub struct Index {
    entries: Vec<(Vec<u8>, u64)>,
}

impl View for Index {
    type V = Map<Seq<u8>, u64>;

    open spec fn view(&self) -> Map<Seq<u8>, u64> {
        map_of(self.entries())
    }
}

impl Index {
    #[verifier::type_invariant]
    spec fn keys_distinct(self) -> bool {
        distinct(plain(self.entries@))
    }

    /// The entries, one per key, in the order in which the keys came in.
    pub closed spec fn entries(self) -> Seq<(Seq<u8>, u64)> {
        plain(self.entries@)
    }

    /// An index without entries.
    pub fn new() -> (index: Index)
        ensures
            index.entries() == Seq::<(Seq<u8>, u64)>::empty(),
            index@ == Map::<Seq<u8>, u64>::empty(),
    {
        let index = Index { entries: Vec::new() };
        assert(index.entries() =~= Seq::<(Seq<u8>, u64)>::empty());
        index
    }

    /// The number of keys.
    pub fn len(&self) -> (n: usize)
        ensures
            n == self.entries().len(),
            n == self@.dom().len(),
    {
        proof {
            use_type_invariant(self);
            lemma_map_of_len(self.entries());
        }
        self.entries.len()
    }

    /// Moves the entries out, to be changed and put back.
    fn take_entries(&mut self) -> (entries: Vec<(Vec<u8>, u64)>)
        ensures
            entries@ == old(self).entries@,
            final(self).entries@ == Seq::<(Vec<u8>, u64)>::empty(),
    {
        let mut entries: Vec<(Vec<u8>, u64)> = Vec::new();
        assert(plain(entries@) =~= Seq::<(Seq<u8>, u64)>::empty());
        core::mem::swap(&mut self.entries, &mut entries);
        entries
    }

    fn position(&self, key: &[u8]) -> (r: Option<usize>)
        ensures
            match r {
                Some(i) => i < self.entries().len() && self.entries()[i as int].0 == key@
                    && holds(self.entries(), key@) && place(self.entries(), key@) == i,
                None => !holds(self.entries(), key@),
            },
    {
        proof {
            use_type_invariant(self);
        }
        let mut i: usize = 0;
        while i < self.entries.len()
            invariant
                distinct(self.entries()),
                i <= self.entries.len(),
                forall|j: int| 0 <= j < i ==> (#[trigger] self.entries()[j]).0 != key@,
            decreases self.entries.len() - i,
        {
            if same_bytes(self.entries[i].0.as_slice(), key) {
                proof {
                    lemma_place(self.entries(), i as int);
                }
                return Some(i);
            }
            i += 1;
        }
        None
    }

    /// The offset on record for `key`, if the index holds the key.
    pub fn lookup(&self, key: &[u8]) -> (r: Option<u64>)
        ensures
            r == self@.get(key@),
    {
        proof {
            use_type_invariant(self);
            lemma_map_of(self.entries(), key@);
        }
        match self.position(key) {
            Some(i) => Some(self.entries[i].1),
            None => None,
        }
    }

    /// Records `offset` for `key`, in place of any offset recorded before.
    pub fn put(&mut self, key: &[u8], offset: u64)
        ensures
            final(self).entries() == with_entry(old(self).entries(), key@, offset),
            final(self)@ == old(self)@.insert(key@, offset),
    {
        proof {
            use_type_invariant(&*self);
            lemma_with_entry(self.entries(), key@, offset);
        }
        let owned = slice_to_vec(key);
        let found = self.position(key);
        let mut entries = self.take_entries();
        match found {
            Some(i) => {
                entries.set(i, (owned, offset));
            },
            None => {
                entries.push((owned, offset));
            },
        }
        assert(plain(entries@) =~= with_entry(old(self).entries(), key@, offset));
        self.entries = entries;
    }

    /// Takes the entry of `key` out and returns the offset it held.
    pub fn remove(&mut self, key: &[u8]) -> (r: Option<u64>)
        ensures
            r == old(self)@.get(key@),
            final(self).entries() == without(old(self).entries(), key@),
            final(self)@ == old(self)@.remove(key@),
    {
        proof {
            use_type_invariant(&*self);
            lemma_without(self.entries(), key@);
            lemma_map_of(self.entries(), key@);
        }
        match self.position(key) {
            Some(i) => {
                let mut entries = self.take_entries();
                let entry = entries.remove(i);
                assert(plain(entries@) =~= without(old(self).entries(), key@));
                self.entries = entries;
                Some(entry.1)
            },
            None => None,
        }
    }

    /// An index of the entries, taken in one by one: of two entries with one
    /// key the later one wins.
    pub fn from_entries(entries: &Vec<(Vec<u8>, u64)>) -> (index: Index)
        ensures
            index.entries() == collected(plain(entries@)),
            index@ == map_of(plain(entries@)),
    {
        let mut index = Index::new();
        let ghost all = plain(entries@);
        let mut i: usize = 0;
        while i < entries.len()
            invariant
                all == plain(entries@),
                i <= entries.len(),
                index.entries() == collected(all.subrange(0, i as int)),
            decreases entries.len() - i,
        {
            proof {
                let upto = all.subrange(0, i + 1);
                assert(upto.drop_last() =~= all.subrange(0, i as int));
                assert(upto.last() == (entries[i as int].0@, entries[i as int].1));
            }
            index.put(entries[i].0.as_slice(), entries[i].1);
            i += 1;
        }
        proof {
            assert(all.subrange(0, i as int) =~= all);
            lemma_collected(all);
        }
        index
    }

    /// Clears the index, then indexes the records in order: of two records
    /// with one key the later one wins.
    pub fn rebuild_from(&mut self, records: &Vec<(u64, KeyValuePair)>)
        ensures
            final(self).entries() == entries_of(located(records@)),
            final(self)@ == index_of(located(records@)),
    {
        self.clear();
        let ghost all = keyed(located(records@));
        let mut i: usize = 0;
        while i < records.len()
            invariant
                all == keyed(located(records@)),
                i <= records.len(),
                self.entries() == collected(all.subrange(0, i as int)),
            decreases records.len() - i,
        {
            proof {
                let upto = all.subrange(0, i + 1);
                assert(upto.drop_last() =~= all.subrange(0, i as int));
                assert(upto.last() == (records[i as int].1.key@, records[i as int].0));
            }
            self.put(records[i].1.key.as_slice(), records[i].0);
            i += 1;
        }
        proof {
            assert(all.subrange(0, i as int) =~= all);
            lemma_collected(all);
        }
    }

    /// The entries as they are held.
    pub(crate) fn as_entries(&self) -> (entries: &Vec<(Vec<u8>, u64)>)
        ensures
            plain(entries@) == self.entries(),
            distinct(self.entries()),
    {
        proof {
            use_type_invariant(self);
        }
        &self.entries
    }

    /// Takes every entry out.
    pub fn clear(&mut self)
        ensures
            final(self).entries() == Seq::<(Seq<u8>, u64)>::empty(),
            final(self)@ == Map::<Seq<u8>, u64>::empty(),
    {
        let entries: Vec<(Vec<u8>, u64)> = Vec::new();
        assert(plain(entries@) =~= Seq::<(Seq<u8>, u64)>::empty());
        self.entries = entries;
    }
}

} // verus!
