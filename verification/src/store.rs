//! Store facade: the log and the index behind `get`, `insert`, `update`,
//! `delete`, `find` and `load`.
//!
//! Lookups through the index read one record; `find` reads the whole log and
//! needs no index. A deleted key is a key whose latest record has an empty
//! value: `get` returns that empty value.

use crate::fault::Fault;
use crate::index::{entries_of, index_of, keyed, with_entry, Index};
use crate::index::same_bytes;
use crate::log::{is_whole, lemma_scan_appended, scan, scan_end, scan_fault, Located, Log};
use crate::record::{encoded_len, encoding, fits, record_at, KeyValuePair, Pair};
use vstd::prelude::*;

verus! {

/// The index that replaying a log from offset zero builds.
pub open spec fn replay(log: Seq<u8>) -> Map<Seq<u8>, u64> {
    index_of(scan(log, 0))
}

/// The offset and the value of the last of the records that holds `key`.
pub open spec fn latest(records: Seq<Located>, key: Seq<u8>) -> Option<(u64, Seq<u8>)>
    decreases records.len(),
{
    if records.len() == 0 {
        None
    } else if records.last().pair.key == key {
        Some((records.last().offset, records.last().pair.value))
    } else {
        latest(records.drop_last(), key)
    }
}

/// What a lookup through an index yields: nothing for a key that the index
/// lacks, else the value of the record at the offset on record, or the fault
/// that reading there runs into.
pub open spec fn value_at(log: Seq<u8>, index: Map<Seq<u8>, u64>, key: Seq<u8>) -> Result<
    Option<Seq<u8>>,
    Fault,
> {
    match index.get(key) {
        None => Ok(None),
        Some(offset) => match record_at(log, offset as int) {
            Ok(pair) => Ok(Some(pair.value)),
            Err(fault) => Err(fault),
        },
    }
}

/// What a full scan yields for a key: the latest record that holds it, or
/// the corruption fault that stops the scan.
pub open spec fn latest_in(log: Seq<u8>, key: Seq<u8>) -> Result<Option<(u64, Seq<u8>)>, Fault> {
    if scan_fault(log, 0) {
        Err(Fault::Corrupt)
    } else {
        Ok(latest(scan(log, 0), key))
    }
}

/// The result of `get` as plain values.
pub open spec fn value_view(r: Result<Option<Vec<u8>>, Fault>) -> Result<Option<Seq<u8>>, Fault> {
    match r {
        Ok(Some(value)) => Ok(Some(value@)),
        Ok(None) => Ok(None),
        Err(fault) => Err(fault),
    }
}

/// The result of `find` as plain values.
pub open spec fn match_view(r: Result<Option<(u64, Vec<u8>)>, Fault>) -> Result<
    Option<(u64, Seq<u8>)>,
    Fault,
> {
    match r {
        Ok(Some((offset, value))) => Ok(Some((offset, value@))),
        Ok(None) => Ok(None),
        Err(fault) => Err(fault),
    }
}

/// What the store knows of a key, a deleted key told apart from one that the
/// index has no entry for.
#[derive(Debug, PartialEq, Eq)]
pub enum Lookup {
    /// The latest record of the key holds this value, which is not empty.
    Present(Vec<u8>),
    /// The latest record of the key holds an empty value.
    Tombstoned,
    /// The index has no entry for the key.
    NeverWritten,
}

/// The key-value store: a log and the index over it.
#[derive(Debug)]
pub struct ActionKV {
    pub log: Log,
    pub index: Index,
}

impl ActionKV {
    /// What `get(key)` returns in this state.
    pub open spec fn got(self, key: Seq<u8>) -> Result<Option<Seq<u8>>, Fault> {
        value_at(self.log@, self.index@, key)
    }

    /// What `find(key)` returns in this state.
    pub open spec fn found(self, key: Seq<u8>) -> Result<Option<(u64, Seq<u8>)>, Fault> {
        latest_in(self.log@, key)
    }

    /// `after` is this store after a record for `key` and `value` was
    /// appended and indexed.
    pub open spec fn inserted(self, after: Self, key: Seq<u8>, value: Seq<u8>) -> bool {
        &&& fits(key, value)
        &&& after.log@ == self.log@ + encoding(key, value)
        &&& after.index.entries() == with_entry(self.index.entries(), key, self.log@.len() as u64)
        &&& after.index@ == self.index@.insert(key, self.log@.len() as u64)
    }

    /// `after` is this store after a load that met no corrupt record.
    pub open spec fn loaded(self, after: Self) -> bool {
        &&& after.log == self.log
        &&& after.index.entries() == entries_of(scan(self.log@, 0))
        &&& after.index@ == replay(self.log@)
    }

    /// Each key of the index is on record with the offset of the latest
    /// record that a scan of the log finds for it.
    pub open spec fn index_agrees(self) -> bool {
        self.index@.submap_of(replay(self.log@))
    }

    /// The log consists of whole records, and the index agrees with it.
    pub open spec fn in_sync(self) -> bool {
        &&& is_whole(self.log@)
        &&& self.index_agrees()
    }

    /// Attaches a log image. Nothing is read: the index starts out empty.
    pub fn open(bytes: Vec<u8>) -> (store: ActionKV)
        ensures
            store.log@ == bytes@,
            store.index.entries() == Seq::<(Seq<u8>, u64)>::empty(),
            store.index@ == Map::<Seq<u8>, u64>::empty(),
            store.index_agrees(),
            is_whole(bytes@) ==> store.in_sync(),
    {
        ActionKV { log: Log::from_bytes(bytes), index: Index::new() }
    }

    /// The offset at which the next record will be appended.
    pub fn seek_to_end(&self) -> (end: u64)
        ensures
            end == self.log@.len(),
    {
        self.log.len()
    }

    /// Decodes the record at `position`, whatever the index says.
    pub fn get_at(&self, position: u64) -> (r: Result<KeyValuePair, Fault>)
        ensures
            match r {
                Ok(kv) => record_at(self.log@, position as int) == Ok::<Pair, Fault>(kv@),
                Err(fault) => record_at(self.log@, position as int) == Err::<Pair, Fault>(fault),
            },
    {
        self.log.read_at(position)
    }

    /// Looks `key` up as `get` does, and tells a tombstone from a value and
    /// from a key without an entry.
    pub fn lookup(&self, key: &[u8]) -> (r: Result<Lookup, Fault>)
        ensures
            match r {
                Ok(Lookup::Present(value)) => value@.len() > 0 && self.got(key@) == Ok::<
                    Option<Seq<u8>>,
                    Fault,
                >(Some(value@)),
                Ok(Lookup::Tombstoned) => self.got(key@) == Ok::<Option<Seq<u8>>, Fault>(
                    Some(Seq::<u8>::empty()),
                ),
                Ok(Lookup::NeverWritten) => self.got(key@) == Ok::<Option<Seq<u8>>, Fault>(None),
                Err(fault) => self.got(key@) == Err::<Option<Seq<u8>>, Fault>(fault),
            },
    {
        match self.get(key) {
            Ok(Some(value)) => {
                if value.len() == 0 {
                    assert(value@ =~= Seq::<u8>::empty());
                    Ok(Lookup::Tombstoned)
                } else {
                    Ok(Lookup::Present(value))
                }
            },
            Ok(None) => Ok(Lookup::NeverWritten),
            Err(fault) => Err(fault),
        }
    }

    /// Scans the log from offset zero and rebuilds the index from what the
    /// scan yields. A torn record at the end is where the scan ends; a
    /// corrupt record fails the load and leaves the index as it was.
    pub fn load(&mut self) -> (r: Result<(), Fault>)
        ensures
            match r {
                Ok(()) => !scan_fault(old(self).log@, 0) && old(self).loaded(*final(self)),
                Err(fault) => {
                    &&& fault == Fault::Corrupt
                    &&& scan_fault(old(self).log@, 0)
                    &&& *final(self) == *old(self)
                },
            },
            r is Ok ==> final(self).index_agrees(),
            is_whole(old(self).log@) ==> r is Ok && final(self).in_sync(),
    {
        match self.log.scan_from(0) {
            Ok(records) => {
                self.index.rebuild_from(&records);
                Ok(())
            },
            Err(fault) => Err(fault),
        }
    }

    /// Scans the whole log, whatever the index says, and returns the offset
    /// and the value of the last record that holds `target`.
    pub fn find(&self, target: &[u8]) -> (r: Result<Option<(u64, Vec<u8>)>, Fault>)
        ensures
            match_view(r) == self.found(target@),
    {
        let mut found: Option<(u64, Vec<u8>)> = None;
        let mut pos: u64 = 0;
        let ghost mut seen: Seq<Located> = Seq::empty();
        assert(seen + scan(self.log@, 0) =~= scan(self.log@, 0));
        loop
            invariant
                scan(self.log@, 0) == seen + scan(self.log@, pos as int),
                scan_end(self.log@, 0) == scan_end(self.log@, pos as int),
                match_view(Ok(found)) == Ok::<Option<(u64, Seq<u8>)>, Fault>(
                    latest(seen, target@),
                ),
            decreases self.log@.len() - pos,
        {
            match self.log.read_next(pos) {
                Ok((kv, next)) => {
                    proof {
                        let one = Located { offset: pos, pair: kv@ };
                        assert(seen.push(one).drop_last() =~= seen);
                        assert(seen.push(one) + scan(self.log@, next as int) =~= seen + (seq![one]
                            + scan(self.log@, next as int)));
                        seen = seen.push(one);
                    }
                    if same_bytes(kv.key.as_slice(), target) {
                        found = Some((pos, kv.value));
                    }
                    pos = next;
                },
                Err(Fault::EndOfLog) => {
                    assert(seen + Seq::<Located>::empty() =~= seen);
                    return Ok(found);
                },
                Err(fault) => {
                    return Err(fault);
                },
            }
        }
    }

    /// Appends a record for `key` and `value` to the log, and returns the
    /// offset at which it starts. The index is left alone.
    pub fn insert_but_ignore_index(&mut self, key: &[u8], value: &[u8]) -> (r: Result<u64, Fault>)
        ensures
            final(self).index == old(self).index,
            match r {
                Ok(offset) => {
                    &&& fits(key@, value@)
                    &&& offset == old(self).log@.len()
                    &&& final(self).log@ == old(self).log@ + encoding(key@, value@)
                },
                Err(fault) => {
                    &&& !fits(key@, value@)
                    &&& fault == Fault::TooLarge
                    &&& *final(self) == *old(self)
                },
            },
    {
        self.log.append(key, value)
    }

    /// Appends a record for `key` and `value`, and points the index at it.
    /// Fails, and changes nothing, only when the key or the value does not
    /// fit a record.
    pub fn insert(&mut self, key: &[u8], value: &[u8]) -> (r: Result<(), Fault>)
        ensures
            match r {
                Ok(()) => old(self).inserted(*final(self), key@, value@),
                Err(fault) => {
                    &&& !fits(key@, value@)
                    &&& fault == Fault::TooLarge
                    &&& *final(self) == *old(self)
                },
            },
            old(self).in_sync() ==> final(self).in_sync(),
    {
        match self.insert_but_ignore_index(key, value) {
            Ok(position) => {
                self.index.put(key, position);
                proof {
                    lemma_inserted_in_sync(*old(self), *self, key@, value@);
                }
                Ok(())
            },
            Err(fault) => Err(fault),
        }
    }

    /// Writes a new value for `key`: the same as `insert`, whether or not
    /// the key was written before.
    pub fn update(&mut self, key: &[u8], value: &[u8]) -> (r: Result<(), Fault>)
        ensures
            match r {
                Ok(()) => old(self).inserted(*final(self), key@, value@),
                Err(fault) => {
                    &&& !fits(key@, value@)
                    &&& fault == Fault::TooLarge
                    &&& *final(self) == *old(self)
                },
            },
            old(self).in_sync() ==> final(self).in_sync(),
    {
        self.insert(key, value)
    }

    /// Marks `key` as deleted by writing an empty value for it. Nothing is
    /// taken out of the log or the index.
    pub fn delete(&mut self, key: &[u8]) -> (r: Result<(), Fault>)
        ensures
            match r {
                Ok(()) => old(self).inserted(*final(self), key@, Seq::<u8>::empty()),
                Err(fault) => {
                    &&& key@.len() > u32::MAX
                    &&& fault == Fault::TooLarge
                    &&& *final(self) == *old(self)
                },
            },
            old(self).in_sync() ==> final(self).in_sync(),
    {
        let tombstone: Vec<u8> = Vec::new();
        self.insert(key, tombstone.as_slice())
    }

    /// Looks `key` up in the index and reads its value from the log.
    pub fn get(&self, key: &[u8]) -> (r: Result<Option<Vec<u8>>, Fault>)
        ensures
            value_view(r) == self.got(key@),
    {
        match self.index.lookup(key) {
            None => Ok(None),
            Some(position) => match self.get_at(position) {
                Ok(kv) => Ok(Some(kv.value)),
                Err(fault) => Err(fault),
            },
        }
    }
}

/// Each record that a scan yields is the record read at its offset.
pub proof fn lemma_scan_reads(log: Seq<u8>, off: int, i: int)
    requires
        0 <= off,
        log.len() <= u64::MAX,
        0 <= i < scan(log, off).len(),
    ensures
        record_at(log, scan(log, off)[i].offset as int) == Ok::<Pair, Fault>(
            scan(log, off)[i].pair,
        ),
    decreases log.len() - off,
{
    let pair = record_at(log, off).unwrap();
    if i > 0 {
        let next = off + encoded_len(pair.key, pair.value);
        lemma_scan_reads(log, next, i - 1);
        assert(scan(log, off)[i] == scan(log, next)[i - 1]);
    }
}

/// The last record that holds a key is among the records, and the index of
/// the records gives its offset; a key that no record holds has no entry.
pub proof fn lemma_latest(records: Seq<Located>, key: Seq<u8>)
    ensures
        match latest(records, key) {
            Some((offset, value)) => {
                &&& index_of(records).get(key) == Some(offset)
                &&& exists|i: int|
                    0 <= i < records.len() && #[trigger] records[i] == Located {
                        offset,
                        pair: Pair { key, value },
                    }
            },
            None => index_of(records).get(key) is None,
        },
    decreases records.len(),
{
    if records.len() > 0 {
        let front = records.drop_last();
        lemma_latest(front, key);
        assert(keyed(records).drop_last() =~= keyed(front));
        if records.last().pair.key == key {
            let i = records.len() - 1;
            assert(records[i] == Located {
                offset: records.last().offset,
                pair: Pair { key, value: records.last().pair.value },
            });
        } else if let Some((offset, value)) = latest(front, key) {
            let i = choose|i: int|
                0 <= i < front.len() && #[trigger] front[i] == Located {
                    offset,
                    pair: Pair { key, value },
                };
            assert(records[i] == front[i]);
        }
    }
}

/// A log of whole records is scanned without a fault.
pub proof fn lemma_whole_no_fault(log: Seq<u8>)
    requires
        is_whole(log),
    ensures
        !scan_fault(log, 0),
{
}

/// An insert into a store that is in sync leaves it in sync.
pub proof fn lemma_inserted_in_sync(
    before: ActionKV,
    after: ActionKV,
    key: Seq<u8>,
    value: Seq<u8>,
)
    requires
        before.inserted(after, key, value),
    ensures
        before.in_sync() ==> after.in_sync(),
{
    if before.in_sync() {
        lemma_scan_appended(before.log@, key, value);
        let offset = before.log@.len() as u64;
        let one = Located { offset, pair: Pair { key, value } };
        let entries = keyed(scan(before.log@, 0));
        assert(keyed(scan(before.log@, 0).push(one)) =~= entries.push((key, offset)));
        assert(entries.push((key, offset)).drop_last() =~= entries);
        assert(replay(after.log@) == replay(before.log@).insert(key, offset));
        assert forall|k: Seq<u8>| #[trigger]
            after.index@.dom().contains(k) implies replay(after.log@).dom().contains(k)
            && after.index@[k] == replay(after.log@)[k] by {
            if k != key {
                assert(before.index@.dom().contains(k));
                assert(replay(before.log@).dom().contains(k));
            }
        }
    }
}

} // verus!
