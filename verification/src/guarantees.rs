//! What the store promises across operations, proved from the contracts of
//! the operations.

use crate::checksum::crc32_cksum;
use crate::fault::Fault;
use crate::index::{lemma_collected_distinct, without, Index};
use crate::snapshot::{entries_image, read_back, snapshotted};
use crate::log::{is_whole, lemma_scan_appended, lemma_scan_torn, scan, scan_fault, Located};
use crate::record::{encoded_len, encoding, fits, lemma_record_at_appended, record_at, slot_at};
use crate::record::{lemma_record_at_came_encoded, lemma_record_at_local, lemma_record_at_prefix};
use crate::record::Pair;
use crate::store::{latest, lemma_latest, lemma_scan_reads, lemma_whole_no_fault, replay, ActionKV};
use vstd::prelude::*;

verus! {

/// Decoding inverts encoding: a record is read at an offset exactly when the
/// bytes there are the encoding of that record.
pub proof fn reads_invert_encoding(log: Seq<u8>, off: int, key: Seq<u8>, value: Seq<u8>)
    ensures
        record_at(log, off) == Ok::<Pair, Fault>(Pair { key, value }) <==> {
            &&& fits(key, value)
            &&& 0 <= off
            &&& off + encoded_len(key, value) <= log.len()
            &&& log.subrange(off, off + encoded_len(key, value)) == encoding(key, value)
        },
{
    let len = encoded_len(key, value) as int;
    if record_at(log, off) == Ok::<Pair, Fault>(Pair { key, value }) {
        lemma_record_at_came_encoded(log, off);
    }
    if fits(key, value) && 0 <= off && off + len <= log.len() && log.subrange(off, off + len)
        == encoding(key, value) {
        let front = log.subrange(0, off);
        let frame = log.subrange(off, off + len);
        let back = log.subrange(off + len, log.len() as int);
        assert(log =~= (front + frame) + back);
        lemma_record_at_appended(front, key, value);
        lemma_record_at_prefix(front + frame, back, off);
    }
}

/// Round trip: after a record for `key` and `value` was inserted, a lookup
/// of `key` yields `value`.
pub proof fn insert_then_get(before: ActionKV, after: ActionKV, key: Seq<u8>, value: Seq<u8>)
    requires
        before.inserted(after, key, value),
    ensures
        after.got(key) == Ok::<Option<Seq<u8>>, Fault>(Some(value)),
{
    after.log.lemma_len_bound();
    lemma_record_at_appended(before.log@, key, value);
}

/// Last write wins, through the index: after two inserts for one key a
/// lookup yields the value of the second.
pub proof fn second_insert_wins_get(
    start: ActionKV,
    middle: ActionKV,
    end: ActionKV,
    key: Seq<u8>,
    first: Seq<u8>,
    second: Seq<u8>,
)
    requires
        start.inserted(middle, key, first),
        middle.inserted(end, key, second),
    ensures
        end.got(key) == Ok::<Option<Seq<u8>>, Fault>(Some(second)),
{
    insert_then_get(middle, end, key, second);
}

/// Last write wins, through a full scan: after two inserts for one key into
/// a log of whole records, both records are in the log, and `find` yields
/// the offset and the value of the second.
pub proof fn second_insert_wins_find(
    start: ActionKV,
    middle: ActionKV,
    end: ActionKV,
    key: Seq<u8>,
    first: Seq<u8>,
    second: Seq<u8>,
)
    requires
        is_whole(start.log@),
        start.inserted(middle, key, first),
        middle.inserted(end, key, second),
    ensures
        scan(end.log@, 0) == scan(start.log@, 0).push(
            Located { offset: start.log@.len() as u64, pair: Pair { key, value: first } },
        ).push(Located { offset: middle.log@.len() as u64, pair: Pair { key, value: second } }),
        end.found(key) == Ok::<Option<(u64, Seq<u8>)>, Fault>(
            Some((middle.log@.len() as u64, second)),
        ),
{
    lemma_scan_appended(start.log@, key, first);
    lemma_scan_appended(middle.log@, key, second);
    lemma_whole_no_fault(end.log@);
}

/// A tombstone is a value: after a delete of `key`, a lookup of `key` yields
/// a value, and that value is empty.
pub proof fn delete_then_get(before: ActionKV, after: ActionKV, key: Seq<u8>)
    requires
        before.inserted(after, key, Seq::<u8>::empty()),
    ensures
        after.got(key) == Ok::<Option<Seq<u8>>, Fault>(Some(Seq::<u8>::empty())),
{
    insert_then_get(before, after, key, Seq::<u8>::empty());
}

/// Replay: when a store whose index agrees with its log is opened anew on
/// its log image and loaded, a lookup of any key of the old index yields
/// what it yielded before. The load succeeds where the log consists of whole
/// records.
pub proof fn reload_keeps_lookups(
    store: ActionKV,
    reopened: ActionKV,
    reloaded: ActionKV,
    key: Seq<u8>,
)
    requires
        store.index_agrees(),
        reopened.log@ == store.log@,
        reopened.loaded(reloaded),
        store.index@.contains_key(key),
    ensures
        reloaded.got(key) == store.got(key),
        is_whole(store.log@) ==> !scan_fault(reopened.log@, 0),
{
    if is_whole(store.log@) {
        lemma_whole_no_fault(store.log@);
    }
}

/// The index agrees with the log: where the index agrees with the log and a
/// scan of the log meets no fault, a key of the index is found by a full
/// scan at the offset that the index holds, and a lookup through the index
/// yields the value that the scan finds.
pub proof fn lookup_agrees_with_scan(store: ActionKV, key: Seq<u8>)
    requires
        store.index_agrees(),
        !scan_fault(store.log@, 0),
        store.index@.contains_key(key),
    ensures
        store.found(key) matches Ok(Some((offset, value))) && offset == store.index@[key]
            && store.got(key) == Ok::<Option<Seq<u8>>, Fault>(Some(value)),
{
    let records = scan(store.log@, 0);
    store.log.lemma_len_bound();
    lemma_latest(records, key);
    let (offset, value) = latest(records, key).unwrap();
    let i = choose|i: int|
        0 <= i < records.len() && #[trigger] records[i] == Located {
            offset,
            pair: Pair { key, value },
        };
    lemma_scan_reads(store.log@, 0, i);
}

/// A snapshot leaves the index empty: after a snapshot was written, a lookup
/// of any key yields nothing, until the index is loaded or read back.
pub proof fn snapshot_empties_lookups(
    before: ActionKV,
    after: ActionKV,
    index_key: Seq<u8>,
    key: Seq<u8>,
)
    requires
        snapshotted(before, after, index_key),
    ensures
        after.index@ == Map::<Seq<u8>, u64>::empty(),
        after.got(key) == Ok::<Option<Seq<u8>>, Fault>(None),
{
}

/// A snapshot reads back: the record that a snapshot appends stands at the
/// old end of the log, under the snapshot key, and the index read back from
/// its value holds each entry of the old index but that of the snapshot key.
pub proof fn snapshot_reads_back(
    before: ActionKV,
    after: ActionKV,
    index_key: Seq<u8>,
    restored: Index,
)
    requires
        snapshotted(before, after, index_key),
        read_back(entries_image(without(before.index.entries(), index_key)), restored),
    ensures
        record_at(after.log@, before.log@.len() as int) == Ok::<Pair, Fault>(
            Pair {
                key: index_key,
                value: entries_image(without(before.index.entries(), index_key)),
            },
        ),
        restored.entries() == without(before.index.entries(), index_key),
        restored@ == before.index@.remove(index_key),
        !restored@.contains_key(index_key),
{
    let kept = without(before.index.entries(), index_key);
    lemma_record_at_appended(before.log@, index_key, entries_image(kept));
    lemma_collected_distinct(kept);
}

/// Corruption is detected: when bytes of the payload of a stored record are
/// changed, header and length of the log staying as they were, a read at the
/// record's offset fails with a corruption fault, unless the changed payload
/// has the checksum that the header holds. A flipped bit is the least such
/// change. What the read returns otherwise is the changed payload, never the
/// end of the log and never bytes that the checksum does not cover.
pub proof fn damaged_payload_is_detected(log: Seq<u8>, damaged: Seq<u8>, off: int)
    requires
        record_at(log, off) is Ok,
        damaged.len() == log.len(),
        damaged.subrange(off, off + 12) == log.subrange(off, off + 12),
    ensures
        slot_at(damaged, off) is Some,
        slot_at(damaged, off).unwrap().sum == crc32_cksum(slot_at(log, off).unwrap().payload),
        record_at(damaged, off) == Err::<Pair, Fault>(Fault::Corrupt) <==> crc32_cksum(
            slot_at(damaged, off).unwrap().payload,
        ) != crc32_cksum(slot_at(log, off).unwrap().payload),
        record_at(damaged, off) matches Ok(pair) ==> pair.key + pair.value == slot_at(
            damaged,
            off,
        ).unwrap().payload,
{
    let header = log.subrange(off, off + 12);
    let changed = damaged.subrange(off, off + 12);
    assert(log.subrange(off, off + 4) =~= header.subrange(0, 4));
    assert(log.subrange(off + 4, off + 8) =~= header.subrange(4, 8));
    assert(log.subrange(off + 8, off + 12) =~= header.subrange(8, 12));
    assert(damaged.subrange(off, off + 4) =~= changed.subrange(0, 4));
    assert(damaged.subrange(off + 4, off + 8) =~= changed.subrange(4, 8));
    assert(damaged.subrange(off + 8, off + 12) =~= changed.subrange(8, 12));
    let slot = slot_at(damaged, off).unwrap();
    assert(slot.key() + slot.value() =~= slot.payload);
}

/// Damage stays where it is: bytes changed outside a stored record leave a
/// read at the record's offset as it was.
pub proof fn damage_elsewhere_is_not_seen(log: Seq<u8>, damaged: Seq<u8>, off: int)
    requires
        record_at(log, off) matches Ok(pair) && off + encoded_len(pair.key, pair.value)
            <= damaged.len() && damaged.subrange(
            off,
            off + encoded_len(pair.key, pair.value),
        ) == log.subrange(off, off + encoded_len(pair.key, pair.value)),
    ensures
        record_at(damaged, off) == record_at(log, off),
{
    let pair = record_at(log, off).unwrap();
    lemma_record_at_local(log, damaged, off, encoded_len(pair.key, pair.value) as int);
}

/// Loading is idempotent: a second load of an unchanged log leaves the index
/// that the first one built.
pub proof fn load_twice_is_load_once(start: ActionKV, once: ActionKV, twice: ActionKV)
    requires
        start.loaded(once),
        once.loaded(twice),
    ensures
        twice.log == once.log,
        twice.index.entries() == once.index.entries(),
        twice.index@ == once.index@,
{
}

/// A torn tail is tolerated: when a log of whole records is followed by a
/// proper prefix of one more record, a scan of it meets no fault and yields
/// the records of the whole part, and a replay builds the index of the whole
/// part.
pub proof fn torn_tail_is_tolerated(
    whole: Seq<u8>,
    key: Seq<u8>,
    value: Seq<u8>,
    cut: int,
)
    requires
        is_whole(whole),
        fits(key, value),
        0 <= cut < encoded_len(key, value),
    ensures
        !scan_fault(whole + encoding(key, value).subrange(0, cut), 0),
        scan(whole + encoding(key, value).subrange(0, cut), 0) == scan(whole, 0),
        replay(whole + encoding(key, value).subrange(0, cut)) == replay(whole),
{
    lemma_scan_torn(whole, key, value, cut);
}

} // verus!
