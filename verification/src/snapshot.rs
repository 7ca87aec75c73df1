//! Index snapshots: the index, serialised, kept in the log as the value of a
//! record under a key that the caller reserves for it.
//!
//! Writing a snapshot empties the in-memory index. From then on the index is
//! stale, until the next `load` or until a snapshot is read back into it.

use crate::fault::Fault;
use crate::endian::le_bytes_u64;
use crate::index::{collected, distinct, map_of, plain, without, Index};
use crate::log::lemma_scan_appended;
use crate::record::{encoding, fits};
use crate::store::ActionKV;
use vstd::prelude::*;

verus! {

/// The error type of `bincode`, carried through and never looked into.
#[verifier::external_type_specification]
#[verifier::external_body]
pub struct ExErrorKind(bincode::ErrorKind);

/// The bytes of one entry in a snapshot: the length of the key in eight
/// bytes, the key, and the offset in eight bytes.
pub open spec fn entry_image(entry: (Seq<u8>, u64)) -> Seq<u8> {
    le_bytes_u64(entry.0.len() as u64) + entry.0 + le_bytes_u64(entry.1)
}

/// The bytes of a run of entries, one behind the other.
pub open spec fn entries_body(entries: Seq<(Seq<u8>, u64)>) -> Seq<u8>
    decreases entries.len(),
{
    if entries.len() == 0 {
        Seq::empty()
    } else {
        entries_body(entries.drop_last()) + entry_image(entries.last())
    }
}

/// The bytes of a snapshot: the number of entries in eight bytes, then the
/// entries in order. Every number stands least significant byte first.
pub open spec fn entries_image(entries: Seq<(Seq<u8>, u64)>) -> Seq<u8> {
    le_bytes_u64(entries.len() as u64) + entries_body(entries)
}

/// The list of entries that `bincode::deserialize` reads from bytes, or
/// nothing where it refuses them. It is a function of the bytes alone.
pub uninterp spec fn image_entries(image: Seq<u8>) -> Option<Seq<(Seq<u8>, u64)>>;

/// `bincode::serialize` on a list of (key, offset) entries. The call
/// succeeds on every such list: no size limit is set, the length of each
/// sequence is known, and the bytes go into a vector. The bytes are laid out
/// as the crate documents it for this function, which writes integers at
/// fixed width and little-endian: a sequence as its length in eight bytes
/// and then its items, a tuple as its fields, a 64-bit number in eight
/// bytes, the least significant first. And `bincode::deserialize` reads
/// from these bytes the entries that went in.
#[verifier::external_body]
fn serialize_entries(entries: &Vec<(Vec<u8>, u64)>) -> (r: Result<Vec<u8>, Box<bincode::ErrorKind>>)
    ensures
        r is Ok,
        r matches Ok(image) ==> image@ == entries_image(plain(entries@)),
        r matches Ok(image) ==> image_entries(image@) == Some(plain(entries@)),
{
    bincode::serialize(entries)
}

/// `bincode::deserialize` to a list of (key, offset) entries: it succeeds
/// exactly on the bytes that have entries, and returns those.
#[verifier::external_body]
fn deserialize_entries(image: &[u8]) -> (r: Result<Vec<(Vec<u8>, u64)>, Box<bincode::ErrorKind>>)
    ensures
        match r {
            Ok(entries) => image_entries(image@) == Some(plain(entries@)),
            Err(_) => image_entries(image@) is None,
        },
{
    bincode::deserialize(image)
}

/// Appends `image` as the value of a record under `index_key`, and empties
/// the index. An image that does not fit a record changes nothing.
pub fn write_snapshot(a: &mut ActionKV, index_key: &[u8], image: &[u8]) -> (r: Result<(), Fault>)
    ensures
        match r {
            Ok(()) => {
                &&& fits(index_key@, image@)
                &&& final(a).log@ == old(a).log@ + encoding(index_key@, image@)
                &&& final(a).index.entries() == Seq::<(Seq<u8>, u64)>::empty()
            },
            Err(fault) => {
                &&& !fits(index_key@, image@)
                &&& fault == Fault::TooLarge
                &&& *final(a) == *old(a)
            },
        },
        old(a).in_sync() ==> final(a).in_sync(),
{
    match a.insert_but_ignore_index(index_key, image) {
        Ok(_) => {
            a.index.clear();
            proof {
                if old(a).in_sync() {
                    lemma_scan_appended(old(a).log@, index_key@, image@);
                }
            }
            Ok(())
        },
        Err(fault) => Err(fault),
    }
}

/// `after` is `before` after a snapshot of its index was written under
/// `key`: one record is appended under `key`, whose value is the image of
/// the entries of the index but that of `key`, and the index is empty.
pub open spec fn snapshotted(before: ActionKV, after: ActionKV, key: Seq<u8>) -> bool {
    let kept = without(before.index.entries(), key);
    &&& fits(key, entries_image(kept))
    &&& after.log@ == before.log@ + encoding(key, entries_image(kept))
    &&& after.index.entries() == Seq::<(Seq<u8>, u64)>::empty()
    &&& distinct(kept)
    &&& map_of(kept) == before.index@.remove(key)
    &&& image_entries(entries_image(kept)) == Some(kept)
}

/// `index` is the index that is read back from the bytes `image`.
pub open spec fn read_back(image: Seq<u8>, index: Index) -> bool {
    &&& image_entries(image) matches Some(entries)
    &&& index.entries() == collected(entries)
    &&& index@ == map_of(entries)
}

/// Writes the index into the log as a snapshot under `index_key`: takes any
/// entry of `index_key` out of the index, serialises the entries that are
/// left, appends them as the value of a record under `index_key`, and
/// empties the index. The index is stale from then on, until it is loaded
/// or read back. The call fails only when the snapshot does not fit a
/// record; then the log is as it was, and the index lacks at most the entry
/// of `index_key`.
pub fn store_index_on_disk(a: &mut ActionKV, index_key: &[u8]) -> (r: Result<(), Fault>)
    ensures
        match r {
            Ok(()) => snapshotted(*old(a), *final(a), index_key@),
            Err(fault) => {
                let kept = without(old(a).index.entries(), index_key@);
                &&& fault == Fault::TooLarge
                &&& !fits(index_key@, entries_image(kept))
                &&& final(a).log == old(a).log
                &&& final(a).index.entries() == kept
                &&& final(a).index@ == old(a).index@.remove(index_key@)
            },
        },
        old(a).in_sync() ==> final(a).in_sync(),
{
    a.index.remove(index_key);
    match serialize_entries(a.index.as_entries()) {
        Ok(image) => write_snapshot(a, index_key, image.as_slice()),
        // Not reached: entries are serialised without fail.
        Err(_) => Err(Fault::Snapshot),
    }
}

/// Reads an index back from the bytes of a snapshot. Of two entries with one
/// key the later one counts.
pub fn index_from_image(image: &[u8]) -> (r: Result<Index, Fault>)
    ensures
        match r {
            Ok(index) => read_back(image@, index),
            Err(fault) => fault == Fault::Snapshot && image_entries(image@) is None,
        },
{
    match deserialize_entries(image) {
        Ok(entries) => Ok(Index::from_entries(&entries)),
        Err(_) => Err(Fault::Snapshot),
    }
}

} // verus!
