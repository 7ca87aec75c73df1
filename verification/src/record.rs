//! Record codec: framing and unframing of a single key-value record.
//!
//! On the wire a record is `checksum | key_len | value_len | key | value`,
//! the three header fields being 32-bit little-endian integers and the
//! checksum covering `key ++ value`.

use crate::checksum::{checksum, crc32_cksum};
use crate::endian::{le_bytes, le_u32, read_u32_le, u32_le_bytes};
use crate::endian::{lemma_le_bytes_of_le_u32, lemma_le_u32_of_le_bytes};
use crate::fault::Fault;
use vstd::prelude::*;
use vstd::slice::slice_subrange;
use vstd::slice::slice_to_vec;

verus! {

/// One record: a key and the value written for it.
#[derive(Debug, PartialEq, Eq)]
pub struct KeyValuePair {
    pub key: Vec<u8>,
    pub value: Vec<u8>,
}

/// A record as a pair of byte sequences.
pub struct Pair {
    pub key: Seq<u8>,
    pub value: Seq<u8>,
}

impl View for KeyValuePair {
    type V = Pair;

    open spec fn view(&self) -> Pair {
        Pair { key: self.key@, value: self.value@ }
    }
}

/// Both lengths can be written into a 32-bit header field.
pub open spec fn fits(key: Seq<u8>, value: Seq<u8>) -> bool {
    key.len() <= u32::MAX && value.len() <= u32::MAX
}

/// A header followed by a payload.
pub open spec fn sealed(sum: u32, key_len: u32, value_len: u32, payload: Seq<u8>) -> Seq<u8> {
    le_bytes(sum) + le_bytes(key_len) + le_bytes(value_len) + payload
}

/// The bytes that a record occupies in the log.
pub open spec fn encoding(key: Seq<u8>, value: Seq<u8>) -> Seq<u8> {
    sealed(crc32_cksum(key + value), key.len() as u32, value.len() as u32, key + value)
}

/// Length of the bytes that a record occupies in the log.
pub open spec fn encoded_len(key: Seq<u8>, value: Seq<u8>) -> nat {
    12 + key.len() + value.len()
}

/// Frames a payload behind a header that holds the given checksum and lengths.
pub fn seal(sum: u32, key_len: u32, value_len: u32, payload: &[u8]) -> (bytes: Vec<u8>)
    ensures
        bytes@ == sealed(sum, key_len, value_len, payload@),
{
    let mut bytes: Vec<u8> = Vec::new();
    let sum_bytes = u32_le_bytes(sum);
    let key_len_bytes = u32_le_bytes(key_len);
    let value_len_bytes = u32_le_bytes(value_len);
    bytes.extend_from_slice(sum_bytes.as_slice());
    bytes.extend_from_slice(key_len_bytes.as_slice());
    bytes.extend_from_slice(value_len_bytes.as_slice());
    bytes.extend_from_slice(payload);
    assert(bytes@ =~= sealed(sum, key_len, value_len, payload@));
    bytes
}

/// Encodes a record: checksum over `key ++ value`, then the header, then the
/// payload. Fails only when a length does not fit its header field.
pub fn encode(key: &[u8], value: &[u8]) -> (r: Result<Vec<u8>, Fault>)
    ensures
        match r {
            Ok(bytes) => fits(key@, value@) && bytes@ == encoding(key@, value@),
            Err(fault) => !fits(key@, value@) && fault == Fault::TooLarge,
        },
{
    if key.len() > 0xffff_ffff || value.len() > 0xffff_ffff {
        return Err(Fault::TooLarge);
    }
    let mut payload: Vec<u8> = Vec::new();
    payload.extend_from_slice(key);
    payload.extend_from_slice(value);
    assert(payload@ =~= key@ + value@);
    let sum: u32 = checksum(payload.as_slice());
    Ok(seal(sum, key.len() as u32, value.len() as u32, payload.as_slice()))
}

/// What the framing alone finds at an offset: the header's checksum, and the
/// payload with the length of the key in front of it.
pub struct Slot {
    pub sum: u32,
    pub key_len: nat,
    pub payload: Seq<u8>,
}

impl Slot {
    /// The key is part of the payload.
    pub open spec fn wf(self) -> bool {
        self.key_len <= self.payload.len()
    }

    /// The payload up to the key length.
    pub open spec fn key(self) -> Seq<u8> {
        self.payload.subrange(0, self.key_len as int)
    }

    /// The payload after the key.
    pub open spec fn value(self) -> Seq<u8> {
        self.payload.subrange(self.key_len as int, self.payload.len() as int)
    }
}

/// A framed record whose checksum has not been looked at yet.
pub struct RawRecord<'a> {
    pub sum: u32,
    pub key_len: usize,
    pub payload: &'a [u8],
}

impl<'a> View for RawRecord<'a> {
    type V = Slot;

    open spec fn view(&self) -> Slot {
        Slot { sum: self.sum, key_len: self.key_len as nat, payload: self.payload@ }
    }
}

/// The frame that starts at `off`, if the log holds all of it: twelve header
/// bytes and as many payload bytes as the two length fields say.
pub open spec fn slot_at(log: Seq<u8>, off: int) -> Option<Slot> {
    if off < 0 || off + 12 > log.len() {
        None
    } else {
        let key_len = le_u32(log.subrange(off + 4, off + 8));
        let value_len = le_u32(log.subrange(off + 8, off + 12));
        if off + 12 + key_len + value_len > log.len() {
            None
        } else {
            Some(
                Slot {
                    sum: le_u32(log.subrange(off, off + 4)),
                    key_len: key_len as nat,
                    payload: log.subrange(off + 12, off + 12 + key_len + value_len),
                },
            )
        }
    }
}

/// The verdict on a frame, given the checksum computed over its payload:
/// the record when it equals the stored one, a corruption fault otherwise.
pub open spec fn judged(slot: Slot, computed: u32) -> Result<Pair, Fault> {
    if computed == slot.sum {
        Ok(Pair { key: slot.key(), value: slot.value() })
    } else {
        Err(Fault::Corrupt)
    }
}

/// What a read at `off` yields: the record stored there, `EndOfLog` when the
/// log ends before the record does, `Corrupt` when its checksum is wrong.
pub open spec fn record_at(log: Seq<u8>, off: int) -> Result<Pair, Fault> {
    match slot_at(log, off) {
        None => Err(Fault::EndOfLog),
        Some(slot) => judged(slot, crc32_cksum(slot.payload)),
    }
}

/// Reads the header at `offset` and borrows the payload it announces. `None`
/// when fewer than twelve bytes are left at `offset`, or fewer payload bytes
/// than announced.
pub fn read_slot<'a>(log: &'a [u8], offset: u64) -> (r: Option<RawRecord<'a>>)
    ensures
        match r {
            Some(raw) => slot_at(log@, offset as int) == Some(raw@) && raw@.wf(),
            None => slot_at(log@, offset as int) is None,
        },
{
    let len: usize = log.len();
    if offset > len as u64 {
        return None;
    }
    let start: usize = offset as usize;
    if len - start < 12 {
        return None;
    }
    let sum: u32 = read_u32_le(slice_subrange(log, start, start + 4));
    let key_len: u32 = read_u32_le(slice_subrange(log, start + 4, start + 8));
    let value_len: u32 = read_u32_le(slice_subrange(log, start + 8, start + 12));
    let room: usize = len - start - 12;
    if key_len as u64 + value_len as u64 > room as u64 {
        return None;
    }
    let payload_len: usize = key_len as usize + value_len as usize;
    let payload = slice_subrange(log, start + 12, start + 12 + payload_len);
    Some(RawRecord { sum, key_len: key_len as usize, payload })
}

/// Accepts or rejects a framed record, given the checksum computed over its
/// payload, and splits an accepted payload into key and value.
pub fn unseal(raw: &RawRecord, computed: u32) -> (r: Result<KeyValuePair, Fault>)
    requires
        raw@.wf(),
    ensures
        match r {
            Ok(kv) => judged(raw@, computed) == Ok::<Pair, Fault>(kv@),
            Err(fault) => judged(raw@, computed) == Err::<Pair, Fault>(fault),
        },
{
    if computed != raw.sum {
        return Err(Fault::Corrupt);
    }
    let key = slice_to_vec(slice_subrange(raw.payload, 0, raw.key_len));
    let value = slice_to_vec(slice_subrange(raw.payload, raw.key_len, raw.payload.len()));
    Ok(KeyValuePair { key, value })
}

/// Decodes the record that starts at `offset`.
pub fn process_record(log: &[u8], offset: u64) -> (r: Result<KeyValuePair, Fault>)
    ensures
        match r {
            Ok(kv) => record_at(log@, offset as int) == Ok::<Pair, Fault>(kv@),
            Err(fault) => record_at(log@, offset as int) == Err::<Pair, Fault>(fault),
        },
{
    match read_slot(log, offset) {
        None => Err(Fault::EndOfLog),
        Some(raw) => {
            let computed: u32 = checksum(raw.payload);
            unseal(&raw, computed)
        },
    }
}

/// A record that was appended to a log is read back at the offset at which
/// it was appended.
pub proof fn lemma_record_at_appended(log: Seq<u8>, key: Seq<u8>, value: Seq<u8>)
    requires
        fits(key, value),
    ensures
        record_at(log + encoding(key, value), log.len() as int) == Ok::<Pair, Fault>(
            Pair { key, value },
        ),
{
    let sum = crc32_cksum(key + value);
    let key_len = key.len() as u32;
    let value_len = value.len() as u32;
    let whole = log + encoding(key, value);
    let off = log.len() as int;
    lemma_le_u32_of_le_bytes(sum);
    lemma_le_u32_of_le_bytes(key_len);
    lemma_le_u32_of_le_bytes(value_len);
    assert(whole.subrange(off, off + 4) =~= le_bytes(sum));
    assert(whole.subrange(off + 4, off + 8) =~= le_bytes(key_len));
    assert(whole.subrange(off + 8, off + 12) =~= le_bytes(value_len));
    assert(whole.subrange(off + 12, off + 12 + key_len + value_len) =~= key + value);
    let slot = slot_at(whole, off).unwrap();
    assert(slot.key() =~= key);
    assert(slot.value() =~= value);
}

/// The bytes of a record that is read at an offset are the encoding of the
/// record.
pub proof fn lemma_record_at_came_encoded(log: Seq<u8>, off: int)
    requires
        record_at(log, off) is Ok,
    ensures
        ({
            let pair = record_at(log, off).unwrap();
            &&& fits(pair.key, pair.value)
            &&& 0 <= off
            &&& off + encoded_len(pair.key, pair.value) <= log.len()
            &&& log.subrange(off, off + encoded_len(pair.key, pair.value)) == encoding(
                pair.key,
                pair.value,
            )
        }),
{
    let pair = record_at(log, off).unwrap();
    let slot = slot_at(log, off).unwrap();
    let sum_bytes = log.subrange(off, off + 4);
    let key_len_bytes = log.subrange(off + 4, off + 8);
    let value_len_bytes = log.subrange(off + 8, off + 12);
    assert(pair.key + pair.value =~= slot.payload);
    assert(pair.key.len() as u32 == le_u32(key_len_bytes));
    assert(pair.value.len() as u32 == le_u32(value_len_bytes));
    lemma_le_bytes_of_le_u32(sum_bytes);
    lemma_le_bytes_of_le_u32(key_len_bytes);
    lemma_le_bytes_of_le_u32(value_len_bytes);
    let header = sum_bytes + key_len_bytes + value_len_bytes;
    assert(encoding(pair.key, pair.value) == header + slot.payload);
    assert(log.subrange(off, off + 12) =~= header);
    assert(log.subrange(off, off + 12 + slot.payload.len()) =~= log.subrange(off, off + 12)
        + slot.payload);
}

/// A record of which only a proper prefix was appended reads as the end of
/// the log.
pub proof fn lemma_record_at_torn(log: Seq<u8>, key: Seq<u8>, value: Seq<u8>, cut: int)
    requires
        fits(key, value),
        0 <= cut < encoded_len(key, value),
    ensures
        record_at(log + encoding(key, value).subrange(0, cut), log.len() as int) == Err::<
            Pair,
            Fault,
        >(Fault::EndOfLog),
{
    let key_len = key.len() as u32;
    let value_len = value.len() as u32;
    let whole = log + encoding(key, value).subrange(0, cut);
    let off = log.len() as int;
    if cut >= 12 {
        lemma_le_u32_of_le_bytes(key_len);
        lemma_le_u32_of_le_bytes(value_len);
        assert(whole.subrange(off + 4, off + 8) =~= le_bytes(key_len));
        assert(whole.subrange(off + 8, off + 12) =~= le_bytes(value_len));
    }
}

/// Bytes appended to a log change nothing about a record that the log holds
/// in full.
pub proof fn lemma_record_at_prefix(log: Seq<u8>, more: Seq<u8>, off: int)
    requires
        slot_at(log, off) is Some,
    ensures
        slot_at(log + more, off) == slot_at(log, off),
        record_at(log + more, off) == record_at(log, off),
{
    let whole = log + more;
    let key_len = le_u32(log.subrange(off + 4, off + 8));
    let value_len = le_u32(log.subrange(off + 8, off + 12));
    assert(whole.subrange(off, off + 4) =~= log.subrange(off, off + 4));
    assert(whole.subrange(off + 4, off + 8) =~= log.subrange(off + 4, off + 8));
    assert(whole.subrange(off + 8, off + 12) =~= log.subrange(off + 8, off + 12));
    assert(whole.subrange(off + 12, off + 12 + key_len + value_len) =~= log.subrange(
        off + 12,
        off + 12 + key_len + value_len,
    ));
}

/// What a read at an offset yields depends on the bytes of the frame there
/// and on nothing else in the log.
pub proof fn lemma_record_at_local(log: Seq<u8>, other: Seq<u8>, off: int, len: int)
    requires
        slot_at(log, off) is Some,
        len == 12 + slot_at(log, off).unwrap().payload.len(),
        off + len <= other.len(),
        other.subrange(off, off + len) == log.subrange(off, off + len),
    ensures
        record_at(other, off) == record_at(log, off),
{
    let here = log.subrange(off, off + len);
    let there = other.subrange(off, off + len);
    assert(log.subrange(off, off + 4) =~= here.subrange(0, 4));
    assert(log.subrange(off + 4, off + 8) =~= here.subrange(4, 8));
    assert(log.subrange(off + 8, off + 12) =~= here.subrange(8, 12));
    assert(log.subrange(off + 12, off + len) =~= here.subrange(12, len));
    assert(other.subrange(off, off + 4) =~= there.subrange(0, 4));
    assert(other.subrange(off + 4, off + 8) =~= there.subrange(4, 8));
    assert(other.subrange(off + 8, off + 12) =~= there.subrange(8, 12));
    assert(other.subrange(off + 12, off + len) =~= there.subrange(12, len));
}

} // verus!
