//! Log store: an append-only sequence of records, held as one byte image.
//!
//! Records lie back to back from offset zero. The image may end in a torn
//! record, left by a writer that was stopped while appending; a torn record
//! reads as the end of the log.

use crate::fault::Fault;
use crate::record::{encode, encoded_len, encoding, fits, process_record, record_at, slot_at};
use crate::record::{lemma_record_at_appended, lemma_record_at_prefix, lemma_record_at_torn};
use crate::record::{KeyValuePair, Pair};
use vstd::prelude::*;

verus! {

/// A record together with the offset at which it starts.
pub struct Located {
    pub offset: u64,
    pub pair: Pair,
}

/// The records that a scan from `off` yields, in log order: every record up
/// to the first offset at which no record can be read.
pub open spec fn scan(log: Seq<u8>, off: int) -> Seq<Located>
    decreases log.len() - off,
{
    match record_at(log, off) {
        Ok(pair) => seq![Located { offset: off as u64, pair }] + scan(
            log,
            off + encoded_len(pair.key, pair.value),
        ),
        Err(_) => Seq::empty(),
    }
}

/// The offset at which a scan from `off` stops.
pub open spec fn scan_end(log: Seq<u8>, off: int) -> int
    decreases log.len() - off,
{
    match record_at(log, off) {
        Ok(pair) => scan_end(log, off + encoded_len(pair.key, pair.value)),
        Err(_) => off,
    }
}

/// A scan from `off` stops at a record whose checksum is wrong.
pub open spec fn scan_fault(log: Seq<u8>, off: int) -> bool {
    record_at(log, scan_end(log, off)) == Err::<Pair, Fault>(Fault::Corrupt)
}

/// The log is a gap-free sequence of whole records: a scan from offset zero
/// reaches its very end.
pub open spec fn is_whole(log: Seq<u8>) -> bool {
    scan_end(log, 0) == log.len()
}

/// The entries of a scan result as located records.
pub open spec fn located(entries: Seq<(u64, KeyValuePair)>) -> Seq<Located> {
    entries.map_values(|e: (u64, KeyValuePair)| Located { offset: e.0, pair: e.1@ })
}

/// The append-only log.
#[derive(Debug)]
pub struct Log {
    bytes: Vec<u8>,
}

impl View for Log {
    type V = Seq<u8>;

    closed spec fn view(&self) -> Seq<u8> {
        self.bytes@
    }
}

impl Log {
    /// An offset into the image fits a machine word.
    pub proof fn lemma_len_bound(self)
        ensures
            self@.len() <= usize::MAX,
    {
        assert(self.bytes.len() == self.bytes@.len());
    }

    /// Attaches a log image.
    pub fn from_bytes(bytes: Vec<u8>) -> (log: Log)
        ensures
            log@ == bytes@,
    {
        Log { bytes }
    }

    /// The image as it stands.
    pub fn as_bytes(&self) -> (bytes: &[u8])
        ensures
            bytes@ == self@,
    {
        self.bytes.as_slice()
    }

    /// The offset of the end of the image.
    pub fn len(&self) -> (n: u64)
        ensures
            n == self@.len(),
    {
        self.bytes.len() as u64
    }

    /// Appends a record at the end of the image and returns the offset at
    /// which it starts. A record that cannot be framed leaves the log as it is.
    pub fn append(&mut self, key: &[u8], value: &[u8]) -> (r: Result<u64, Fault>)
        ensures
            match r {
                Ok(offset) => {
                    &&& fits(key@, value@)
                    &&& offset == old(self)@.len()
                    &&& final(self)@ == old(self)@ + encoding(key@, value@)
                },
                Err(fault) => {
                    &&& !fits(key@, value@)
                    &&& fault == Fault::TooLarge
                    &&& *final(self) == *old(self)
                },
            },
    {
        let offset: u64 = self.bytes.len() as u64;
        match encode(key, value) {
            Ok(frame) => {
                self.bytes.extend_from_slice(frame.as_slice());
                assert(self.bytes@ =~= old(self).bytes@ + frame@);
                Ok(offset)
            },
            Err(fault) => Err(fault),
        }
    }

    /// Decodes the one record that starts at `offset`.
    pub fn read_at(&self, offset: u64) -> (r: Result<KeyValuePair, Fault>)
        ensures
            match r {
                Ok(kv) => record_at(self@, offset as int) == Ok::<Pair, Fault>(kv@),
                Err(fault) => record_at(self@, offset as int) == Err::<Pair, Fault>(fault),
            },
    {
        process_record(self.bytes.as_slice(), offset)
    }

    /// Decodes the record that starts at `offset` and says where the next
    /// one starts.
    pub fn read_next(&self, offset: u64) -> (r: Result<(KeyValuePair, u64), Fault>)
        ensures
            match r {
                Ok((kv, next)) => {
                    &&& record_at(self@, offset as int) == Ok::<Pair, Fault>(kv@)
                    &&& next == offset + encoded_len(kv@.key, kv@.value)
                    &&& next <= self@.len()
                },
                Err(fault) => record_at(self@, offset as int) == Err::<Pair, Fault>(fault),
            },
    {
        match process_record(self.bytes.as_slice(), offset) {
            Ok(kv) => {
                proof {
                    let slot = slot_at(self@, offset as int).unwrap();
                    assert(self.bytes.len() == self@.len());
                    assert(offset + 12 + slot.payload.len() <= self@.len());
                    assert(kv.key@.len() + kv.value@.len() == slot.payload.len());
                }
                let next: u64 = offset + 12 + kv.key.len() as u64 + kv.value.len() as u64;
                Ok((kv, next))
            },
            Err(fault) => Err(fault),
        }
    }

    /// The offset at which the whole records end: the length of the log,
    /// unless the log ends in a torn record.
    pub fn logical_end(&self) -> (r: Result<u64, Fault>)
        ensures
            match r {
                Ok(end) => {
                    &&& !scan_fault(self@, 0)
                    &&& end == scan_end(self@, 0)
                    &&& end == self@.len() <==> is_whole(self@)
                },
                Err(fault) => fault == Fault::Corrupt && scan_fault(self@, 0),
            },
    {
        let mut pos: u64 = 0;
        loop
            invariant
                scan_end(self@, 0) == scan_end(self@, pos as int),
            decreases self@.len() - pos,
        {
            match self.read_next(pos) {
                Ok((_, next)) => {
                    pos = next;
                },
                Err(Fault::EndOfLog) => {
                    return Ok(pos);
                },
                Err(fault) => {
                    return Err(fault);
                },
            }
        }
    }

    /// Decodes record after record from `offset` until the log ends, and
    /// returns each with its offset. A record with a wrong checksum fails the
    /// whole scan.
    pub fn scan_from(&self, offset: u64) -> (r: Result<Vec<(u64, KeyValuePair)>, Fault>)
        ensures
            match r {
                Ok(entries) => {
                    &&& !scan_fault(self@, offset as int)
                    &&& located(entries@) == scan(self@, offset as int)
                },
                Err(fault) => fault == Fault::Corrupt && scan_fault(self@, offset as int),
            },
    {
        let mut entries: Vec<(u64, KeyValuePair)> = Vec::new();
        let mut pos: u64 = offset;
        assert(located(entries@) + scan(self@, pos as int) =~= scan(self@, offset as int));
        loop
            invariant
                scan(self@, offset as int) == located(entries@) + scan(self@, pos as int),
                scan_end(self@, offset as int) == scan_end(self@, pos as int),
            decreases self@.len() - pos,
        {
            match self.read_next(pos) {
                Ok((kv, next)) => {
                    proof {
                        let one = Located { offset: pos, pair: kv@ };
                        assert(located(entries@.push((pos, kv))) =~= located(entries@).push(one));
                        assert(located(entries@).push(one) + scan(self@, next as int) =~= located(
                            entries@,
                        ) + (seq![one] + scan(self@, next as int)));
                    }
                    entries.push((pos, kv));
                    pos = next;
                },
                Err(Fault::EndOfLog) => {
                    assert(located(entries@) + Seq::<Located>::empty() =~= located(entries@));
                    return Ok(entries);
                },
                Err(fault) => {
                    return Err(fault);
                },
            }
        }
    }
}

/// A scan of a longer log goes through the whole records of the shorter one
/// first and then on from where the shorter log ends.
pub proof fn lemma_scan_extended(log: Seq<u8>, more: Seq<u8>, off: int)
    requires
        scan_end(log, off) == log.len(),
    ensures
        scan(log + more, off) == scan(log, off) + scan(log + more, log.len() as int),
        scan_end(log + more, off) == scan_end(log + more, log.len() as int),
    decreases log.len() - off,
{
    match record_at(log, off) {
        Ok(pair) => {
            let next = off + encoded_len(pair.key, pair.value);
            lemma_record_at_prefix(log, more, off);
            lemma_scan_extended(log, more, next);
            let one = seq![Located { offset: off as u64, pair }];
            assert(one + (scan(log, next) + scan(log + more, log.len() as int)) =~= (one + scan(
                log,
                next,
            )) + scan(log + more, log.len() as int));
        },
        Err(_) => {
            assert(Seq::<Located>::empty() + scan(log + more, off) =~= scan(log + more, off));
        },
    }
}

/// Appending a record to a log of whole records gives a log of whole
/// records, whose scan yields the new record last.
pub proof fn lemma_scan_appended(log: Seq<u8>, key: Seq<u8>, value: Seq<u8>)
    requires
        is_whole(log),
        fits(key, value),
    ensures
        is_whole(log + encoding(key, value)),
        scan(log + encoding(key, value), 0) == scan(log, 0).push(
            Located { offset: log.len() as u64, pair: Pair { key, value } },
        ),
{
    let whole = log + encoding(key, value);
    lemma_scan_extended(log, encoding(key, value), 0);
    lemma_record_at_appended(log, key, value);
    assert(scan(whole, whole.len() as int) =~= Seq::<Located>::empty());
    assert(scan_end(whole, whole.len() as int) == whole.len());
    assert(scan_end(whole, log.len() as int) == whole.len());
    let one = Located { offset: log.len() as u64, pair: Pair { key, value } };
    assert(scan(whole, log.len() as int) =~= seq![one]);
    assert(scan(log, 0) + seq![one] =~= scan(log, 0).push(one));
}

/// A torn record behind a log of whole records is not seen by a scan, and
/// does not fail it.
pub proof fn lemma_scan_torn(log: Seq<u8>, key: Seq<u8>, value: Seq<u8>, cut: int)
    requires
        is_whole(log),
        fits(key, value),
        0 <= cut < encoded_len(key, value),
    ensures
        scan(log + encoding(key, value).subrange(0, cut), 0) == scan(log, 0),
        !scan_fault(log + encoding(key, value).subrange(0, cut), 0),
{
    let torn = encoding(key, value).subrange(0, cut);
    lemma_scan_extended(log, torn, 0);
    lemma_record_at_torn(log, key, value, cut);
    assert(scan(log, 0) + Seq::<Located>::empty() =~= scan(log, 0));
}

} // verus!
