//! An append-only, log-structured key-value store.
//!
//! The store is a flat log of checksummed records plus an index from each key
//! to the offset of its latest record. The log is held as a byte image; the
//! caller decides where that image is persisted.
//!
//! - `record`: the wire format of one record.
//! - `log`: the append-only log, read record by record.
//! - `index`: the map from keys to offsets.
//! - `store`: the store itself, `ActionKV`.
//! - `snapshot`: the index kept in the log as a record of its own.
//! - `guarantees`: what holds across operations.
//! - `checksum`, `endian`: the checksum and the integer layout of a header.
//! - `fault`: the ways an operation can fail.
//! - `context`: a bounded window of recent lines, for front ends that show
//!   a line together with the lines before it.

pub mod checksum;
pub mod context;
pub mod endian;
pub mod fault;
pub mod guarantees;
pub mod index;
pub mod log;
pub mod record;
pub mod snapshot;
pub mod store;
