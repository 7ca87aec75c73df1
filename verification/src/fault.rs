//! The ways an operation on the store can fail.

use vstd::prelude::*;

verus! {

/// Why an operation did not produce a result.
#[derive(Debug, Clone, Copy, PartialEq, Eq, Structural)]
pub enum Fault {
    /// The log ends before a complete record could be read at the offset.
    EndOfLog,
    /// A complete record was read and its checksum does not match its payload.
    Corrupt,
    /// A key or a value is longer than a 32-bit length field can say.
    TooLarge,
    /// The bytes are not those of an index snapshot.
    Snapshot,
}

} // verus!
