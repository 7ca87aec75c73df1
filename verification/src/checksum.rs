//! The integrity checksum of a record payload.

use crc::{Crc, CRC_32_CKSUM};
use vstd::prelude::*;

verus! {

/// The CRC-32 (CKSUM polynomial) of a byte sequence, as the `crc` crate
/// computes it. The value is a function of the bytes alone.
pub uninterp spec fn crc32_cksum(data: Seq<u8>) -> u32;

/// `crc::Crc::<u32>::checksum` for the algorithm `CRC_32_CKSUM`: returns the
/// checksum of `data`. Nothing is claimed of the value beyond its name.
#[verifier::external_body]
pub(crate) fn checksum(data: &[u8]) -> (sum: u32)
    ensures
        sum == crc32_cksum(data@),
{
    Crc::<u32>::new(&CRC_32_CKSUM).checksum(data)
}

} // verus!
