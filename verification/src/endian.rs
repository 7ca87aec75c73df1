//! Little-endian 32-bit integers, the way a record header stores them.

use byteorder::{ByteOrder, LittleEndian};
use vstd::arithmetic::div_mod::lemma_fundamental_div_mod_converse;
use vstd::prelude::*;

verus! {

/// The number that four bytes spell, least significant byte first.
pub open spec fn le_u32(bytes: Seq<u8>) -> u32
    recommends
        bytes.len() == 4,
{
    (bytes[0] as int + bytes[1] as int * 0x100 + bytes[2] as int * 0x1_0000 + bytes[3] as int
        * 0x100_0000) as u32
}

/// The four bytes that spell `n`, least significant byte first.
pub open spec fn le_bytes(n: u32) -> Seq<u8> {
    seq![
        (n as int % 0x100) as u8,
        (n as int / 0x100 % 0x100) as u8,
        (n as int / 0x1_0000 % 0x100) as u8,
        (n as int / 0x100_0000) as u8,
    ]
}

/// The eight bytes that spell a 64-bit `n`, least significant byte first.
pub open spec fn le_bytes_u64(n: u64) -> Seq<u8> {
    seq![
        (n as int % 0x100) as u8,
        (n as int / 0x100 % 0x100) as u8,
        (n as int / 0x1_0000 % 0x100) as u8,
        (n as int / 0x100_0000 % 0x100) as u8,
        (n as int / 0x1_0000_0000 % 0x100) as u8,
        (n as int / 0x100_0000_0000 % 0x100) as u8,
        (n as int / 0x1_0000_0000_0000 % 0x100) as u8,
        (n as int / 0x100_0000_0000_0000) as u8,
    ]
}

/// Reading back the bytes of a number gives the number.
pub proof fn lemma_le_u32_of_le_bytes(n: u32)
    ensures
        le_bytes(n).len() == 4,
        le_u32(le_bytes(n)) == n,
{
}

/// Spelling out the number that four bytes spell gives the four bytes.
pub proof fn lemma_le_bytes_of_le_u32(bytes: Seq<u8>)
    requires
        bytes.len() == 4,
    ensures
        le_bytes(le_u32(bytes)) == bytes,
{
    let b0 = bytes[0] as int;
    let b1 = bytes[1] as int;
    let b2 = bytes[2] as int;
    let b3 = bytes[3] as int;
    let n = b0 + b1 * 0x100 + b2 * 0x1_0000 + b3 * 0x100_0000;
    lemma_fundamental_div_mod_converse(n, 0x100, b1 + b2 * 0x100 + b3 * 0x1_0000, b0);
    lemma_fundamental_div_mod_converse(n / 0x100, 0x100, b2 + b3 * 0x100, b1);
    lemma_fundamental_div_mod_converse(n, 0x1_0000, b2 + b3 * 0x100, b0 + b1 * 0x100);
    lemma_fundamental_div_mod_converse(n / 0x1_0000, 0x100, b3, b2);
    lemma_fundamental_div_mod_converse(n, 0x100_0000, b3, b0 + b1 * 0x100 + b2 * 0x1_0000);
    assert(le_bytes(le_u32(bytes)) =~= bytes);
}

/// `byteorder::LittleEndian::read_u32`: the little-endian value of the first
/// four bytes of `buf`. The call panics on a shorter buffer, and the contract
/// asks for exactly four bytes.
#[verifier::external_body]
pub(crate) fn read_u32_le(buf: &[u8]) -> (n: u32)
    requires
        buf@.len() == 4,
    ensures
        n == le_u32(buf@),
{
    LittleEndian::read_u32(buf)
}

/// `byteorder::LittleEndian::write_u32` on a fresh four-byte buffer: the
/// buffer then holds `n`, least significant byte first.
#[verifier::external_body]
pub(crate) fn u32_le_bytes(n: u32) -> (bytes: [u8; 4])
    ensures
        bytes@ == le_bytes(n),
{
    let mut bytes = [0u8; 4];
    LittleEndian::write_u32(&mut bytes, n);
    bytes
}

} // verus!
