//! Little-endian encoding of 32-bit words, through the `byteorder` crate.

use byteorder::{ByteOrder, LittleEndian};
use vstd::prelude::*;

verus! {

/// The little-endian value of four bytes.
pub open spec fn le_u32(b0: u8, b1: u8, b2: u8, b3: u8) -> u32 {
    (b0 as u32) | ((b1 as u32) << 8u32) | ((b2 as u32) << 16u32) | ((b3 as u32) << 24u32)
}

/// The little-endian value of the four bytes of `s` at `pos`.
pub open spec fn le_u32_at(s: Seq<u8>, pos: int) -> u32 {
    le_u32(s[pos], s[pos + 1], s[pos + 2], s[pos + 3])
}

/// The four little-endian bytes of `n`.
pub open spec fn le_bytes(n: u32) -> Seq<u8> {
    seq![
        (n & 0xff) as u8,
        ((n >> 8u32) & 0xff) as u8,
        ((n >> 16u32) & 0xff) as u8,
        ((n >> 24u32) & 0xff) as u8,
    ]
}

proof fn lemma_le_roundtrip_bv(n: u32)
    by (bit_vector)
    ensures
        le_u32(
            (n & 0xff) as u8,
            ((n >> 8u32) & 0xff) as u8,
            ((n >> 16u32) & 0xff) as u8,
            ((n >> 24u32) & 0xff) as u8,
        ) == n,
{
}

/// Decoding the encoding of a word gives the word back.
pub proof fn lemma_le_roundtrip(n: u32)
    ensures
        le_u32_at(le_bytes(n), 0) == n,
        le_bytes(n).len() == 4,
{
    lemma_le_roundtrip_bv(n);
}

/// Signed words survive the trip through their unsigned bit pattern.
pub proof fn lemma_i32_u32_roundtrip(n: i32)
    by (bit_vector)
    ensures
        (n as u32) as i32 == n,
{
}

/// `LittleEndian::read_u32`: the unsigned word stored little-endian in the
/// first four bytes of `buf` (which has at least four).
#[verifier::external_body]
pub(crate) fn read_u32_le(buf: &[u8]) -> (r: u32)
    requires
        buf@.len() >= 4,
    ensures
        r == le_u32_at(buf@, 0),
{
    LittleEndian::read_u32(buf)
}

/// `LittleEndian::read_i32`: the signed word whose bit pattern is stored
/// little-endian in the first four bytes of `buf` (which has at least four).
#[verifier::external_body]
pub(crate) fn read_i32_le(buf: &[u8]) -> (r: i32)
    requires
        buf@.len() >= 4,
    ensures
        r == le_u32_at(buf@, 0) as i32,
{
    LittleEndian::read_i32(buf)
}

/// `LittleEndian::write_u32` into a fresh four-byte buffer: the
/// little-endian bytes of `n`.
#[verifier::external_body]
pub(crate) fn write_u32_le(n: u32) -> (r: [u8; 4])
    ensures
        r@ == le_bytes(n),
{
    let mut buf = [0u8; 4];
    LittleEndian::write_u32(&mut buf, n);
    buf
}

/// `LittleEndian::write_i32` into a fresh four-byte buffer: the
/// little-endian bytes of the bit pattern of `n`.
#[verifier::external_body]
pub(crate) fn write_i32_le(n: i32) -> (r: [u8; 4])
    ensures
        r@ == le_bytes(n as u32),
{
    let mut buf = [0u8; 4];
    LittleEndian::write_i32(&mut buf, n);
    buf
}

} // verus!
