//! Little-endian integer fields read out of byte buffers.
//!
//! Every binary format handled by this crate stores its integers in
//! little-endian order. The reads go through `byteorder`, whose behaviour on a
//! buffer of sufficient length is the arithmetic stated by the spec functions
//! below.
use byteorder::{ByteOrder, LittleEndian};
use vstd::prelude::*;

verus! {

/// Unsigned 16-bit little-endian value of the two bytes at `i`.
pub open spec fn le_u16(s: Seq<u8>, i: int) -> int {
    s[i] as int + s[i + 1] as int * 0x100
}

/// Unsigned 32-bit little-endian value of the four bytes at `i`.
pub open spec fn le_u32(s: Seq<u8>, i: int) -> int {
    le_u16(s, i) + le_u16(s, i + 2) * 0x1_0000
}

/// Unsigned 64-bit little-endian value of the eight bytes at `i`.
pub open spec fn le_u64(s: Seq<u8>, i: int) -> int {
    le_u32(s, i) + le_u32(s, i + 4) * 0x1_0000_0000
}

/// Two's-complement reading of the 32-bit little-endian value at `i`.
pub open spec fn le_i32(s: Seq<u8>, i: int) -> int {
    let u = le_u32(s, i);
    if u < 0x8000_0000 {
        u
    } else {
        u - 0x1_0000_0000
    }
}

/// `LittleEndian::read_u16` of byteorder on the bytes from `pos`: the two
/// bytes at `pos` as an unsigned little-endian integer.
#[verifier::external_body]
pub(crate) fn read_u16_le(data: &[u8], pos: usize) -> (r: u16)
    requires
        pos + 2 <= data.len(),
    ensures
        r as int == le_u16(data@, pos as int),
{
    LittleEndian::read_u16(&data[pos..])
}

/// `LittleEndian::read_u32` of byteorder on the bytes from `pos`: the four
/// bytes at `pos` as an unsigned little-endian integer.
#[verifier::external_body]
pub(crate) fn read_u32_le(data: &[u8], pos: usize) -> (r: u32)
    requires
        pos + 4 <= data.len(),
    ensures
        r as int == le_u32(data@, pos as int),
{
    LittleEndian::read_u32(&data[pos..])
}

/// `LittleEndian::read_u64` of byteorder on the bytes from `pos`: the eight
/// bytes at `pos` as an unsigned little-endian integer.
#[verifier::external_body]
pub(crate) fn read_u64_le(data: &[u8], pos: usize) -> (r: u64)
    requires
        pos + 8 <= data.len(),
    ensures
        r as int == le_u64(data@, pos as int),
{
    LittleEndian::read_u64(&data[pos..])
}

/// `LittleEndian::read_i32` of byteorder on the bytes from `pos`: the four
/// bytes at `pos` as a two's-complement little-endian integer.
#[verifier::external_body]
pub(crate) fn read_i32_le(data: &[u8], pos: usize) -> (r: i32)
    requires
        pos + 4 <= data.len(),
    ensures
        r as int == le_i32(data@, pos as int),
{
    LittleEndian::read_i32(&data[pos..])
}

} // verus!
