//! Layout constants of the `.mime` format and little-endian field readers.

use vstd::prelude::*;

verus! {

pub const MAGIC: [u8; 4] = [0x4d, 0x49, 0x4d, 0x45];
pub const VERSION: u16 = 1;
pub const HEADER_SIZE: usize = 48;
pub const ENTRY_SIZE: usize = 24;
pub const VOCAB_ENTRY_SIZE: usize = 8;
pub const UNIGRAM_SIZE: usize = 8;
pub const BIGRAM_SIZE: usize = 12;
pub const TRIGRAM_SIZE: usize = 16;

/// The unsigned little-endian value of `b[i..i + 2]`.
pub open spec fn le_u16(b: Seq<u8>, i: int) -> int {
    b[i] as int + 0x100 * b[i + 1] as int
}

/// The unsigned little-endian value of `b[i..i + 4]`.
pub open spec fn le_u32(b: Seq<u8>, i: int) -> int {
    le_u16(b, i) + 0x1_0000 * le_u16(b, i + 2)
}

/// The unsigned little-endian value of `b[i..i + 8]`.
pub open spec fn le_u64(b: Seq<u8>, i: int) -> int {
    le_u32(b, i) + 0x1_0000_0000 * le_u32(b, i + 4)
}

/// The two's-complement value of `b[i..i + 2]`.
pub open spec fn le_i16(b: Seq<u8>, i: int) -> int {
    if le_u16(b, i) < 0x8000 { le_u16(b, i) } else { le_u16(b, i) - 0x1_0000 }
}

/// The two's-complement value of `b[i..i + 4]`.
pub open spec fn le_i32(b: Seq<u8>, i: int) -> int {
    if le_u32(b, i) < 0x8000_0000 { le_u32(b, i) } else { le_u32(b, i) - 0x1_0000_0000 }
}

/// Whether `b[offset..offset + width]` lies inside `b`.
pub open spec fn fits(b: Seq<u8>, offset: int, width: int) -> bool {
    offset + width <= b.len()
}

pub open spec fn spec_read_u16(b: Seq<u8>, offset: int) -> Option<u16> {
    if fits(b, offset, 2) { Some(le_u16(b, offset) as u16) } else { None }
}

pub open spec fn spec_read_i16(b: Seq<u8>, offset: int) -> Option<i16> {
    if fits(b, offset, 2) { Some(le_i16(b, offset) as i16) } else { None }
}

pub open spec fn spec_read_u32(b: Seq<u8>, offset: int) -> Option<u32> {
    if fits(b, offset, 4) { Some(le_u32(b, offset) as u32) } else { None }
}

pub open spec fn spec_read_i32(b: Seq<u8>, offset: int) -> Option<i32> {
    if fits(b, offset, 4) { Some(le_i32(b, offset) as i32) } else { None }
}

pub open spec fn spec_read_u64(b: Seq<u8>, offset: int) -> Option<u64> {
    if fits(b, offset, 8) { Some(le_u64(b, offset) as u64) } else { None }
}

/// Record `i` of a table of `count` records of `width` bytes lies inside the table.
pub proof fn lemma_record_in_table(i: int, count: int, width: int)
    requires
        0 <= i < count,
        0 <= width,
    ensures
        0 <= i * width,
        i * width + width <= count * width,
{
    assert(0 <= i * width && i * width + width <= count * width) by (nonlinear_arith)
        requires
            0 <= i < count,
            0 <= width,
    ;
}

/// Reads a little-endian `u16` at `offset`, or `None` when the field runs past the end.
pub fn read_u16(bytes: &[u8], offset: usize) -> (r: Option<u16>)
    requires
        offset + 2 <= usize::MAX,
    ensures
        r == spec_read_u16(bytes@, offset as int),
        r matches Some(v) ==> v as int == le_u16(bytes@, offset as int),
{
    if offset + 2 > bytes.len() {
        return None;
    }
    let lo = bytes[offset] as u16;
    let hi = bytes[offset + 1] as u16;
    Some(lo + hi * 256)
}

/// Reads a little-endian `i16` at `offset`, or `None` when the field runs past the end.
pub fn read_i16(bytes: &[u8], offset: usize) -> (r: Option<i16>)
    requires
        offset + 2 <= usize::MAX,
    ensures
        r == spec_read_i16(bytes@, offset as int),
        r matches Some(v) ==> v as int == le_i16(bytes@, offset as int),
{
    match read_u16(bytes, offset) {
        None => None,
        Some(u) => {
            if u < 0x8000 {
                Some(u as i16)
            } else {
                Some((u as i32 - 0x1_0000) as i16)
            }
        },
    }
}

/// Reads a little-endian `u32` at `offset`, or `None` when the field runs past the end.
pub fn read_u32(bytes: &[u8], offset: usize) -> (r: Option<u32>)
    requires
        offset + 4 <= usize::MAX,
    ensures
        r == spec_read_u32(bytes@, offset as int),
        r matches Some(v) ==> v as int == le_u32(bytes@, offset as int),
{
    if offset + 4 > bytes.len() {
        return None;
    }
    let b0 = bytes[offset] as u32;
    let b1 = bytes[offset + 1] as u32;
    let b2 = bytes[offset + 2] as u32;
    let b3 = bytes[offset + 3] as u32;
    Some(b0 + b1 * 0x100 + b2 * 0x1_0000 + b3 * 0x100_0000)
}

/// Reads a little-endian `i32` at `offset`, or `None` when the field runs past the end.
pub fn read_i32(bytes: &[u8], offset: usize) -> (r: Option<i32>)
    requires
        offset + 4 <= usize::MAX,
    ensures
        r == spec_read_i32(bytes@, offset as int),
        r matches Some(v) ==> v as int == le_i32(bytes@, offset as int),
{
    match read_u32(bytes, offset) {
        None => None,
        Some(u) => {
            if u < 0x8000_0000 {
                Some(u as i32)
            } else {
                Some((u as i64 - 0x1_0000_0000) as i32)
            }
        },
    }
}

/// Reads a little-endian `u64` at `offset`, or `None` when the field runs past the end.
pub fn read_u64(bytes: &[u8], offset: usize) -> (r: Option<u64>)
    requires
        offset + 8 <= usize::MAX,
    ensures
        r == spec_read_u64(bytes@, offset as int),
        r matches Some(v) ==> v as int == le_u64(bytes@, offset as int),
{
    if offset + 8 > bytes.len() {
        return None;
    }
    let lo = read_u32(bytes, offset).unwrap() as u64;
    let hi = read_u32(bytes, offset + 4).unwrap() as u64;
    Some(lo + hi * 0x1_0000_0000)
}

} // verus!
