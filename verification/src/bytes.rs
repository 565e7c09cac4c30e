//! Little-endian integer reads out of byte slices.

use vstd::prelude::*;

verus! {

/// The 16-bit little-endian value at `off`.
pub open spec fn le_u16(b: Seq<u8>, off: int) -> int {
    b[off] + 0x100 * b[off + 1]
}

/// The 32-bit little-endian value at `off`.
pub open spec fn le_u32(b: Seq<u8>, off: int) -> int {
    b[off] + 0x100 * b[off + 1] + 0x1_0000 * b[off + 2] + 0x100_0000 * b[off + 3]
}

/// The 64-bit little-endian value at `off`.
pub open spec fn le_u64(b: Seq<u8>, off: int) -> int {
    le_u32(b, off) + 0x1_0000_0000 * le_u32(b, off + 4)
}

/// Reads the 16-bit little-endian value at `offset`.
pub fn read_u16(bytes: &[u8], offset: usize) -> (r: u16)
    requires
        offset + 2 <= bytes@.len(),
    ensures
        r == le_u16(bytes@, offset as int),
{
    let b0 = bytes[offset] as u16;
    let b1 = bytes[offset + 1] as u16;
    b0 + 0x100 * b1
}

/// Reads the 32-bit little-endian value at `offset`.
pub fn read_u32(bytes: &[u8], offset: usize) -> (r: u32)
    requires
        offset + 4 <= bytes@.len(),
    ensures
        r == le_u32(bytes@, offset as int),
{
    let b0 = bytes[offset] as u32;
    let b1 = bytes[offset + 1] as u32;
    let b2 = bytes[offset + 2] as u32;
    let b3 = bytes[offset + 3] as u32;
    b0 + 0x100 * b1 + 0x1_0000 * b2 + 0x100_0000 * b3
}

/// Reads the 64-bit little-endian value at `offset`.
pub fn read_u64(bytes: &[u8], offset: usize) -> (r: u64)
    requires
        offset + 8 <= bytes@.len(),
    ensures
        r == le_u64(bytes@, offset as int),
{
    let n: usize = bytes.len();
    proof {
        assert(offset + 4 <= n);
    }
    let lo = read_u32(bytes, offset) as u64;
    let hi = read_u32(bytes, offset + 4) as u64;
    lo + 0x1_0000_0000 * hi
}

} // verus!
