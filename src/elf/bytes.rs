//! Fixed-width integers in either byte order.
use vstd::prelude::*;

verus! {

/// The `u16` at `off`, little-endian when `le`, else big-endian.
pub open spec fn u16_at(s: Seq<u8>, off: int, le: bool) -> int {
    if le { s[off] + 256 * s[off + 1] } else { 256 * s[off] + s[off + 1] }
}

/// The `u32` at `off`, in the byte order `le` names.
pub open spec fn u32_at(s: Seq<u8>, off: int, le: bool) -> int {
    if le {
        u16_at(s, off, true) + 65536 * u16_at(s, off + 2, true)
    } else {
        65536 * u16_at(s, off, false) + u16_at(s, off + 2, false)
    }
}

/// The `u64` at `off`, in the byte order `le` names.
pub open spec fn u64_at(s: Seq<u8>, off: int, le: bool) -> int {
    if le {
        u32_at(s, off, true) + 0x1_0000_0000 * u32_at(s, off + 4, true)
    } else {
        0x1_0000_0000 * u32_at(s, off, false) + u32_at(s, off + 4, false)
    }
}

pub fn read_u16(data: &[u8], off: usize, le: bool) -> (r: u16)
    requires
        off + 2 <= data@.len(),
    ensures
        r == u16_at(data@, off as int, le),
{
    let a = data[off] as u16;
    let b = data[off + 1] as u16;
    if le { a + 256 * b } else { 256 * a + b }
}

pub fn read_u32(data: &[u8], off: usize, le: bool) -> (r: u32)
    requires
        off + 4 <= data@.len(),
    ensures
        r == u32_at(data@, off as int, le),
{
    let len = data.len();
    assert(off + 4 <= len);
    let a = read_u16(data, off, le) as u32;
    let b = read_u16(data, off + 2, le) as u32;
    if le { a + 65536 * b } else { 65536 * a + b }
}

pub fn read_u64(data: &[u8], off: usize, le: bool) -> (r: u64)
    requires
        off + 8 <= data@.len(),
    ensures
        r == u64_at(data@, off as int, le),
{
    let len = data.len();
    assert(off + 8 <= len);
    let a = read_u32(data, off, le) as u64;
    let b = read_u32(data, off + 4, le) as u64;
    if le { a + 0x1_0000_0000 * b } else { 0x1_0000_0000 * a + b }
}

/// A field that is 4 bytes wide in 32-bit files and 8 bytes wide in 64-bit ones.
pub open spec fn word_at(s: Seq<u8>, off: int, wide: bool, le: bool) -> int {
    if wide { u64_at(s, off, le) } else { u32_at(s, off, le) }
}

pub fn read_word(data: &[u8], off: usize, wide: bool, le: bool) -> (r: u64)
    requires
        off + (if wide { 8int } else { 4int }) <= data@.len(),
    ensures
        r == word_at(data@, off as int, wide, le),
{
    if wide { read_u64(data, off, le) } else { read_u32(data, off, le) as u64 }
}

} // verus!
