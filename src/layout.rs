//! The packed symbol table, as bytes.
//!
//! A blob is a 12-byte header (`reserved: u32`, `count: u16`, `addr_table_off: u16`,
//! `name_table_off: u16`, `token_table_off: u16`, all little-endian), an address
//! table of `count` little-endian `u32`s, and two string tables. A string table is
//! an array of little-endian `u16` offsets, measured from the start of that array,
//! each pointing at a body made of one length byte and that many bytes.
use vstd::prelude::*;

verus! {

pub const HEADER_SIZE: usize = 12;

/// The little-endian `u16` at offset `off` of `b`.
pub open spec fn le16(b: Seq<u8>, off: int) -> int {
    b[off] as int + 256 * (b[off + 1] as int)
}

/// The little-endian `u32` at offset `off` of `b`.
pub open spec fn le32(b: Seq<u8>, off: int) -> int {
    b[off] as int + 256 * (b[off + 1] as int) + 65536 * (b[off + 2] as int)
        + 16777216 * (b[off + 3] as int)
}

/// Entry `k` of the string table whose offset array starts at `t` lies inside `b`.
pub open spec fn entry_in_bounds(b: Seq<u8>, t: int, k: int) -> bool {
    0 <= t && 0 <= k && t + 2 * k + 2 <= b.len() && t + le16(b, t + 2 * k) < b.len()
        && t + le16(b, t + 2 * k) + 1 + b[t + le16(b, t + 2 * k)] <= b.len()
}

/// The body of entry `k` of the string table at `t`; empty where it would lie
/// outside `b`.
pub open spec fn table_entry(b: Seq<u8>, t: int, k: int) -> Seq<u8> {
    if entry_in_bounds(b, t, k) {
        let body = t + le16(b, t + 2 * k);
        b.subrange(body + 1, body + 1 + b[body])
    } else {
        Seq::empty()
    }
}

/// A string table read at `t` in a larger buffer reads as it does on its own.
pub proof fn lemma_table_entry_embedded(b: Seq<u8>, t: int, table: Seq<u8>, k: int)
    requires
        0 <= t,
        t + table.len() <= b.len(),
        b.subrange(t, t + table.len()) == table,
        entry_in_bounds(table, 0, k),
    ensures
        entry_in_bounds(b, t, k),
        table_entry(b, t, k) == table_entry(table, 0, k),
{
    assert(b[t + 2 * k] == table[2 * k]);
    assert(b[t + 2 * k + 1] == table[2 * k + 1]);
    let body = le16(table, 2 * k);
    assert(le16(b, t + 2 * k) == body);
    assert(b[t + body] == table[body]);
    assert(b.subrange(t + body + 1, t + body + 1 + table[body])
        =~= table.subrange(body + 1, body + 1 + table[body]));
}

/// The number of symbols the header announces; zero for a blob shorter than a header.
pub open spec fn header_count(b: Seq<u8>) -> int {
    if b.len() >= 12 { le16(b, 4) } else { 0 }
}

pub open spec fn header_addr_off(b: Seq<u8>) -> int {
    if b.len() >= 12 { le16(b, 6) } else { 0 }
}

pub open spec fn header_name_off(b: Seq<u8>) -> int {
    if b.len() >= 12 { le16(b, 8) } else { 0 }
}

pub open spec fn header_token_off(b: Seq<u8>) -> int {
    if b.len() >= 12 { le16(b, 10) } else { 0 }
}

/// The number of symbols a decoder sees: the header's count where the whole
/// address table lies inside the blob, else zero.
pub open spec fn blob_count(b: Seq<u8>) -> int {
    if header_addr_off(b) + 4 * header_count(b) <= b.len() { header_count(b) } else { 0 }
}

/// Address `i` of the address table.
pub open spec fn blob_addr(b: Seq<u8>, i: int) -> int {
    le32(b, header_addr_off(b) + 4 * i)
}

/// The token ids that make up name `i`.
pub open spec fn blob_name_ids(b: Seq<u8>, i: int) -> Seq<u8> {
    table_entry(b, header_name_off(b), i)
}

/// The bytes of token `k`.
pub open spec fn blob_token(b: Seq<u8>, k: int) -> Seq<u8> {
    table_entry(b, header_token_off(b), k)
}

/// The bytes that the tokens `ids` stand for, in order.
pub open spec fn expand_blob(b: Seq<u8>, ids: Seq<u8>) -> Seq<u8>
    decreases ids.len(),
{
    if ids.len() == 0 {
        Seq::empty()
    } else {
        expand_blob(b, ids.drop_last()) + blob_token(b, ids.last() as int)
    }
}

/// The full name of symbol `i`.
pub open spec fn blob_name(b: Seq<u8>, i: int) -> Seq<u8> {
    expand_blob(b, blob_name_ids(b, i))
}

} // verus!
