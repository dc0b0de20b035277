//! What packing and looking up guarantee together.
use vstd::prelude::*;
use crate::decoder::is_floor;
use crate::layout::{blob_addr, blob_count, blob_name};
use crate::pack::name_bytes;
use vstd::utf8::valid_utf8;

verus! {

/// `b` holds `symbols` as `pack` lays them out.
pub open spec fn packs(b: Seq<u8>, symbols: Seq<(String, u32)>) -> bool {
    &&& blob_count(b) == symbols.len()
    &&& forall|i: int| 0 <= i < symbols.len() ==> #[trigger] blob_addr(b, i) == symbols[i].1
    &&& forall|i: int| 0 <= i < symbols.len() ==> #[trigger] blob_name(b, i) == name_bytes(symbols, i)
}

/// The addresses never decrease.
pub open spec fn ascending(symbols: Seq<(String, u32)>) -> bool {
    forall|a: int, b: int| 0 <= a < b < symbols.len() ==> symbols[a].1 <= symbols[b].1
}

/// The addresses strictly increase.
pub open spec fn strictly_ascending(symbols: Seq<(String, u32)>) -> bool {
    forall|a: int, b: int| 0 <= a < b < symbols.len() ==> symbols[a].1 < symbols[b].1
}

/// Floor search: on ascending addresses, an address from symbol `i`'s address
/// up to (not including) the next symbol's resolves to symbol `i` alone, with
/// the distance from its address as offset.
pub proof fn law_floor_search(b: Seq<u8>, symbols: Seq<(String, u32)>, addr: u32, i: int, j: int)
    requires
        packs(b, symbols),
        ascending(symbols),
        0 <= i < symbols.len(),
        symbols[i].1 <= addr,
        i + 1 < symbols.len() ==> addr < symbols[i + 1].1,
        is_floor(b, addr as int, j),
    ensures
        j == i,
        blob_name(b, j) == name_bytes(symbols, i),
        addr - blob_addr(b, j) == addr - symbols[i].1,
{
    let n = symbols.len() as int;
    assert(blob_addr(b, j) == symbols[j].1);
    if j < i {
        assert(blob_addr(b, j + 1) == symbols[j + 1].1);
        assert(symbols[j + 1].1 <= symbols[i].1);
    }
    if j > i {
        assert(blob_addr(b, i + 1) == symbols[i + 1].1);
        assert(symbols[i + 1].1 <= symbols[j].1);
    }
}

/// Round trip: with strictly increasing addresses, looking up a symbol's own
/// address finds that symbol, at offset zero.
pub proof fn law_round_trip(b: Seq<u8>, symbols: Seq<(String, u32)>, i: int, j: int)
    requires
        packs(b, symbols),
        strictly_ascending(symbols),
        0 <= i < symbols.len(),
        is_floor(b, symbols[i].1 as int, j),
    ensures
        j == i,
        blob_name(b, j) == name_bytes(symbols, i),
        valid_utf8(blob_name(b, j)),
        symbols[i].1 - blob_addr(b, j) == 0,
{
    vstd::utf8::encode_utf8_valid_utf8(symbols[i].0@);
    if i + 1 < symbols.len() {
        assert(symbols[i].1 < symbols[i + 1].1);
    }
    law_floor_search(b, symbols, symbols[i].1, i, j);
}

/// Lower bound: below the first symbol's address, and for no symbols at all,
/// there is nothing to find.
pub proof fn law_lower_bound(b: Seq<u8>, symbols: Seq<(String, u32)>, addr: u32)
    requires
        packs(b, symbols),
        symbols.len() == 0 || addr < symbols[0].1,
    ensures
        blob_count(b) == 0 || addr < blob_addr(b, 0),
{
    if symbols.len() > 0 {
        assert(blob_addr(b, 0) == symbols[0].1);
    }
}

} // verus!
