//! Strings in an ELF string table.
use vstd::prelude::*;
use vstd::string::StringSliceAdditionalSpecFns;
use crate::text::str_from_utf8;

verus! {

/// The end of the NUL-terminated string that starts at `from`: the first NUL at
/// or after `from`, or the end of `t`.
pub open spec fn c_string_end(t: Seq<u8>, from: int) -> int
    decreases t.len() - from,
{
    if from >= t.len() || t[from] == 0 { from } else { c_string_end(t, from + 1) }
}

proof fn lemma_c_string_end(t: Seq<u8>, from: int, at: int)
    requires
        0 <= from <= at <= t.len(),
        forall|k: int| from <= k < at ==> t[k] != 0,
    ensures
        c_string_end(t, from) == c_string_end(t, at),
    decreases at - from,
{
    if from < at {
        lemma_c_string_end(t, from + 1, at);
    }
}

/// The string at `offset` of table `t`, without its terminating NUL; empty
/// where `offset` is past the end.
pub open spec fn c_string_at(t: Seq<u8>, offset: int) -> Seq<u8> {
    if offset >= t.len() { Seq::empty() } else { t.subrange(offset, c_string_end(t, offset)) }
}

/// The string at `offset` of the table, without its terminating NUL; empty
/// where `offset` is past the end.
pub fn read_at<'a>(strtab: &'a [u8], offset: usize) -> (r: &'a [u8])
    ensures
        offset >= strtab@.len() ==> r@.len() == 0,
        offset < strtab@.len() ==> r@ == strtab@.subrange(offset as int, c_string_end(strtab@, offset as int)),
        r@ == c_string_at(strtab@, offset as int),
{
    let len = strtab.len();
    if offset >= len {
        assert(strtab@.subrange(0, 0) =~= Seq::<u8>::empty());
        return &strtab[0..0];
    }
    let mut end: usize = offset;
    while end < len && strtab[end] != 0
        invariant
            len == strtab@.len(),
            offset <= end <= len,
            forall|k: int| offset <= k < end ==> strtab@[k] != 0,
        decreases len - end,
    {
        end = end + 1;
    }
    proof {
        lemma_c_string_end(strtab@, offset as int, end as int);
    }
    &strtab[offset..end]
}

/// The string at `offset` of the table as text; empty where `offset` is past
/// the end, and a fixed marker where its bytes are not UTF-8.
pub fn read_one_from_offset<'a>(strtab: &'a [u8], offset: usize) -> (r: &'a str)
    ensures
        offset >= strtab@.len() ==> r@.len() == 0,
        offset < strtab@.len() && vstd::utf8::valid_utf8(strtab@.subrange(offset as int, c_string_end(strtab@, offset as int)))
            ==> r.spec_bytes() == strtab@.subrange(offset as int, c_string_end(strtab@, offset as int)),
        offset < strtab@.len() && !vstd::utf8::valid_utf8(strtab@.subrange(offset as int, c_string_end(strtab@, offset as int)))
            ==> r@ == "** UTF8 DECODE ERROR **"@,
{
    if offset >= strtab.len() {
        let empty: &'a str = "";
        proof {
            reveal_strlit("");
        }
        return empty;
    }
    let target = read_at(strtab, offset);
    match str_from_utf8(target) {
        Some(s) => s,
        None => "** UTF8 DECODE ERROR **",
    }
}

} // verus!
