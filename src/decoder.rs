//! Address-to-name lookup, read straight from a packed blob.
use vstd::prelude::*;
use vstd::string::StringSliceAdditionalSpecFns;
use vstd::utf8::valid_utf8;
use crate::layout::{
    blob_addr, blob_count, blob_name, blob_name_ids, blob_token, entry_in_bounds, expand_blob,
    header_addr_off, header_count, header_name_off, header_token_off, le16, le32, table_entry,
    HEADER_SIZE,
};

use crate::text::str_from_utf8;

verus! {

/// `i` is where a floor search for `addr` may end: its address is at most
/// `addr`, and the next one, if any, is above it.
pub open spec fn is_floor(b: Seq<u8>, addr: int, i: int) -> bool {
    0 <= i < blob_count(b) && blob_addr(b, i) <= addr
        && (i + 1 == blob_count(b) || addr < blob_addr(b, i + 1))
}

/// The longest valid UTF-8 string among `b` and `b` without its last one, two
/// or three bytes; empty where none is valid.
fn utf8_prefix<'b>(b: &'b [u8]) -> (r: &'b str)
    ensures
        r.spec_bytes().len() <= b@.len(),
        r.spec_bytes() == b@.subrange(0, r.spec_bytes().len() as int),
        valid_utf8(b@) ==> r.spec_bytes() == b@,
        r.spec_bytes().len() + 3 >= b@.len() || r.spec_bytes().len() == 0,
        forall|l: int| r.spec_bytes().len() < l <= b@.len() && l + 3 >= b@.len() ==> !valid_utf8(#[trigger] b@.subrange(0, l)),
{
    let n = b.len();
    let mut k: usize = 0;
    while k < 4 && k <= n
        invariant
            n == b@.len(),
            k <= 4,
            k > 0 ==> !valid_utf8(b@),
            forall|l: int| n - k < l <= n ==> !valid_utf8(#[trigger] b@.subrange(0, l)),
        decreases 4 - k,
    {
        let head: &'b [u8] = &b[0..n - k];
        match str_from_utf8(head) {
            Some(s) => {
                assert(head@ == b@.subrange(0, (n - k) as int));
                assert(k == 0 ==> head@ =~= b@);
                return s;
            }
            None => {
                assert(k == 0 ==> head@ =~= b@);
                assert(head@ == b@.subrange(0, (n - k) as int));
            }
        }
        k = k + 1;
    }
    let empty: &'b str = "";
    proof {
        reveal_strlit("");
    }
    assert(b@.subrange(0, 0) =~= Seq::<u8>::empty());
    assert(empty.spec_bytes().len() == 0);
    empty
}

/// A packed symbol table, read in place.
pub struct KAllSyms<'a> {
    blob: &'a [u8],
    count: usize,
    addr_table_off: usize,
    name_table_off: usize,
    token_table_off: usize,
}

impl<'a> KAllSyms<'a> {
    /// The bytes of the blob.
    pub closed spec fn bytes(&self) -> Seq<u8> {
        self.blob@
    }

    pub closed spec fn wf(&self) -> bool {
        &&& self.count == blob_count(self.blob@)
        &&& self.addr_table_off == header_addr_off(self.blob@)
        &&& self.name_table_off == header_name_off(self.blob@)
        &&& self.token_table_off == header_token_off(self.blob@)
    }

    fn read_u16(b: &[u8], off: usize) -> (r: usize)
        requires
            off + 2 <= b@.len(),
        ensures
            r == le16(b@, off as int),
            r <= 0xFFFF,
    {
        b[off] as usize + 256 * (b[off + 1] as usize)
    }

    /// Reads the header of `blob`. A blob shorter than a header, or whose
    /// address table would run past its end, holds no symbols.
    pub fn new(blob: &'a [u8]) -> (r: Self)
        ensures
            r.wf(),
            r.bytes() == blob@,
    {
        if blob.len() < HEADER_SIZE {
            return KAllSyms { blob, count: 0, addr_table_off: 0, name_table_off: 0, token_table_off: 0 };
        }
        let count = Self::read_u16(blob, 4);
        let addr_table_off = Self::read_u16(blob, 6);
        let name_table_off = Self::read_u16(blob, 8);
        let token_table_off = Self::read_u16(blob, 10);
        let fits = addr_table_off + 4 * count <= blob.len();
        KAllSyms {
            blob,
            count: if fits { count } else { 0 },
            addr_table_off,
            name_table_off,
            token_table_off,
        }
    }

    /// Address `i` of the address table.
    fn nth_addr(&self, i: usize) -> (r: u32)
        requires
            self.wf(),
            i < self.count,
        ensures
            r == blob_addr(self.bytes(), i as int),
    {
        let off = self.addr_table_off + 4 * i;
        let b = self.blob;
        let v: u32 = b[off] as u32 + 256 * (b[off + 1] as u32) + 65536 * (b[off + 2] as u32)
            + 16777216 * (b[off + 3] as u32);
        v
    }

    /// Entry `i` of the string table at `table_off`; empty where it would lie
    /// outside the blob.
    fn get_u8_array(&self, table_off: usize, i: usize) -> (r: &'a [u8])
        requires
            table_off <= 0xFFFF,
        ensures
            r@ == table_entry(self.bytes(), table_off as int, i as int),
    {
        let b = self.blob;
        let len = b.len();
        if table_off > len || i > (len - table_off) / 2 || len - table_off - 2 * i < 2 {
            return &b[0..0];
        }
        let body = table_off + Self::read_u16(b, table_off + 2 * i);
        if body >= len {
            return &b[0..0];
        }
        let size = b[body] as usize;
        if size > len - body - 1 {
            return &b[0..0];
        }
        &b[body + 1..body + 1 + size]
    }

    /// The bytes of token `i`.
    fn nth_token(&self, i: u8) -> (r: &'a [u8])
        requires
            self.wf(),
        ensures
            r@ == blob_token(self.bytes(), i as int),
    {
        self.get_u8_array(self.token_table_off, i as usize)
    }

    /// Writes as much of the name of symbol `i` as fits into `buf`; returns
    /// how many bytes were written.
    pub fn safe_nth_name(&self, i: usize, buf: &mut [u8]) -> (n: usize)
        requires
            self.wf(),
        ensures
            final(buf)@.len() == old(buf)@.len(),
            n == if blob_name(self.bytes(), i as int).len() < old(buf)@.len() {
                blob_name(self.bytes(), i as int).len()
            } else {
                old(buf)@.len() as nat
            },
            final(buf)@.subrange(0, n as int) == blob_name(self.bytes(), i as int).subrange(0, n as int),
            final(buf)@.subrange(n as int, final(buf)@.len() as int) == old(buf)@.subrange(n as int, old(buf)@.len() as int),
    {
        let ghost bytes = self.bytes();
        let ids: &'a [u8] = self.get_u8_array(self.name_table_off, i);
        assert(ids@ == blob_name_ids(bytes, i as int));
        let blen = buf.len();
        let ghost orig = buf@;
        let mut written: usize = 0;
        let mut t: usize = 0;
        while t < ids.len() && written < blen
            invariant
                self.wf(),
                bytes == self.bytes(),
                buf@.len() == blen,
                t <= ids@.len(),
                written <= blen,
                written == if expand_blob(bytes, ids@.subrange(0, t as int)).len() < blen {
                    expand_blob(bytes, ids@.subrange(0, t as int)).len()
                } else {
                    blen as nat
                },
                buf@.subrange(0, written as int) == expand_blob(bytes, ids@.subrange(0, t as int)).subrange(0, written as int),
                orig == old(buf)@,
                forall|x: int| written <= x < blen ==> buf@[x] == orig[x],
            decreases ids@.len() - t,
        {
            let token: &'a [u8] = self.nth_token(ids[t]);
            let ghost before = expand_blob(bytes, ids@.subrange(0, t as int));
            proof {
                assert(ids@.subrange(0, t + 1).drop_last() =~= ids@.subrange(0, t as int));
                assert(ids@.subrange(0, t + 1).last() == ids@[t as int]);
            }
            let ghost after = expand_blob(bytes, ids@.subrange(0, t + 1));
            assert(after == before + token@);
            let room = blen - written;
            let wlen = if token.len() < room { token.len() } else { room };
            let ghost start = buf@;
            let mut m: usize = 0;
            while m < wlen
                invariant
                    buf@.len() == blen,
                    written + wlen <= blen,
                    wlen <= token@.len(),
                    m <= wlen,
                    forall|x: int| 0 <= x < written ==> buf@[x] == start[x],
                    forall|x: int| 0 <= x < m ==> buf@[written + x] == token@[x],
                    forall|x: int| written + m <= x < blen ==> buf@[x] == start[x],
                decreases wlen - m,
            {
                buf[written + m] = token[m];
                m = m + 1;
            }
            proof {
                assert(written == before.len());
                assert(buf@.subrange(0, (written + wlen) as int) =~= after.subrange(0, (written + wlen) as int)) by {
                    assert forall|x: int| 0 <= x < written + wlen implies
                        #[trigger] buf@.subrange(0, (written + wlen) as int)[x] == after.subrange(0, (written + wlen) as int)[x] by {
                        if x < written {
                            assert(start.subrange(0, written as int)[x] == before.subrange(0, written as int)[x]);
                        } else {
                            assert(buf@[written + (x - written)] == token@[x - written]);
                        }
                    }
                }
            }
            written = written + wlen;
            t = t + 1;
        }
        proof {
            let all = expand_blob(bytes, ids@);
            let part = expand_blob(bytes, ids@.subrange(0, t as int));
            lemma_expand_blob_prefix(bytes, ids@, t as int);
            if t == ids@.len() {
                assert(ids@.subrange(0, t as int) =~= ids@);
            }
            assert(all.subrange(0, written as int) =~= part.subrange(0, written as int));
            assert(buf@.subrange(written as int, blen as int) =~= orig.subrange(written as int, blen as int));
        }
        written
    }

    /// The index of the symbol that contains `addr`: `None` where there are no
    /// symbols or `addr` lies below the first one; else a floor index found by
    /// bisection, which on an ascending table is the last entry at or below
    /// `addr`.
    pub fn search_idx(&self, addr: u32) -> (r: Option<usize>)
        requires
            self.wf(),
        ensures
            match r {
                None => blob_count(self.bytes()) == 0 || addr < blob_addr(self.bytes(), 0),
                Some(i) => is_floor(self.bytes(), addr as int, i as int)
                    && blob_addr(self.bytes(), 0) <= addr,
            },
    {
        if self.count == 0 {
            return None;
        }
        if addr < self.nth_addr(0) {
            return None;
        }
        let mut left: usize = 0;
        let mut right: usize = self.count - 1;
        loop
            invariant
                self.wf(),
                left <= right < self.count,
                blob_addr(self.bytes(), 0) <= addr,
                blob_addr(self.bytes(), left as int) <= addr,
                right + 1 == self.count || addr < blob_addr(self.bytes(), right as int),
            decreases right - left,
        {
            if right - left < 2 {
                if self.nth_addr(right) <= addr {
                    return Some(right);
                } else {
                    return Some(left);
                }
            }
            let center = left + (right - left) / 2;
            if self.nth_addr(center) <= addr {
                left = center;
            } else {
                right = center;
            }
        }
    }

    /// Looks `addr` up: the name of the symbol that contains it, as much of it
    /// as fits in `buf` (cut back to whole UTF-8 characters), and the offset of
    /// `addr` from the symbol's address. `None` where there are no symbols or
    /// `addr` lies below the first one.
    pub fn safe_search<'b>(&self, addr: u32, buf: &'b mut [u8]) -> (r: Option<(&'b str, u32)>)
        requires
            self.wf(),
        ensures
            final(buf)@.len() == old(buf)@.len(),
            r.is_none() == (blob_count(self.bytes()) == 0 || addr < blob_addr(self.bytes(), 0)),
            match r {
                None => final(buf)@ == old(buf)@,
                Some((s, off)) => exists|i: int| {
                    let name = blob_name(self.bytes(), i);
                    let n = if name.len() < old(buf)@.len() { name.len() as int } else { old(buf)@.len() as int };
                    &&& #[trigger] is_floor(self.bytes(), addr as int, i)
                    &&& off == addr - blob_addr(self.bytes(), i)
                    &&& final(buf)@.subrange(0, n) == name.subrange(0, n)
                    &&& final(buf)@.subrange(n, final(buf)@.len() as int) == old(buf)@.subrange(n, old(buf)@.len() as int)
                    &&& s.spec_bytes().len() <= n
                    &&& (s.spec_bytes().len() + 3 >= n || s.spec_bytes().len() == 0)
                    &&& forall|l: int| s.spec_bytes().len() < l <= n && l + 3 >= n ==> !valid_utf8(#[trigger] name.subrange(0, l))
                    &&& s.spec_bytes() == name.subrange(0, s.spec_bytes().len() as int)
                    &&& valid_utf8(name.subrange(0, n)) ==> s.spec_bytes() == name.subrange(0, n)
                },
            },
    {
        match self.search_idx(addr) {
            None => None,
            Some(idx) => {
                let n = self.safe_nth_name(idx, buf);
                let written: &'b [u8] = buf;
                let s = utf8_prefix(&written[0..n]);
                let off = addr - self.nth_addr(idx);
                proof {
                    let name = blob_name(self.bytes(), idx as int);
                    assert(written@.subrange(0, n as int) == name.subrange(0, n as int));
                    assert(s.spec_bytes() =~= name.subrange(0, s.spec_bytes().len() as int));
                    assert forall|l: int| s.spec_bytes().len() < l <= n && l + 3 >= n implies !valid_utf8(#[trigger] name.subrange(0, l)) by {
                        assert(written@.subrange(0, n as int).subrange(0, l) =~= name.subrange(0, l));
                    }
                    assert(is_floor(self.bytes(), addr as int, idx as int));
                }
                Some((s, off))
            }
        }
    }
}

/// The names spelled by a prefix of the ids are a prefix of the whole name.
proof fn lemma_expand_blob_prefix(b: Seq<u8>, ids: Seq<u8>, t: int)
    requires
        0 <= t <= ids.len(),
    ensures
        expand_blob(b, ids.subrange(0, t)).len() <= expand_blob(b, ids).len(),
        expand_blob(b, ids).subrange(0, expand_blob(b, ids.subrange(0, t)).len() as int)
            == expand_blob(b, ids.subrange(0, t)),
    decreases ids.len() - t,
{
    if t == ids.len() {
        assert(ids.subrange(0, t) =~= ids);
        assert(expand_blob(b, ids).subrange(0, expand_blob(b, ids).len() as int) =~= expand_blob(b, ids));
    } else {
        lemma_expand_blob_prefix(b, ids, t + 1);
        assert(ids.subrange(0, t + 1).drop_last() =~= ids.subrange(0, t));
        let short = expand_blob(b, ids.subrange(0, t));
        let long = expand_blob(b, ids.subrange(0, t + 1));
        let all = expand_blob(b, ids);
        assert(all.subrange(0, short.len() as int) =~= long.subrange(0, short.len() as int));
    }
}

} // verus!
