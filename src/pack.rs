//! Tokenizing names and laying out the packed blob.
use vstd::prelude::*;

use crate::dictionary::{dic_pairs, dic_views, dictionary_of, make_dic};
use crate::layout::{
    blob_addr, blob_count, blob_name, blob_name_ids, blob_token, entry_in_bounds, expand_blob,
    header_addr_off, header_count, header_name_off, header_token_off, le16, le32,
    lemma_table_entry_embedded, table_entry, HEADER_SIZE,
};
use crate::selector::{frag_views, total_len};
use vstd::utf8::encode_utf8;
use crate::matcher::{all_matches, kmp_search_all, lemma_all_matches_sound, matches_at};

verus! {

/// The byte strings held by a vector of vectors.
pub open spec fn views(v: Seq<Vec<u8>>) -> Seq<Seq<u8>> {
    v.map_values(|x: Vec<u8>| x@)
}

/// The bytes that the token ids `ids` stand for in `dic`, in order.
pub open spec fn expand(ids: Seq<u8>, dic: Seq<Seq<u8>>) -> Seq<u8>
    decreases ids.len(),
{
    if ids.len() == 0 {
        Seq::empty()
    } else {
        expand(ids.drop_last(), dic) + dic[ids.last() as int]
    }
}

pub proof fn lemma_expand_append(a: Seq<u8>, b: Seq<u8>, dic: Seq<Seq<u8>>)
    ensures
        expand(a + b, dic) == expand(a, dic) + expand(b, dic),
    decreases b.len(),
{
    if b.len() == 0 {
        assert(a + b =~= a);
        assert(expand(a, dic) + expand(b, dic) =~= expand(a, dic));
    } else {
        assert((a + b).drop_last() =~= a + b.drop_last());
        lemma_expand_append(a, b.drop_last(), dic);
        assert(expand(a + b, dic) =~= expand(a, dic) + expand(b, dic));
    }
}

/// Every id of `ids` names an entry of a dictionary of `n` tokens.
pub open spec fn ids_below(ids: Seq<u8>, n: int) -> bool {
    forall|i: int| 0 <= i < ids.len() ==> (ids[i] as int) < n
}

/// Every byte of `s` is, on its own, a token of `dic`.
pub open spec fn has_single_bytes(dic: Seq<Seq<u8>>, s: Seq<u8>) -> bool {
    forall|i: int| 0 <= i < s.len() ==> exists|k: int| 0 <= k < dic.len() && dic[k] == seq![#[trigger] s[i]]
}

/// The first entry of `dic`, from index `k` on, that is non-empty and occurs in `s`.
pub open spec fn first_entry(dic: Seq<Seq<u8>>, s: Seq<u8>, k: int) -> Option<int>
    decreases dic.len() - k,
{
    if k < 0 || k >= dic.len() {
        None
    } else if dic[k].len() > 0 && all_matches(dic[k], s, 0).len() > 0 {
        Some(k)
    } else {
        first_entry(dic, s, k + 1)
    }
}

/// `o` with `p` put in front of what it holds.
pub open spec fn prepend(p: Seq<u8>, o: Option<Seq<u8>>) -> Option<Seq<u8>> {
    match o {
        Some(x) => Some(p + x),
        None => None,
    }
}

/// The token ids of `s`: the first entry of `dic` that occurs in `s` is taken at
/// each of its non-overlapping occurrences, and the gaps around them are
/// rewritten the same way; `None` where a non-empty gap holds no entry.
pub open spec fn tokens_of(dic: Seq<Seq<u8>>, s: Seq<u8>) -> Option<Seq<u8>>
    decreases s.len(), 1int, 0int,
{
    if s.len() == 0 {
        Some(Seq::empty())
    } else {
        match first_entry(dic, s, 0) {
            None => None,
            Some(k) => tokens_around(dic, s, k, all_matches(dic[k], s, 0), 0),
        }
    }
}

/// The token ids of `s` from `last` on, where entry `k` occurs at the offsets `ms`.
pub open spec fn tokens_around(dic: Seq<Seq<u8>>, s: Seq<u8>, k: int, ms: Seq<int>, last: int) -> Option<Seq<u8>>
    decreases s.len(), 0int, ms.len(),
{
    if ms.len() == 0 {
        if last >= s.len() {
            Some(Seq::empty())
        } else if 0 < last {
            tokens_of(dic, s.subrange(last, s.len() as int))
        } else {
            None
        }
    } else {
        let m = ms[0];
        if !(0 <= last <= m && m < s.len()) {
            None
        } else {
            let gap = if m > last { tokens_of(dic, s.subrange(last, m)) } else { Some(Seq::empty()) };
            match gap {
                None => None,
                Some(g) => prepend(g + seq![k as u8], tokens_around(dic, s, k, ms.drop_first(), m + dic[k].len())),
            }
        }
    }
}

/// Rewrites `data` as token ids of `dic`: the first entry of `dic` that occurs in
/// `data` is taken at each of its non-overlapping occurrences, and the gaps
/// around them are rewritten the same way (see `tokens_of`). Every non-empty
/// gap must hold an entry of `dic`.
pub fn tokenize(data: &[u8], dic: &Vec<Vec<u8>>) -> (r: Vec<u8>)
    requires
        dic@.len() <= 256,
        tokens_of(views(dic@), data@).is_some(),
    ensures
        ids_below(r@, dic@.len() as int),
        expand(r@, views(dic@)) == data@,
        tokens_of(views(dic@), data@) == Some(r@),
    decreases data@.len(),
{
    if data.len() == 0 {
        assert(expand(Seq::<u8>::empty(), views(dic@)) =~= data@);
        let none: Vec<u8> = Vec::new();
        assert(none@ =~= Seq::<u8>::empty());
        return none;
    }
    let ghost d = views(dic@);
    let mut k: usize = 0;
    while k < dic.len()
        invariant
            dic@.len() <= 256,
            d == views(dic@),
            data@.len() > 0,
            k <= dic@.len(),
            forall|j: int| 0 <= j < k ==> d[j].len() == 0 || all_matches(d[j], data@, 0).len() == 0,
            first_entry(d, data@, 0) == first_entry(d, data@, k as int),
            tokens_of(d, data@).is_some(),
        decreases dic@.len() - k,
    {
        let token: &[u8] = dic[k].as_slice();
        if token.len() > 0 {
            let found = kmp_search_all(token, data);
            if found.len() > 0 {
                proof {
                    lemma_all_matches_sound(token@, data@, 0);
                }
                let ghost ms = all_matches(token@, data@, 0);
                assert(first_entry(d, data@, k as int) == Some(k as int));
                assert(tokens_of(d, data@) == tokens_around(d, data@, k as int, ms, 0));
                assert(ms.subrange(0, ms.len() as int) =~= ms);
                assert(found@.len() == ms.len());
                assert forall|j: int| 0 <= j < found@.len() implies found@[j] as int == #[trigger] ms[j] by {
                    assert(found@.map_values(|i: usize| i as int)[j] == ms[j]);
                }
                let tlen = token.len();
                let dlen = data.len();
                let mut result: Vec<u8> = Vec::new();
                let mut last_end: usize = 0;
                let mut j: usize = 0;
                while j < found.len()
                    invariant
                        dic@.len() <= 256,
                        d == views(dic@),
                        k < dic@.len(),
                        d[k as int] == token@,
                        tlen == token@.len(),
                        dlen == data@.len(),
                        tlen > 0,
                        ms == all_matches(token@, data@, 0),
                        found@.len() == ms.len(),
                        forall|i: int| 0 <= i < found@.len() ==> found@[i] as int == #[trigger] ms[i],
                        forall|i: int| 0 <= i < ms.len() ==> {
                            let m = #[trigger] ms[i];
                            matches_at(token@, data@, m) && 0 <= m
                        },
                        forall|a: int, b: int|
                            #![trigger ms[a], ms[b]]
                            0 <= a < b < ms.len() ==> ms[a] + token@.len() <= ms[b],
                        j <= found@.len(),
                        j > 0 ==> last_end == found@[j - 1] + tlen,
                        j == 0 ==> last_end == 0,
                        last_end <= data@.len(),
                        ids_below(result@, dic@.len() as int),
                        expand(result@, d) == data@.subrange(0, last_end as int),
                        tokens_of(d, data@) == prepend(result@,
                            tokens_around(d, data@, k as int, ms.subrange(j as int, ms.len() as int), last_end as int)),
                        tokens_of(d, data@).is_some(),
                    decreases found@.len() - j,
                {
                    let start = found[j];
                    assert(start as int == ms[j as int]);
                    assert(matches_at(token@, data@, ms[j as int]));
                    assert(start + tlen <= dlen);
                    if j > 0 {
                        assert(ms[j - 1] + token@.len() <= ms[j as int]);
                    }
                    let ghost here = ms.subrange(j as int, ms.len() as int);
                    let ghost prefix = result@;
                    assert(here[0] == start);
                    assert(here.drop_first() =~= ms.subrange(j + 1, ms.len() as int));
                    let ghost later = tokens_around(d, data@, k as int, here.drop_first(), start + tlen);
                    let ghost gap_tokens: Seq<u8> = Seq::empty();
                    if start > last_end {
                        let gap = &data[last_end..start];
                        assert(gap@ == data@.subrange(last_end as int, start as int));
                        assert(tokens_around(d, data@, k as int, here, last_end as int).is_some());
                        assert(tokens_of(d, gap@).is_some());
                        let g = tokenize(gap, dic);
                        proof {
                            lemma_expand_append(result@, g@, d);
                            assert(data@.subrange(0, last_end as int) + gap@
                                =~= data@.subrange(0, start as int));
                            gap_tokens = g@;
                        }
                        let mut g = g;
                        result.append(&mut g);
                    }
                    assert(tokens_around(d, data@, k as int, here, last_end as int)
                        == prepend(gap_tokens + seq![k as u8], later));
                    assert(result@ == prefix + gap_tokens);
                    proof {
                        lemma_expand_append(result@, seq![k as u8], d);
                        assert(expand(seq![k as u8], d) =~= d[k as int]) by {
                            assert(seq![k as u8].drop_last() =~= Seq::<u8>::empty());
                            assert(seq![k as u8].last() == k as u8);
                            assert((k as u8) as int == k as int);
                            assert(expand(Seq::<u8>::empty(), d) =~= Seq::<u8>::empty());
                        }
                        assert(data@.subrange(start as int, start + tlen) == token@);
                        assert(data@.subrange(0, start as int) + token@
                            =~= data@.subrange(0, start + tlen));
                    }
                    let ghost pre = result@;
                    result.push(k as u8);
                    assert(result@ =~= pre + seq![k as u8]);
                    proof {
                        match later {
                            Some(x) => {
                                assert(prefix + (gap_tokens + seq![k as u8] + x) =~= result@ + x);
                            }
                            None => {}
                        }
                    }
                    last_end = start + tlen;
                    j = j + 1;
                }
                let ghost done = result@;
                assert(ms.subrange(j as int, ms.len() as int) =~= Seq::<int>::empty());
                assert(last_end > 0);
                if last_end < data.len() {
                    let rest = &data[last_end..data.len()];
                    assert(rest@ == data@.subrange(last_end as int, data@.len() as int));
                    assert(tokens_around(d, data@, k as int, ms.subrange(j as int, ms.len() as int), last_end as int).is_some());
                    assert(tokens_of(d, rest@).is_some());
                    let g = tokenize(rest, dic);
                    proof {
                        lemma_expand_append(result@, g@, d);
                        assert(data@.subrange(0, last_end as int) + rest@ =~= data@);
                        assert(tokens_of(d, data@) == Some(done + g@));
                    }
                    let mut g = g;
                    result.append(&mut g);
                } else {
                    assert(data@.subrange(0, last_end as int) =~= data@);
                    assert(done + Seq::<u8>::empty() =~= done);
                }
                return result;
            }
        }
        k = k + 1;
    }
    assert(first_entry(d, data@, dic@.len() as int) == None::<int>);
    assert(false);
    Vec::new()
}

/// The total size of the bodies of the first `k` entries of a string table.
pub open spec fn bodies_len(d: Seq<Seq<u8>>, k: int) -> int
    decreases k,
{
    if k <= 0 { 0 } else { bodies_len(d, k - 1) + d[k - 1].len() + 1 }
}

/// Where the body of entry `k` starts, counted from the start of the table.
pub open spec fn body_offset(d: Seq<Seq<u8>>, k: int) -> int {
    2 * d.len() + bodies_len(d, k)
}

/// Each entry's length fits in its length byte and each offset in a `u16`.
pub open spec fn table_fits(d: Seq<Seq<u8>>) -> bool {
    &&& forall|k: int| 0 <= k < d.len() ==> (#[trigger] d[k]).len() <= 255
    &&& forall|k: int| 0 <= k < d.len() ==> #[trigger] body_offset(d, k) <= 65535
}

/// Whether `data` can be laid out as a string table.
pub fn str_table_fits(data: &Vec<Vec<u8>>) -> (r: bool)
    ensures
        r == table_fits(views(data@)),
{
    let ghost d = views(data@);
    let n = data.len();
    if n > 32767 {
        assert(bodies_len(d, 0) == 0);
        assert(body_offset(d, 0) > 65535);
        return false;
    }
    let mut off: usize = 2 * n;
    let mut k: usize = 0;
    while k < n
        invariant
            n == data@.len(),
            n <= 32767,
            d == views(data@),
            k <= n,
            off == body_offset(d, k as int),
            off <= 65535 + 256,
            forall|j: int| 0 <= j < k ==> (#[trigger] d[j]).len() <= 255,
            forall|j: int| 0 <= j < k ==> #[trigger] body_offset(d, j) <= 65535,
        decreases n - k,
    {
        let len = data[k].len();
        assert(d[k as int] == data@[k as int]@);
        if len > 255 || off > 65535 {
            assert(!(d[k as int].len() <= 255 && body_offset(d, k as int) <= 65535));
            return false;
        }
        assert(len == data@[k as int]@.len());
        assert(d[k as int].len() <= 255);
        assert(bodies_len(d, k + 1) == bodies_len(d, k as int) + d[k as int].len() + 1);
        assert(body_offset(d, k as int) <= 65535);
        off = off + len + 1;
        k = k + 1;
    }
    true
}

/// Lays out `data` as a string table: the offset array, then the bodies.
pub fn str_table(data: &Vec<Vec<u8>>) -> (r: Vec<u8>)
    requires
        table_fits(views(data@)),
    ensures
        r@ == str_table_bytes(views(data@)),
        r@.len() == body_offset(views(data@), data@.len() as int),
        forall|k: int| 0 <= k < data@.len() ==> #[trigger] entry_in_bounds(r@, 0, k),
        forall|k: int| 0 <= k < data@.len() ==> #[trigger] table_entry(r@, 0, k) == data@[k]@,
        forall|k: int| 0 <= k < data@.len() ==> #[trigger] le16(r@, 2 * k) == body_offset(views(data@), k),
        forall|k: int| 0 <= k < data@.len() ==> r@[#[trigger] body_offset(views(data@), k)] == data@[k]@.len()
            && r@.subrange(body_offset(views(data@), k) + 1, body_offset(views(data@), k) + 1 + data@[k]@.len())
                == data@[k]@,
{
    let ghost d = views(data@);
    let n = data.len();
    if n > 0 {
        assert(body_offset(d, 0) <= 65535);
    }
    let mut result: Vec<u8> = Vec::new();
    let mut off: usize = 2 * n;
    let mut k: usize = 0;
    while k < n
        invariant
            n == data@.len(),
            n <= 32767,
            d == views(data@),
            table_fits(d),
            k <= n,
            off == body_offset(d, k as int),
            off <= 65535 + 256,
            result@.len() == 2 * k,
            result@ == offsets_bytes(d, k as int),
            forall|j: int| 0 <= j < k ==> #[trigger] le16(result@, 2 * j) == body_offset(d, j),
        decreases n - k,
    {
        assert(body_offset(d, k as int) <= 65535);
        let ghost pre = result@;
        let lo = (off % 256) as u8;
        let hi = (off / 256) as u8;
        assert(lo as int + 256 * (hi as int) == off);
        result.push(lo);
        result.push(hi);
        assert(result@ =~= offsets_bytes(d, k + 1));
        assert forall|j: int| 0 <= j < k + 1 implies #[trigger] le16(result@, 2 * j) == body_offset(d, j) by {
            if j < k {
                assert(le16(pre, 2 * j) == body_offset(d, j));
                assert(result@[2 * j] == pre[2 * j]);
                assert(result@[2 * j + 1] == pre[2 * j + 1]);
            } else {
                assert(result@[2 * j] == lo);
                assert(result@[2 * j + 1] == hi);
            }
        }
        assert(d[k as int] == data@[k as int]@);
        assert(bodies_len(d, k + 1) == bodies_len(d, k as int) + d[k as int].len() + 1);
        off = off + data[k].len() + 1;
        k = k + 1;
    }
    let mut k: usize = 0;
    while k < n
        invariant
            n == data@.len(),
            d == views(data@),
            table_fits(d),
            k <= n,
            result@.len() == body_offset(d, k as int),
            result@ == offsets_bytes(d, n as int) + bodies_bytes(d, k as int),
            forall|j: int| 0 <= j < n ==> #[trigger] le16(result@, 2 * j) == body_offset(d, j),
            forall|j: int| 0 <= j < k ==> result@[#[trigger] body_offset(d, j)] == d[j].len(),
            forall|j: int| 0 <= j < k ==>
                result@.subrange(#[trigger] body_offset(d, j) + 1, body_offset(d, j) + 1 + d[j].len()) == d[j],
        decreases n - k,
    {
        let ghost pre = result@;
        let item: &Vec<u8> = &data[k];
        assert(item@ == d[k as int]);
        assert(d[k as int].len() <= 255);
        assert(body_offset(d, k as int) <= 65535);
        proof {
            lemma_bodies_len_mono(d, 0, k as int);
        }
        assert(bodies_len(d, 0) == 0);
        result.push(item.len() as u8);
        result.extend_from_slice(item.as_slice());
        assert(body_offset(d, k + 1) == body_offset(d, k as int) + d[k as int].len() + 1);
        assert(result@ =~= pre + seq![item.len() as u8] + item@);
        assert(result@ =~= offsets_bytes(d, n as int) + bodies_bytes(d, k + 1));
        assert forall|j: int| 0 <= j < n implies #[trigger] le16(result@, 2 * j) == body_offset(d, j) by {
            assert(le16(pre, 2 * j) == body_offset(d, j));
            assert(result@[2 * j] == pre[2 * j]);
            assert(result@[2 * j + 1] == pre[2 * j + 1]);
        }
        assert forall|j: int| 0 <= j < k + 1 implies result@[#[trigger] body_offset(d, j)] == d[j].len()
            && result@.subrange(body_offset(d, j) + 1, body_offset(d, j) + 1 + d[j].len()) == d[j] by {
            if j < k {
                lemma_bodies_len_mono(d, j + 1, k as int);
                lemma_bodies_len_mono(d, 0, j);
                assert(bodies_len(d, j + 1) == bodies_len(d, j) + d[j].len() + 1);
                assert(body_offset(d, j) + 1 + d[j].len() <= pre.len());
                assert(pre[body_offset(d, j)] == d[j].len());
                assert(pre.subrange(body_offset(d, j) + 1, body_offset(d, j) + 1 + d[j].len()) == d[j]);
                assert(result@.subrange(body_offset(d, j) + 1, body_offset(d, j) + 1 + d[j].len())
                    =~= pre.subrange(body_offset(d, j) + 1, body_offset(d, j) + 1 + d[j].len()));
            } else {
                assert(result@.subrange(body_offset(d, j) + 1, body_offset(d, j) + 1 + d[j].len()) =~= item@);
            }
        }
        k = k + 1;
    }
    assert forall|k: int| 0 <= k < n implies
        #[trigger] entry_in_bounds(result@, 0, k) && table_entry(result@, 0, k) == data@[k]@ by {
        lemma_bodies_len_mono(d, k + 1, n as int);
        lemma_bodies_len_mono(d, 0, k);
        assert(le16(result@, 2 * k) == body_offset(d, k));
        assert(le16(result@, 0 + 2 * k) == body_offset(d, k));
        assert(result@.subrange(body_offset(d, k) + 1, body_offset(d, k) + 1 + d[k].len()) == d[k]);
        assert(d[k] == data@[k]@);
        assert(bodies_len(d, k + 1) == bodies_len(d, k) + d[k].len() + 1);
        assert(result@[body_offset(d, k)] == d[k].len());
    }
    assert forall|k: int| 0 <= k < n implies #[trigger] table_entry(result@, 0, k) == data@[k]@ by {
        assert(entry_in_bounds(result@, 0, k));
    }
    result
}

proof fn lemma_bodies_len_mono(d: Seq<Seq<u8>>, a: int, b: int)
    requires
        0 <= a <= b,
    ensures
        bodies_len(d, a) <= bodies_len(d, b),
    decreases b - a,
{
    if a < b {
        lemma_bodies_len_mono(d, a, b - 1);
    }
}

/// Appends `x` as two little-endian bytes.
fn push_u16_le(v: &mut Vec<u8>, x: usize)
    requires
        x <= 0xFFFF,
    ensures
        final(v)@.len() == old(v)@.len() + 2,
        final(v)@.subrange(0, old(v)@.len() as int) == old(v)@,
        le16(final(v)@, old(v)@.len() as int) == x,
{
    let ghost pre = v@;
    let lo = (x % 256) as u8;
    let hi = (x / 256) as u8;
    v.push(lo);
    v.push(hi);
    assert(v@.subrange(0, pre.len() as int) =~= pre);
}

/// Appends `x` as four little-endian bytes.
fn push_u32_le(v: &mut Vec<u8>, x: u32)
    ensures
        final(v)@.len() == old(v)@.len() + 4,
        final(v)@.subrange(0, old(v)@.len() as int) == old(v)@,
        le32(final(v)@, old(v)@.len() as int) == x,
{
    let ghost pre = v@;
    let b0 = (x % 256) as u8;
    let y = x / 256;
    let b1 = (y % 256) as u8;
    let z = y / 256;
    let b2 = (z % 256) as u8;
    let b3 = (z / 256) as u8;
    assert(x == b0 as int + 256 * (b1 as int) + 65536 * (b2 as int) + 16777216 * (b3 as int));
    v.push(b0);
    v.push(b1);
    v.push(b2);
    v.push(b3);
    assert(v@.subrange(0, pre.len() as int) =~= pre);
}

proof fn lemma_total_len_prefix_of(s: Seq<Seq<u8>>, i: int)
    requires
        0 <= i <= s.len(),
    ensures
        total_len(s.subrange(0, i), i) == total_len(s, i),
    decreases i,
{
    if i > 0 {
        lemma_total_len_prefix_of(s, i - 1);
        assert(s.subrange(0, i - 1) =~= s.subrange(0, i).subrange(0, i - 1));
        lemma_total_len_prefix_eq(s.subrange(0, i), s, i - 1);
    }
}

proof fn lemma_total_len_prefix_eq(x: Seq<Seq<u8>>, y: Seq<Seq<u8>>, n: int)
    requires
        0 <= n <= x.len(),
        n <= y.len(),
        forall|k: int| 0 <= k < n ==> x[k] == y[k],
    ensures
        total_len(x, n) == total_len(y, n),
    decreases n,
{
    if n > 0 {
        lemma_total_len_prefix_eq(x, y, n - 1);
    }
}

/// Reading token ids through a blob's token table spells the same bytes as
/// the dictionary it was packed from.
proof fn lemma_expand_blob(b: Seq<u8>, ids: Seq<u8>, dic: Seq<Seq<u8>>)
    requires
        ids_below(ids, dic.len() as int),
        forall|k: int| 0 <= k < dic.len() ==> #[trigger] blob_token(b, k) == dic[k],
    ensures
        expand_blob(b, ids) == expand(ids, dic),
    decreases ids.len(),
{
    if ids.len() > 0 {
        lemma_expand_blob(b, ids.drop_last(), dic);
        assert(blob_token(b, ids.last() as int) == dic[ids.last() as int]);
    }
}

/// The UTF-8 bytes of each name.
pub open spec fn name_bytes(symbols: Seq<(String, u32)>, i: int) -> Seq<u8> {
    encode_utf8(symbols[i].0@)
}

/// The names of `symbols`, as bytes.
pub open spec fn names_of(symbols: Seq<(String, u32)>) -> Seq<Seq<u8>> {
    Seq::new(symbols.len(), |i: int| name_bytes(symbols, i))
}

/// The tokens of the dictionary built from the names of `symbols`.
pub open spec fn dictionary_tokens(symbols: Seq<(String, u32)>) -> Seq<Seq<u8>> {
    dictionary_of(names_of(symbols)).map_values(|e: (Seq<u8>, int)| e.0)
}

/// Each name of `symbols` as token ids of that dictionary.
pub open spec fn tokenized_names(symbols: Seq<(String, u32)>) -> Seq<Seq<u8>> {
    Seq::new(symbols.len(), |i: int| tokens_of(dictionary_tokens(symbols), name_bytes(symbols, i))->Some_0)
}

/// `symbols` fit the blob's layout: at most 65535 of them, each tokenized name
/// and each token at most 255 bytes long, and every offset within a `u16`.
pub open spec fn packable(symbols: Seq<(String, u32)>) -> bool {
    let n = symbols.len() as int;
    &&& n <= 0xFFFF
    &&& total_len(names_of(symbols), n) <= usize::MAX
    &&& table_fits(tokenized_names(symbols))
    &&& table_fits(dictionary_tokens(symbols))
    &&& 12 + 4 * n + body_offset(tokenized_names(symbols), n) <= 0xFFFF
}

/// `b` is laid out byte for byte as `pack` lays out `symbols`: the header
/// (reserved word 0, the count, and the three table offsets), the addresses
/// at offset 12, then the name table and the token table, and nothing after.
pub open spec fn blob_layout(b: Seq<u8>, symbols: Seq<(String, u32)>) -> bool {
    let n = symbols.len() as int;
    let names = tokenized_names(symbols);
    let dic = dictionary_tokens(symbols);
    let name_off = 12 + 4 * n;
    let token_off = name_off + body_offset(names, n);
    &&& b.len() == token_off + body_offset(dic, dic.len() as int)
    &&& le32(b, 0) == 0
    &&& le16(b, 4) == n
    &&& le16(b, 6) == 12
    &&& le16(b, 8) == name_off
    &&& le16(b, 10) == token_off
    &&& forall|i: int| 0 <= i < n ==> #[trigger] le32(b, 12 + 4 * i) == symbols[i].1
    &&& b.subrange(name_off, token_off) == str_table_bytes(names)
    &&& b.subrange(token_off, b.len() as int) == str_table_bytes(dic)
    &&& forall|i: int| 0 <= i < n ==> #[trigger] blob_name_ids(b, i) == names[i]
    &&& forall|k: int| 0 <= k < dic.len() ==> #[trigger] blob_token(b, k) == dic[k]
    &&& dic.len() <= 256
    &&& forall|k: int| 0 <= k < dic.len() ==> 1 <= (#[trigger] dic[k]).len() <= 255
    &&& forall|i: int, j: int| 0 <= i < n && 0 <= j < names[i].len() ==> (#[trigger] names[i][j] as int) < dic.len()
}

/// The bytes of a string table holding `d`: the offsets, little-endian, then
/// each entry as its length and its bytes.
pub open spec fn str_table_bytes(d: Seq<Seq<u8>>) -> Seq<u8> {
    offsets_bytes(d, d.len() as int) + bodies_bytes(d, d.len() as int)
}

/// The offset array of the first `k` entries.
pub open spec fn offsets_bytes(d: Seq<Seq<u8>>, k: int) -> Seq<u8>
    decreases k,
{
    if k <= 0 {
        Seq::empty()
    } else {
        offsets_bytes(d, k - 1) + seq![(body_offset(d, k - 1) % 256) as u8, (body_offset(d, k - 1) / 256) as u8]
    }
}

/// The bodies of the first `k` entries.
pub open spec fn bodies_bytes(d: Seq<Seq<u8>>, k: int) -> Seq<u8>
    decreases k,
{
    if k <= 0 {
        Seq::empty()
    } else {
        bodies_bytes(d, k - 1) + seq![d[k - 1].len() as u8] + d[k - 1]
    }
}

/// Packs `symbols` (names with their addresses, sorted by address) into one
/// blob: the dictionary is built from the names, each name is tokenized, and
/// header, address table, name table and token table are laid out in turn.
/// `None` exactly where the result cannot be laid out (see `packable`).
pub fn pack(symbols: &Vec<(String, u32)>) -> (r: Option<Vec<u8>>)
    ensures
        r.is_some() == packable(symbols@),
        match r {
            Some(b) => {
                &&& blob_count(b@) == symbols@.len()
                &&& forall|i: int| 0 <= i < symbols@.len() ==> #[trigger] blob_addr(b@, i) == symbols@[i].1
                &&& forall|i: int| 0 <= i < symbols@.len() ==> #[trigger] blob_name(b@, i) == name_bytes(symbols@, i)
                &&& blob_layout(b@, symbols@)
            },
            None => symbols@.len() > 0,
        },
{
    let n = symbols.len();
    let ghost names_spec = names_of(symbols@);
    if n > 0xFFFF {
        return None;
    }
    let mut names: Vec<&[u8]> = Vec::new();
    let mut total: usize = 0;
    let mut i: usize = 0;
    while i < n
        invariant
            n == symbols@.len(),
            i <= n,
            names@.len() == i,
            forall|k: int| 0 <= k < i ==> (#[trigger] names@[k])@ == name_bytes(symbols@, k),
            total == total_len(frag_views(names@), i as int),
            names_spec == names_of(symbols@),
        decreases n - i,
    {
        let name: &[u8] = symbols[i].0.as_str().as_bytes();
        if name.len() > usize::MAX - total {
            proof {
                assert(frag_views(names@) =~= names_spec.subrange(0, i as int));
                lemma_total_len_prefix_of(names_spec, i as int);
                assert(names_spec[i as int] == name@);
                crate::selector::lemma_total_len_mono(names_spec, i + 1, n as int);
            }
            return None;
        }
        let ghost pre = names@;
        names.push(name);
        proof {
            assert(names@.subrange(0, i as int) =~= pre);
            crate::dictionary::lemma_total_len_append(frag_views(pre), seq![name@]);
            assert(frag_views(names@) =~= frag_views(pre) + seq![name@]);
            assert(total_len(seq![name@], 0) == 0);
            assert(frag_views(pre).len() == i);
        }
        total = total + name.len();
        i = i + 1;
    }
    proof {
        assert(frag_views(names@) =~= names_spec);
    }
    let entries = make_dic(names.clone());
    assert(n == 0 ==> entries@.len() == 0);
    let mut dic: Vec<Vec<u8>> = Vec::new();
    let mut k: usize = 0;
    while k < entries.len()
        invariant
            entries@.len() <= 256,
            k <= entries@.len(),
            dic@.len() == k,
            n == 0 ==> entries@.len() == 0,
            forall|m: int| 0 <= m < k ==> (#[trigger] dic@[m])@ == entries@[m].0@,
        decreases entries@.len() - k,
    {
        dic.push(entries[k].0.clone());
        k = k + 1;
    }
    proof {
        assert(views(dic@) =~= dictionary_tokens(symbols@)) by {
            assert forall|m: int| 0 <= m < dic@.len() implies views(dic@)[m] == dictionary_tokens(symbols@)[m] by {
                assert(dic_pairs(entries@)[m] == dictionary_of(names_spec)[m]);
            }
        }
        assert(views(dic@) =~= dic_views(entries@));
    }
    let mut tokenized: Vec<Vec<u8>> = Vec::new();
    let mut i: usize = 0;
    while i < n
        invariant
            n == symbols@.len(),
            names@.len() == n,
            forall|k: int| 0 <= k < n ==> (#[trigger] names@[k])@ == name_bytes(symbols@, k),
            dic@.len() <= 256,
            i <= n,
            tokenized@.len() == i,
            forall|k: int| 0 <= k < i ==> ids_below((#[trigger] tokenized@[k])@, dic@.len() as int)
                && expand(tokenized@[k]@, views(dic@)) == name_bytes(symbols@, k)
                && Some(tokenized@[k]@) == tokens_of(views(dic@), name_bytes(symbols@, k)),
            views(dic@) == dictionary_tokens(symbols@),
            forall|k: int| 0 <= k < n ==> (#[trigger] tokens_of(views(dic@), names@[k]@)).is_some(),
        decreases n - i,
    {
        assert(tokens_of(views(dic@), names@[i as int]@).is_some());
        let ids = tokenize(names[i], &dic);
        tokenized.push(ids);
        i = i + 1;
    }
    proof {
        assert(views(tokenized@) =~= tokenized_names(symbols@)) by {
            assert forall|m: int| 0 <= m < n implies views(tokenized@)[m] == tokenized_names(symbols@)[m] by {
                assert(Some(tokenized@[m]@) == tokens_of(views(dic@), name_bytes(symbols@, m)));
            }
        }
        assert(total_len(names_spec, n as int) <= usize::MAX) by {
            assert(frag_views(names@) =~= names_spec);
        }
    }
    if !str_table_fits(&tokenized) || !str_table_fits(&dic) {
        return None;
    }
    let name_table = str_table(&tokenized);
    let token_table = str_table(&dic);
    let name_off: usize = HEADER_SIZE + 4 * n;
    if name_off > 0xFFFF || name_table.len() > 0xFFFF - name_off {
        return None;
    }
    let blob = assemble(symbols, &name_table, &token_table);
    proof {
        let b = blob@;
        let name_off = 12 + 4 * n;
        let token_off = name_off + name_table@.len();
        assert(header_count(b) == n);
        assert(header_addr_off(b) == 12);
        assert(header_name_off(b) == name_off);
        assert(header_token_off(b) == token_off);
        assert(blob_count(b) == n);
        assert forall|k: int| 0 <= k < n implies #[trigger] blob_addr(b, k) == symbols@[k].1 by {
            assert(le32(b, 12 + 4 * k) == symbols@[k].1);
        }
        assert(b.subrange(name_off as int, name_off + name_table@.len()) == name_table@);
        assert(b.subrange(token_off as int, token_off + token_table@.len()) =~= token_table@);
        assert forall|k: int| 0 <= k < dic@.len() implies #[trigger] blob_token(b, k) == views(dic@)[k] by {
            lemma_table_entry_embedded(b, token_off as int, token_table@, k);
        }
        assert forall|k: int| 0 <= k < n implies #[trigger] blob_name_ids(b, k) == tokenized@[k]@ by {
            lemma_table_entry_embedded(b, name_off as int, name_table@, k);
        }
        assert forall|k: int| 0 <= k < n implies #[trigger] blob_name(b, k) == name_bytes(symbols@, k) by {
            assert(blob_name_ids(b, k) == tokenized@[k]@);
            lemma_expand_blob(b, tokenized@[k]@, views(dic@));
        }
        let names = tokenized_names(symbols@);
        let d = dictionary_tokens(symbols@);
        assert forall|i: int| 0 <= i < n implies #[trigger] blob_name_ids(b, i) == names[i] by {
            assert(blob_name_ids(b, i) == tokenized@[i]@);
            assert(views(tokenized@)[i] == tokenized@[i]@);
        }
        assert forall|k: int| 0 <= k < d.len() implies 1 <= (#[trigger] d[k]).len() <= 255 by {
            assert(d[k] == views(dic@)[k]);
            assert(views(dic@)[k] == dic@[k]@);
            assert(entries@[k].0@.len() > 0);
        }
        assert forall|i: int, j: int| 0 <= i < n && 0 <= j < names[i].len() implies (#[trigger] names[i][j] as int) < d.len() by {
            assert(names[i] == tokenized@[i]@);
            assert(ids_below(tokenized@[i]@, dic@.len() as int));
        }
        assert(b.subrange(token_off as int, b.len() as int) =~= token_table@);
        assert(blob_layout(b, symbols@));
    }
    Some(blob)
}

/// The header, the address table and the two string tables, in turn.
fn assemble(symbols: &Vec<(String, u32)>, name_table: &Vec<u8>, token_table: &Vec<u8>) -> (b: Vec<u8>)
    requires
        symbols@.len() <= 0xFFFF,
        12 + 4 * symbols@.len() + name_table@.len() <= 0xFFFF,
    ensures
        b@.len() == 12 + 4 * symbols@.len() + name_table@.len() + token_table@.len(),
        le32(b@, 0) == 0,
        le16(b@, 4) == symbols@.len(),
        le16(b@, 6) == 12,
        le16(b@, 8) == 12 + 4 * symbols@.len(),
        le16(b@, 10) == 12 + 4 * symbols@.len() + name_table@.len(),
        forall|i: int| 0 <= i < symbols@.len() ==> #[trigger] le32(b@, 12 + 4 * i) == symbols@[i].1,
        b@.subrange(12 + 4 * symbols@.len() as int, 12 + 4 * symbols@.len() + name_table@.len() as int) == name_table@,
        b@.subrange(12 + 4 * symbols@.len() + name_table@.len() as int, b@.len() as int) == token_table@,
{
    let n = symbols.len();
    let name_off: usize = HEADER_SIZE + 4 * n;
    let token_off: usize = name_off + name_table.len();
    let mut blob: Vec<u8> = Vec::new();
    push_u32_le(&mut blob, 0);
    let ghost first = blob@;
    push_u16_le(&mut blob, n);
    push_u16_le(&mut blob, HEADER_SIZE);
    push_u16_le(&mut blob, name_off);
    push_u16_le(&mut blob, token_off);
    let ghost header = blob@;
    assert(header.subrange(0, 4) =~= first);
    assert(le32(header, 0) == 0) by {
        assert(header[0] == first[0] && header[1] == first[1] && header[2] == first[2] && header[3] == first[3]);
    }
    assert(le16(header, 4) == n);
    assert(le16(header, 6) == 12);
    assert(le16(header, 8) == name_off);
    assert(le16(header, 10) == token_off);
    let mut i: usize = 0;
    while i < n
        invariant
            n == symbols@.len(),
            i <= n,
            blob@.len() == HEADER_SIZE + 4 * i,
            blob@.subrange(0, 12) == header,
            forall|k: int| 0 <= k < i ==> #[trigger] le32(blob@, 12 + 4 * k) == symbols@[k].1,
        decreases n - i,
    {
        let ghost pre = blob@;
        push_u32_le(&mut blob, symbols[i].1);
        proof {
            assert(blob@.subrange(0, 12) =~= pre.subrange(0, 12));
            assert forall|k: int| 0 <= k < i implies #[trigger] le32(blob@, 12 + 4 * k) == symbols@[k].1 by {
                assert(le32(pre, 12 + 4 * k) == symbols@[k].1);
                assert(blob@[12 + 4 * k] == pre[12 + 4 * k]);
                assert(blob@[12 + 4 * k + 1] == pre[12 + 4 * k + 1]);
                assert(blob@[12 + 4 * k + 2] == pre[12 + 4 * k + 2]);
                assert(blob@[12 + 4 * k + 3] == pre[12 + 4 * k + 3]);
            }
        }
        i = i + 1;
    }
    let ghost addrs = blob@;
    blob.extend_from_slice(name_table.as_slice());
    let ghost with_names = blob@;
    blob.extend_from_slice(token_table.as_slice());
    proof {
        let b = blob@;
        assert(b.subrange(0, addrs.len() as int) =~= addrs);
        assert(b.subrange(0, 12) =~= header);
        assert(b[0] == header[0] && b[1] == header[1] && b[2] == header[2] && b[3] == header[3]);
        assert(b[4] == header[4] && b[5] == header[5] && b[6] == header[6] && b[7] == header[7]);
        assert(b[8] == header[8] && b[9] == header[9] && b[10] == header[10] && b[11] == header[11]);
        assert forall|k: int| 0 <= k < n implies #[trigger] le32(b, 12 + 4 * k) == symbols@[k].1 by {
            assert(le32(addrs, 12 + 4 * k) == symbols@[k].1);
            assert(b[12 + 4 * k] == addrs[12 + 4 * k]);
            assert(b[12 + 4 * k + 1] == addrs[12 + 4 * k + 1]);
            assert(b[12 + 4 * k + 2] == addrs[12 + 4 * k + 2]);
            assert(b[12 + 4 * k + 3] == addrs[12 + 4 * k + 3]);
        }
        assert(b.subrange(name_off as int, name_off + name_table@.len()) =~= name_table@);
        assert(b.subrange(token_off as int, b.len() as int) =~= token_table@);
    }
    blob
}

} // verus!
