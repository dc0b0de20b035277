//! Building the token dictionary from symbol names.
use vstd::prelude::*;
use crate::char_counter::{nonzero_count, CharCounter};
use crate::matcher::{all_matches, kmp_search_all, lemma_all_matches_sound, matches_at};
use crate::char_counter::{freq_precedes, lemma_nonzero_count_le, lemma_nonzero_count_zero};
use crate::coverage::{
    coverable, has_byte_entry, lemma_coverable_bytes, lemma_coverable_extend, lemma_coverable_substitute,
    lemma_pieces_spell, lemma_spells_one, spells,
};
use crate::pack::{has_single_bytes, tokens_of};
use crate::tokenizable::{lemma_discover_tokenizable, lemma_nonempty_of};
use crate::selector::{
    best_token, lemma_strict_is_best, frag_views, greedy_from, guess_best_token, strictly_find_best_token, is_first_max, lemma_byte_count_pos, lemma_total_byte_count_le,
    lemma_total_byte_count_mono, lemma_total_len_mono, total_byte_count, total_len,
};

verus! {

/// The non-empty stretches of `s` around the occurrences `ms` of a token of
/// `tlen` bytes, starting at `last`.
pub open spec fn pieces(s: Seq<u8>, tlen: int, ms: Seq<int>, last: int) -> Seq<Seq<u8>>
    decreases ms.len(),
{
    if ms.len() == 0 {
        if last < s.len() { seq![s.subrange(last, s.len() as int)] } else { Seq::empty() }
    } else {
        (if ms[0] > last { seq![s.subrange(last, ms[0])] } else { Seq::empty() })
            + pieces(s, tlen, ms.drop_first(), ms[0] + tlen)
    }
}

/// `s` with every non-overlapping occurrence of `t` cut out, as the non-empty
/// pieces that remain.
pub open spec fn split_spec(s: Seq<u8>, t: Seq<u8>) -> Seq<Seq<u8>> {
    pieces(s, t.len() as int, all_matches(t, s, 0), 0)
}

pub proof fn lemma_total_len_append(a: Seq<Seq<u8>>, b: Seq<Seq<u8>>)
    ensures
        total_len(a + b, (a + b).len() as int) == total_len(a, a.len() as int) + total_len(b, b.len() as int),
    decreases b.len(),
{
    if b.len() > 0 {
        let l = (a + b).len() as int;
        lemma_total_len_append(a, b.drop_last());
        lemma_total_len_prefix(a + b, a + b.drop_last(), l - 1);
        lemma_total_len_prefix(b, b.drop_last(), b.len() - 1);
        assert((a + b)[l - 1] == b.last());
    } else {
        assert(a + b =~= a);
        assert(total_len(b, 0) == 0);
    }
}

proof fn lemma_total_len_prefix(x: Seq<Seq<u8>>, y: Seq<Seq<u8>>, n: int)
    requires
        0 <= n <= x.len(),
        n <= y.len(),
        forall|k: int| 0 <= k < n ==> x[k] == y[k],
    ensures
        total_len(x, n) == total_len(y, n),
    decreases n,
{
    if n > 0 {
        lemma_total_len_prefix(x, y, n - 1);
    }
}

/// Cuts every non-overlapping occurrence of a non-empty `token` out of `sym`
/// and returns the non-empty pieces around them, in order.
pub fn split_by_token<'a>(sym: &'a [u8], token: &[u8]) -> (r: Vec<&'a [u8]>)
    requires
        token@.len() > 0,
    ensures
        frag_views(r@) == split_spec(sym@, token@),
        forall|k: int| 0 <= k < r@.len() ==> (#[trigger] r@[k])@.len() > 0,
        forall|k: int| 0 <= k < r@.len() ==> exists|a: int, b: int|
            0 <= a < b <= sym@.len() && (#[trigger] r@[k])@ == sym@.subrange(a, b),
        total_len(frag_views(r@), r@.len() as int) <= sym@.len(),
{
    let found = kmp_search_all(token, sym);
    let ghost ms = all_matches(token@, sym@, 0);
    proof {
        lemma_all_matches_sound(token@, sym@, 0);
    }
    assert forall|j: int| 0 <= j < found@.len() implies found@[j] as int == #[trigger] ms[j] by {
        assert(found@.map_values(|i: usize| i as int)[j] == ms[j]);
    }
    let tlen = token.len();
    let slen = sym.len();
    let mut result: Vec<&'a [u8]> = Vec::new();
    let mut last_end: usize = 0;
    let mut j: usize = 0;
    assert(ms.subrange(0, ms.len() as int) =~= ms);
    while j < found.len()
        invariant
            tlen == token@.len(),
            slen == sym@.len(),
            tlen > 0,
            ms == all_matches(token@, sym@, 0),
            found@.len() == ms.len(),
            forall|i: int| 0 <= i < found@.len() ==> found@[i] as int == #[trigger] ms[i],
            forall|i: int| 0 <= i < ms.len() ==> {
                let m = #[trigger] ms[i];
                matches_at(token@, sym@, m) && 0 <= m
            },
            forall|a: int, b: int|
                #![trigger ms[a], ms[b]]
                0 <= a < b < ms.len() ==> ms[a] + token@.len() <= ms[b],
            j <= found@.len(),
            j > 0 ==> last_end == ms[j - 1] + tlen,
            j == 0 ==> last_end == 0,
            last_end <= slen,
            frag_views(result@) + pieces(sym@, tlen as int, ms.subrange(j as int, ms.len() as int), last_end as int)
                == split_spec(sym@, token@),
            forall|k: int| 0 <= k < result@.len() ==> (#[trigger] result@[k])@.len() > 0,
            forall|k: int| 0 <= k < result@.len() ==> exists|a: int, b: int|
                0 <= a < b <= sym@.len() && (#[trigger] result@[k])@ == sym@.subrange(a, b),
            total_len(frag_views(result@), result@.len() as int) <= last_end,
        decreases found@.len() - j,
    {
        let start = found[j];
        assert(start as int == ms[j as int]);
        assert(matches_at(token@, sym@, ms[j as int]));
        if j > 0 {
            assert(ms[j - 1] + token@.len() <= ms[j as int]);
        }
        let ghost rest = ms.subrange(j as int, ms.len() as int);
        assert(rest[0] == ms[j as int]);
        assert(rest.drop_first() =~= ms.subrange(j + 1, ms.len() as int));
        let ghost pre = result@;
        if start > last_end {
            let piece: &'a [u8] = &sym[last_end..start];
            result.push(piece);
            proof {
                assert(frag_views(result@) =~= frag_views(pre) + seq![piece@]);
                assert(frag_views(result@) + pieces(sym@, tlen as int, ms.subrange(j + 1, ms.len() as int), start + tlen)
                    =~= frag_views(pre) + pieces(sym@, tlen as int, rest, last_end as int));
                lemma_total_len_append(frag_views(pre), seq![piece@]);
                assert(total_len(seq![piece@], 1) == piece@.len()) by {
                    assert(total_len(seq![piece@], 0) == 0);
                }
                assert forall|k: int| 0 <= k < result@.len() implies exists|a: int, b: int|
                    0 <= a < b <= sym@.len() && (#[trigger] result@[k])@ == sym@.subrange(a, b) by {
                    if k == pre.len() {
                        assert(result@[k]@ == sym@.subrange(last_end as int, start as int));
                    } else {
                        assert(result@[k] == pre[k]);
                    }
                }
            }
        } else {
            assert(frag_views(result@) + pieces(sym@, tlen as int, ms.subrange(j + 1, ms.len() as int), start + tlen)
                =~= frag_views(pre) + pieces(sym@, tlen as int, rest, last_end as int));
        }
        assert(start + tlen <= slen);
        last_end = start + tlen;
        j = j + 1;
    }
    let ghost pre = result@;
    assert(ms.subrange(j as int, ms.len() as int) =~= Seq::<int>::empty());
    if last_end < slen {
        let piece: &'a [u8] = &sym[last_end..slen];
        result.push(piece);
        proof {
            assert(frag_views(result@) =~= frag_views(pre) + seq![piece@]);
            lemma_total_len_append(frag_views(pre), seq![piece@]);
            assert(total_len(seq![piece@], 1) == piece@.len()) by {
                assert(total_len(seq![piece@], 0) == 0);
            }
            assert forall|k: int| 0 <= k < result@.len() implies exists|a: int, b: int|
                0 <= a < b <= sym@.len() && (#[trigger] result@[k])@ == sym@.subrange(a, b) by {
                if k == pre.len() {
                    assert(result@[k]@ == sym@.subrange(last_end as int, slen as int));
                } else {
                    assert(result@[k] == pre[k]);
                }
            }
        }
    } else {
        assert(frag_views(result@) =~= frag_views(result@) + Seq::<Seq<u8>>::empty());
    }
    result
}

/// A byte found in one of the fragments is counted over all of them.
proof fn lemma_byte_in_frag_counted(frags: Seq<Seq<u8>>, g: int, i: int)
    requires
        0 <= g < frags.len(),
        0 <= i < frags[g].len(),
    ensures
        total_byte_count(frags, frags[g][i], frags.len() as int) > 0,
{
    let c = frags[g][i];
    lemma_byte_count_pos(frags[g], i);
    lemma_total_byte_count_le(frags, c, g);
    lemma_total_byte_count_mono(frags, c, g + 1, frags.len() as int);
}

/// A byte-frequency table over all of `frags`.
fn count_fragments(frags: &Vec<&[u8]>) -> (r: CharCounter)
    requires
        total_len(frag_views(frags@), frags@.len() as int) <= usize::MAX,
    ensures
        r.wf(),
        forall|c: int| 0 <= c < 256 ==>
            #[trigger] r.counts()[c] == total_byte_count(frag_views(frags@), c as u8, frags@.len() as int),
{
    let ghost fr = frag_views(frags@);
    let ghost n = frags@.len() as int;
    let mut counter = CharCounter::new();
    let mut f: usize = 0;
    while f < frags.len()
        invariant
            fr == frag_views(frags@),
            n == frags@.len(),
            total_len(fr, n) <= usize::MAX,
            f <= n,
            counter.wf(),
            forall|c: int| 0 <= c < 256 ==> #[trigger] counter.counts()[c] == total_byte_count(fr, c as u8, f as int),
        decreases n - f,
    {
        let sym: &[u8] = frags[f];
        assert(sym@ == fr[f as int]);
        proof {
            lemma_total_len_mono(fr, f as int, n);
            lemma_total_len_mono(fr, f + 1, n);
            assert forall|c: int| 0 <= c < 256 implies counter.counts()[c] + sym@.len() <= usize::MAX by {
                lemma_total_byte_count_le(fr, c as u8, f as int);
            }
        }
        counter.count_up(sym);
        f = f + 1;
    }
    counter
}

/// The non-empty strings of `names`, in order.
pub open spec fn nonempty_of(names: Seq<Seq<u8>>) -> Seq<Seq<u8>>
    decreases names.len(),
{
    if names.len() == 0 {
        Seq::empty()
    } else {
        nonempty_of(names.drop_last()) + if names.last().len() > 0 { seq![names.last()] } else { Seq::empty() }
    }
}

/// Every fragment with `t` cut out, the pieces in order.
pub open spec fn split_all(frags: Seq<Seq<u8>>, t: Seq<u8>) -> Seq<Seq<u8>>
    decreases frags.len(),
{
    if frags.len() == 0 {
        Seq::empty()
    } else {
        split_all(frags.drop_last(), t) + split_spec(frags.last(), t)
    }
}

/// How many of the byte values below `k` occur in the fragments.
pub open spec fn distinct_bytes(frags: Seq<Seq<u8>>, k: int) -> int
    decreases k,
{
    if k <= 0 {
        0
    } else {
        distinct_bytes(frags, k - 1) + if total_byte_count(frags, (k - 1) as u8, frags.len() as int) > 0 { 1int } else { 0int }
    }
}

/// The token, with its count, that the greedy strategy proposes for `frags`.
pub open spec fn proposal(frags: Seq<Seq<u8>>) -> (Seq<u8>, int) {
    greedy_from(frags, choose|c: u8| is_first_max(frags, c))
}

/// The token, with its count, that the selector `exact` names proposes.
pub open spec fn proposal_by(frags: Seq<Seq<u8>>, exact: bool) -> (Seq<u8>, int) {
    if exact { best_token(frags) } else { proposal(frags) }
}

/// The entries found from the fragments `frags` when `have` entries are there
/// already, and the fragments left: a proposal is taken, and cut out of all
/// fragments, while fewer than 256 entries would be needed to hold it, the
/// entries so far and one per byte value still occurring.
pub open spec fn discover(frags: Seq<Seq<u8>>, have: int, exact: bool) -> (Seq<(Seq<u8>, int)>, Seq<Seq<u8>>)
    decreases 256 - have,
{
    if have >= 256 || distinct_bytes(frags, 256) + have >= 256 || frags.len() == 0 {
        (Seq::empty(), frags)
    } else {
        let p = proposal_by(frags, exact);
        let rest = discover(split_all(frags, p.0), have + 1, exact);
        (seq![p] + rest.0, rest.1)
    }
}

/// `a` comes before `b` in frequency order: higher count first, then smaller byte.
pub open spec fn freq_before(a: (u8, int), b: (u8, int)) -> bool {
    a.1 > b.1 || (a.1 == b.1 && a.0 < b.0)
}

/// `fb` holds one single-byte entry, with its count, for each byte value that
/// occurs in `left`, most frequent first and, among equal counts, smaller
/// byte values first.
pub open spec fn is_fallback(fb: Seq<(Seq<u8>, int)>, left: Seq<Seq<u8>>) -> bool {
    &&& forall|k: int| 0 <= k < fb.len() ==> {
        let e = #[trigger] fb[k];
        e.0.len() == 1 && e.1 > 0 && e.1 == total_byte_count(left, e.0[0], left.len() as int)
    }
    &&& forall|c: u8| total_byte_count(left, c, left.len() as int) > 0 ==>
        exists|k: int| 0 <= k < fb.len() && (#[trigger] fb[k]).0 == seq![c]
    &&& forall|a: int, b: int| 0 <= a < b < fb.len() ==>
        freq_before((fb[a].0[0], fb[a].1), (fb[b].0[0], fb[b].1))
}

/// The dictionary that `make_dic` builds from `names`: the entries found, then
/// the single bytes left over.
pub open spec fn dictionary_of(names: Seq<Seq<u8>>) -> Seq<(Seq<u8>, int)> {
    dictionary_by(names, false)
}

/// The dictionary that `make_dic_exact` builds from `names`.
pub open spec fn dictionary_exact_of(names: Seq<Seq<u8>>) -> Seq<(Seq<u8>, int)> {
    dictionary_by(names, true)
}

/// The dictionary built from `names` with the selector `exact` names.
pub open spec fn dictionary_by(names: Seq<Seq<u8>>, exact: bool) -> Seq<(Seq<u8>, int)> {
    let (found, left) = discover(nonempty_of(names), 0, exact);
    found + choose|fb: Seq<(Seq<u8>, int)>| is_fallback(fb, left)
}

/// Two lists in strictly increasing order with the same elements are equal.
proof fn lemma_sorted_unique(x: Seq<(u8, int)>, y: Seq<(u8, int)>)
    requires
        forall|a: int, b: int| 0 <= a < b < x.len() ==> freq_before(#[trigger] x[a], #[trigger] x[b]),
        forall|a: int, b: int| 0 <= a < b < y.len() ==> freq_before(#[trigger] y[a], #[trigger] y[b]),
        forall|e: (u8, int)| x.contains(e) <==> y.contains(e),
    ensures
        x == y,
    decreases x.len() + y.len(),
{
    if x.len() == 0 {
        if y.len() > 0 {
            assert(y.contains(y[0]));
        }
        assert(x =~= y);
    } else if y.len() == 0 {
        assert(x.contains(x[0]));
    } else {
        assert(x.contains(x[0]));
        assert(y.contains(y[0]));
        let j = choose|j: int| 0 <= j < y.len() && y[j] == x[0];
        let i = choose|i: int| 0 <= i < x.len() && x[i] == y[0];
        if j > 0 {
            assert(freq_before(y[0], y[j]));
            if i > 0 {
                assert(freq_before(x[0], x[i]));
            }
        }
        assert(x[0] == y[0]);
        let xs = x.drop_first();
        let ys = y.drop_first();
        assert forall|e: (u8, int)| xs.contains(e) <==> ys.contains(e) by {
            if xs.contains(e) {
                let a = choose|a: int| 0 <= a < xs.len() && xs[a] == e;
                assert(x[a + 1] == e);
                assert(freq_before(x[0], x[a + 1]));
                assert(y.contains(e));
                let b = choose|b: int| 0 <= b < y.len() && y[b] == e;
                assert(b != 0);
                assert(ys[b - 1] == e);
            }
            if ys.contains(e) {
                let b = choose|b: int| 0 <= b < ys.len() && ys[b] == e;
                assert(y[b + 1] == e);
                assert(freq_before(y[0], y[b + 1]));
                assert(x.contains(e));
                let a = choose|a: int| 0 <= a < x.len() && x[a] == e;
                assert(a != 0);
                assert(xs[a - 1] == e);
            }
        }
        assert forall|a: int, b: int| 0 <= a < b < xs.len() implies freq_before(#[trigger] xs[a], #[trigger] xs[b]) by {
            assert(xs[a] == x[a + 1] && xs[b] == x[b + 1]);
        }
        assert forall|a: int, b: int| 0 <= a < b < ys.len() implies freq_before(#[trigger] ys[a], #[trigger] ys[b]) by {
            assert(ys[a] == y[a + 1] && ys[b] == y[b + 1]);
        }
        lemma_sorted_unique(xs, ys);
        assert(x =~= y) by {
            assert forall|k: int| 0 <= k < x.len() implies x[k] == y[k] by {
                if k > 0 {
                    assert(x[k] == xs[k - 1] && y[k] == ys[k - 1]);
                }
            }
        }
    }
}

/// The byte and count of each single-byte entry.
pub open spec fn fallback_pairs(fb: Seq<(Seq<u8>, int)>) -> Seq<(u8, int)> {
    fb.map_values(|e: (Seq<u8>, int)| (e.0[0], e.1))
}

/// There is one list that `is_fallback` describes.
pub proof fn lemma_fallback_unique(x: Seq<(Seq<u8>, int)>, y: Seq<(Seq<u8>, int)>, left: Seq<Seq<u8>>)
    requires
        is_fallback(x, left),
        is_fallback(y, left),
    ensures
        x == y,
{
    let px = fallback_pairs(x);
    let py = fallback_pairs(y);
    let n = left.len() as int;
    assert forall|a: int, b: int| 0 <= a < b < px.len() implies freq_before(#[trigger] px[a], #[trigger] px[b]) by {
        assert(freq_before((x[a].0[0], x[a].1), (x[b].0[0], x[b].1)));
    }
    assert forall|a: int, b: int| 0 <= a < b < py.len() implies freq_before(#[trigger] py[a], #[trigger] py[b]) by {
        assert(freq_before((y[a].0[0], y[a].1), (y[b].0[0], y[b].1)));
    }
    assert forall|e: (u8, int)| px.contains(e) <==> py.contains(e) by {
        if px.contains(e) {
            let a = choose|a: int| 0 <= a < px.len() && px[a] == e;
            let c = x[a].0[0];
            assert(x[a].1 == total_byte_count(left, c, n));
            let b = choose|b: int| 0 <= b < y.len() && (#[trigger] y[b]).0 == seq![c];
            assert(y[b].0[0] == c);
            assert(py[b] == e);
        }
        if py.contains(e) {
            let b = choose|b: int| 0 <= b < py.len() && py[b] == e;
            let c = y[b].0[0];
            assert(y[b].1 == total_byte_count(left, c, n));
            let a = choose|a: int| 0 <= a < x.len() && (#[trigger] x[a]).0 == seq![c];
            assert(x[a].0[0] == c);
            assert(px[a] == e);
        }
    }
    lemma_sorted_unique(px, py);
    assert(x.len() == px.len() && y.len() == py.len());
    assert forall|k: int| 0 <= k < x.len() implies x[k] == y[k] by {
        assert(px[k] == py[k]);
        assert(px[k] == (x[k].0[0], x[k].1));
        assert(py[k] == (y[k].0[0], y[k].1));
        assert(x[k].0.len() == 1 && y[k].0.len() == 1);
        assert(x[k].0 =~= y[k].0);
    }
    assert(x =~= y);
}

/// Dictionary entries as byte strings with counts.
pub open spec fn dic_pairs(d: Seq<(Vec<u8>, usize)>) -> Seq<(Seq<u8>, int)> {
    d.map_values(|e: (Vec<u8>, usize)| (e.0@, e.1 as int))
}

proof fn lemma_first_max_unique(frags: Seq<Seq<u8>>, c: u8, d: u8)
    requires
        is_first_max(frags, c),
        is_first_max(frags, d),
    ensures
        c == d,
{
    let n = frags.len() as int;
    if c < d {
        assert(total_byte_count(frags, c, n) < total_byte_count(frags, d, n));
        assert(total_byte_count(frags, d, n) <= total_byte_count(frags, c, n));
    } else if d < c {
        assert(total_byte_count(frags, d, n) < total_byte_count(frags, c, n));
        assert(total_byte_count(frags, c, n) <= total_byte_count(frags, d, n));
    }
}

proof fn lemma_distinct_bytes(frags: Seq<Seq<u8>>, t: Seq<usize>, k: int)
    requires
        0 <= k <= 256,
        t.len() == 256,
        forall|c: int| 0 <= c < 256 ==> #[trigger] t[c] == total_byte_count(frags, c as u8, frags.len() as int),
    ensures
        nonzero_count(t, k) == distinct_bytes(frags, k),
    decreases k,
{
    if k > 0 {
        lemma_distinct_bytes(frags, t, k - 1);
        assert(t[k - 1] == total_byte_count(frags, (k - 1) as u8, frags.len() as int));
    }
}

/// The token bytes of dictionary entries.
pub open spec fn dic_views(d: Seq<(Vec<u8>, usize)>) -> Seq<Seq<u8>> {
    d.map_values(|e: (Vec<u8>, usize)| e.0@)
}

/// Builds the dictionary: while fewer than 256 entries would be needed,
/// takes the token that `guess_best_token` proposes for the current fragments
/// (with its count) and cuts it out of all of them; then adds one single-byte
/// entry for each byte value still left, most frequent first.
pub fn make_dic(syms: Vec<&[u8]>) -> (r: Vec<(Vec<u8>, usize)>)
    requires
        total_len(frag_views(syms@), syms@.len() as int) <= usize::MAX,
    ensures
        r@.len() <= 256,
        forall|k: int| 0 <= k < r@.len() ==> (#[trigger] r@[k]).0@.len() > 0,
        syms@.len() == 0 ==> r@.len() == 0,
        forall|i: int| 0 <= i < syms@.len() ==> coverable(dic_views(r@), #[trigger] syms@[i]@),
        forall|i: int| 0 <= i < syms@.len() ==> (#[trigger] tokens_of(dic_views(r@), syms@[i]@)).is_some(),
        dic_pairs(r@) == dictionary_of(frag_views(syms@)),
{
    build_dictionary(syms, false)
}

/// Builds the dictionary as `make_dic` does, but takes each token from
/// `strictly_find_best_token` (the best single token for the current fragments).
pub fn make_dic_exact(syms: Vec<&[u8]>) -> (r: Vec<(Vec<u8>, usize)>)
    requires
        total_len(frag_views(syms@), syms@.len() as int) <= usize::MAX,
    ensures
        r@.len() <= 256,
        forall|k: int| 0 <= k < r@.len() ==> (#[trigger] r@[k]).0@.len() > 0,
        syms@.len() == 0 ==> r@.len() == 0,
        forall|i: int| 0 <= i < syms@.len() ==> coverable(dic_views(r@), #[trigger] syms@[i]@),
        forall|i: int| 0 <= i < syms@.len() ==> (#[trigger] tokens_of(dic_views(r@), syms@[i]@)).is_some(),
        dic_pairs(r@) == dictionary_exact_of(frag_views(syms@)),
{
    build_dictionary(syms, true)
}

/// The dictionary build, with the token taken from the exact selector where
/// `exact`, else from the greedy one.
fn build_dictionary(syms: Vec<&[u8]>, exact: bool) -> (r: Vec<(Vec<u8>, usize)>)
    requires
        total_len(frag_views(syms@), syms@.len() as int) <= usize::MAX,
    ensures
        r@.len() <= 256,
        forall|k: int| 0 <= k < r@.len() ==> (#[trigger] r@[k]).0@.len() > 0,
        syms@.len() == 0 ==> r@.len() == 0,
        forall|i: int| 0 <= i < syms@.len() ==> coverable(dic_views(r@), #[trigger] syms@[i]@),
        forall|i: int| 0 <= i < syms@.len() ==> (#[trigger] tokens_of(dic_views(r@), syms@[i]@)).is_some(),
        dic_pairs(r@) == dictionary_by(frag_views(syms@), exact),
{
    let ghost names = frag_views(syms@);
    let ghost bound = total_len(frag_views(syms@), syms@.len() as int);
    let mut frags: Vec<&[u8]> = Vec::new();
    let mut i: usize = 0;
    while i < syms.len()
        invariant
            bound == total_len(frag_views(syms@), syms@.len() as int),
            bound <= usize::MAX,
            i <= syms@.len(),
            syms@.len() == 0 ==> frags@.len() == 0,
            names == frag_views(syms@),
            forall|k: int| 0 <= k < i ==> (#[trigger] names[k]).len() == 0
                || exists|j: int| 0 <= j < frags@.len() && frags@[j]@ == names[k],
            total_len(frag_views(frags@), frags@.len() as int) <= total_len(frag_views(syms@), i as int),
            forall|k: int| 0 <= k < frags@.len() ==> (#[trigger] frags@[k])@.len() > 0,
            frag_views(frags@) == nonempty_of(names.subrange(0, i as int)),
        decreases syms@.len() - i,
    {
        proof {
            lemma_total_len_mono(frag_views(syms@), i as int, i + 1);
            assert(names.subrange(0, i + 1).drop_last() =~= names.subrange(0, i as int));
            assert(names.subrange(0, i + 1).last() == names[i as int]);
            assert(names[i as int] == syms@[i as int]@);
        }
        let ghost before = frags@;
        if syms[i].len() > 0 {
            let ghost pre = frags@;
            frags.push(syms[i]);
            proof {
                assert forall|k: int| 0 <= k < i + 1 implies (#[trigger] names[k]).len() == 0
                    || exists|j: int| 0 <= j < frags@.len() && frags@[j]@ == names[k] by {
                    if k < i && names[k].len() > 0 {
                        let j = choose|j: int| 0 <= j < pre.len() && pre[j]@ == names[k];
                        assert(frags@[j] == pre[j]);
                    }
                    if k == i {
                        assert(frags@[pre.len() as int]@ == names[k]);
                    }
                }
                assert(frag_views(frags@) =~= frag_views(pre) + seq![syms@[i as int]@]);
                lemma_total_len_append(frag_views(pre), seq![syms@[i as int]@]);
                assert(total_len(seq![syms@[i as int]@], 0) == 0);
            }
        }
        proof {
            if syms@[i as int]@.len() > 0 {
                assert(frag_views(frags@) =~= frag_views(before) + seq![names[i as int]]);
            } else {
                assert(frag_views(frags@) =~= frag_views(before) + Seq::<Seq<u8>>::empty());
            }
        }
        i = i + 1;
    }
    proof {
        lemma_total_len_mono(frag_views(syms@), syms@.len() as int, syms@.len() as int);
        assert(names.subrange(0, syms@.len() as int) =~= names);
    }
    let ghost start = frag_views(frags@);
    let mut chars = count_fragments(&frags);
    let mut dic: Vec<(Vec<u8>, usize)> = Vec::new();
    proof {
        assert forall|k: int| 0 <= k < syms@.len() implies
            coverable(dic_views(dic@) + frag_views(frags@), #[trigger] names[k]) by {
            let alpha = dic_views(dic@) + frag_views(frags@);
            if names[k].len() == 0 {
                assert(names[k] =~= Seq::<u8>::empty());
                assert(crate::coverage::concat_ids(alpha, Seq::<int>::empty()) =~= Seq::<u8>::empty());
                assert(spells(alpha, Seq::<int>::empty(), names[k]));
            } else {
                let j = choose|j: int| 0 <= j < frags@.len() && frags@[j]@ == names[k];
                assert(alpha[j] == frags@[j]@);
                lemma_spells_one(alpha, j);
            }
        }
        lemma_nonzero_count_le(chars.counts(), chars.counts(), 256);
        if syms@.len() == 0 {
            assert forall|c: int| 0 <= c < 256 implies #[trigger] chars.counts()[c] == 0 by {
                assert(total_byte_count(frag_views(frags@), c as u8, 0) == 0);
            }
            lemma_nonzero_count_zero(chars.counts(), 256);
        }
    }
    while chars.len() + dic.len() < 256 && frags.len() > 0
        invariant
            total_len(frag_views(frags@), frags@.len() as int) <= bound,
            bound <= usize::MAX,
            forall|k: int| 0 <= k < frags@.len() ==> (#[trigger] frags@[k])@.len() > 0,
            chars.wf(),
            forall|c: int| 0 <= c < 256 ==>
                #[trigger] chars.counts()[c] == total_byte_count(frag_views(frags@), c as u8, frags@.len() as int),
            nonzero_count(chars.counts(), 256) + dic@.len() <= 256,
            forall|k: int| 0 <= k < dic@.len() ==> (#[trigger] dic@[k]).0@.len() > 0,
            syms@.len() == 0 ==> frags@.len() == 0 && dic@.len() == 0 && nonzero_count(chars.counts(), 256) == 0,
            names == frag_views(syms@),
            forall|k: int| 0 <= k < syms@.len() ==>
                coverable(dic_views(dic@) + frag_views(frags@), #[trigger] names[k]),
            start == nonempty_of(frag_views(syms@)),
            discover(start, 0, exact).0 == dic_pairs(dic@) + discover(frag_views(frags@), dic@.len() as int, exact).0,
            discover(start, 0, exact).1 == discover(frag_views(frags@), dic@.len() as int, exact).1,
        decreases 256 - dic@.len(),
    {
        let ghost fr = frag_views(frags@);
        proof {
            chars.lemma_counts_len();
            lemma_distinct_bytes(fr, chars.counts(), 256);
        }
        assert(frags@[0]@.len() > 0);
        let (token, score) = if exact {
            let (t, c) = strictly_find_best_token(frags.as_slice());
            proof {
                lemma_strict_is_best(frags@, t@, c as int);
            }
            (vstd::slice::slice_to_vec(t), c)
        } else {
            guess_best_token(frags.as_slice())
        };
        assert(token@.len() > 0);
        proof {
            if exact {
                assert(proposal_by(fr, exact) == (token@, score as int));
            } else {
                let c = choose|c: u8| is_first_max(fr, c) && (token@, score as int) == greedy_from(fr, c);
                let c2 = choose|c2: u8| is_first_max(fr, c2);
                lemma_first_max_unique(fr, c, c2);
                assert(proposal(fr) == (token@, score as int));
                assert(proposal_by(fr, exact) == (token@, score as int));
            }
        }
        let ghost grown = dic_views(dic@).push(token@);
        let mut newfrags: Vec<&[u8]> = Vec::new();
        let mut f: usize = 0;
        while f < frags.len()
            invariant
                fr == frag_views(frags@),
                token@.len() > 0,
                f <= frags@.len(),
                total_len(frag_views(newfrags@), newfrags@.len() as int) <= total_len(fr, f as int),
                forall|k: int| 0 <= k < newfrags@.len() ==> (#[trigger] newfrags@[k])@.len() > 0,
                forall|k: int| 0 <= k < newfrags@.len() ==> exists|g: int, a: int, b: int|
                    0 <= g < f && 0 <= a < b <= fr[g].len() && (#[trigger] newfrags@[k])@ == fr[g].subrange(a, b),
                grown.len() > 0,
                grown[grown.len() - 1] == token@,
                forall|g: int| 0 <= g < f ==> coverable(grown + frag_views(newfrags@), #[trigger] fr[g]),
                frag_views(newfrags@) == split_all(fr.subrange(0, f as int), token@),
            decreases frags@.len() - f,
        {
            let sym: &[u8] = frags[f];
            assert(sym@ == fr[f as int]);
            let mut cut = split_by_token(sym, token.as_slice());
            let ghost pre = newfrags@;
            let ghost cutv = cut@;
            newfrags.append(&mut cut);
            proof {
                assert(newfrags@ =~= pre + cutv);
                assert(frag_views(newfrags@) =~= frag_views(pre) + frag_views(cutv));
                let alpha = grown + frag_views(newfrags@);
                assert(alpha =~= (grown + frag_views(pre)) + frag_views(cutv));
                assert forall|g: int| 0 <= g < f implies coverable(alpha, #[trigger] fr[g]) by {
                    lemma_coverable_extend(grown + frag_views(pre), frag_views(cutv), fr[g]);
                }
                let ms = all_matches(token@, sym@, 0);
                lemma_all_matches_sound(token@, sym@, 0);
                let first = (grown.len() + pre.len()) as int;
                assert forall|k: int| 0 <= k < pieces(sym@, token@.len() as int, ms, 0).len() implies
                    alpha[first + k] == #[trigger] pieces(sym@, token@.len() as int, ms, 0)[k] by {
                    assert(frag_views(cutv)[k] == split_spec(sym@, token@)[k]);
                }
                lemma_pieces_spell(alpha, sym@, token@, ms, 0, first, grown.len() - 1);
                assert(sym@.subrange(0, sym@.len() as int) =~= sym@);
                assert(fr.subrange(0, f + 1).drop_last() =~= fr.subrange(0, f as int));
                assert(fr.subrange(0, f + 1).last() == sym@);
                lemma_total_len_append(frag_views(pre), frag_views(cutv));
                lemma_total_len_mono(fr, f as int, f + 1);
                assert forall|k: int| 0 <= k < newfrags@.len() implies exists|g: int, a: int, b: int|
                    0 <= g < f + 1 && 0 <= a < b <= fr[g].len() && (#[trigger] newfrags@[k])@ == fr[g].subrange(a, b) by {
                    if k < pre.len() {
                        assert(newfrags@[k] == pre[k]);
                    } else {
                        assert(newfrags@[k] == cutv[k - pre.len()]);
                    }
                }
                assert forall|k: int| 0 <= k < newfrags@.len() implies (#[trigger] newfrags@[k])@.len() > 0 by {
                    if k < pre.len() {
                        assert(newfrags@[k] == pre[k]);
                    } else {
                        assert(newfrags@[k] == cutv[k - pre.len()]);
                    }
                }
            }
            f = f + 1;
        }
        let newchars = count_fragments(&newfrags);
        proof {
            let nf = frag_views(newfrags@);
            assert forall|c: int| 0 <= c < 256 && #[trigger] newchars.counts()[c] > 0 implies chars.counts()[c] > 0 by {
                {
                    lemma_total_byte_count_le(nf, c as u8, nf.len() as int);
                    let (k, p) = choose|k: int, p: int| 0 <= k < nf.len() && 0 <= p < nf[k].len() && #[trigger] nf[k][p] == c as u8;
                    assert(nf[k] == newfrags@[k]@);
                    let (g, a, b) = choose|g: int, a: int, b: int|
                        0 <= g < frags@.len() && 0 <= a < b <= fr[g].len() && newfrags@[k]@ == fr[g].subrange(a, b);
                    assert(fr[g][a + p] == c as u8);
                    lemma_byte_in_frag_counted(fr, g, a + p);
                }
            }
            lemma_nonzero_count_le(newchars.counts(), chars.counts(), 256);
            let old_alpha = dic_views(dic@) + fr;
            let new_alpha = grown + frag_views(newfrags@);
            assert forall|k: int| 0 <= k < old_alpha.len() implies coverable(new_alpha, #[trigger] old_alpha[k]) by {
                if k < dic@.len() {
                    assert(new_alpha[k] == old_alpha[k]);
                    lemma_spells_one(new_alpha, k);
                } else {
                    assert(old_alpha[k] == fr[k - dic@.len()]);
                }
            }
            assert forall|k: int| 0 <= k < syms@.len() implies coverable(new_alpha, #[trigger] names[k]) by {
                lemma_coverable_substitute(old_alpha, new_alpha, names[k]);
            }
        }
        let ghost dic_before = dic@;
        proof {
            assert(fr.subrange(0, fr.len() as int) =~= fr);
            assert(discover(fr, dic_before.len() as int, exact) == (seq![(token@, score as int)]
                + discover(split_all(fr, token@), (dic_before.len() + 1) as int, exact).0,
                discover(split_all(fr, token@), (dic_before.len() + 1) as int, exact).1));
        }
        dic.push((token, score));
        assert(dic_views(dic@) =~= dic_views(dic_before).push(token@));
        assert(dic_pairs(dic@) =~= dic_pairs(dic_before).push((token@, score as int)));
        frags = newfrags;
        chars = newchars;
        proof {
            assert(discover(start, 0, exact).0 =~= dic_pairs(dic@) + discover(frag_views(frags@), dic@.len() as int, exact).0);
        }
    }
    proof {
        chars.lemma_counts_len();
        lemma_distinct_bytes(frag_views(frags@), chars.counts(), 256);
        assert(discover(frag_views(frags@), dic@.len() as int, exact) == (Seq::<(Seq<u8>, int)>::empty(), frag_views(frags@)));
        assert(discover(start, 0, exact).0 =~= dic_pairs(dic@));
    }
    let by_freq = chars.iter_by_freq();
    let ghost built = dic@;
    let mut k: usize = 0;
    while k < by_freq.len()
        invariant
            dic@.len() + by_freq@.len() - k <= 256,
            k <= by_freq@.len(),
            syms@.len() == 0 ==> dic@.len() == 0 && by_freq@.len() == 0,
            forall|m: int| 0 <= m < dic@.len() ==> (#[trigger] dic@[m]).0@.len() > 0,
            dic@.len() == built.len() + k,
            forall|m: int| 0 <= m < built.len() ==> dic@[m] == built[m],
            forall|m: int| 0 <= m < k ==> dic@[built.len() + m].0@ == seq![(#[trigger] by_freq@[m]).0]
                && dic@[built.len() + m].1 == by_freq@[m].1,
        decreases by_freq@.len() - k,
    {
        let (c, n) = by_freq[k];
        let ghost pre = dic@;
        let single = vec![c];
        assert(single@ == seq![c]);
        dic.push((single, n));
        proof {
            assert(dic@[built.len() + k].0@ == seq![c]) by {
                assert(dic@[pre.len() as int].0 == single);
            }
            assert forall|m: int| 0 <= m < k + 1 implies dic@[built.len() + m].0@ == seq![(#[trigger] by_freq@[m]).0]
                && dic@[built.len() + m].1 == by_freq@[m].1 by {
                if m < k {
                    assert(dic@[built.len() + m] == pre[built.len() + m]);
                }
            }
        }
        k = k + 1;
    }
    proof {
        let fv = frag_views(frags@);
        let alpha = dic_views(built) + fv;
        let fin = dic_views(dic@);
        assert forall|g: int| 0 <= g < alpha.len() implies coverable(fin, #[trigger] alpha[g]) by {
            if g < built.len() {
                assert(fin[g] == alpha[g]);
                lemma_spells_one(fin, g);
            } else {
                let f = fv[g - built.len()];
                assert(alpha[g] == f);
                assert forall|i: int| 0 <= i < f.len() implies has_byte_entry(fin, #[trigger] f[i]) by {
                    let c = f[i];
                    lemma_byte_in_frag_counted(fv, g - built.len(), i);
                    assert(chars.counts()[c as int] == total_byte_count(fv, c, fv.len() as int));
                    let m = choose|m: int| 0 <= m < by_freq@.len() && (#[trigger] by_freq@[m]).0 == c;
                    assert(fin[built.len() + m] == dic@[built.len() + m].0@);
                }
                lemma_coverable_bytes(fin, f);
            }
        }
        assert forall|i: int| 0 <= i < syms@.len() implies coverable(dic_views(dic@), #[trigger] syms@[i]@) by {
            assert(names[i] == syms@[i]@);
            lemma_coverable_substitute(alpha, fin, names[i]);
        }
        let found = discover(start, 0, exact).0;
        let left = discover(start, 0, exact).1;
        assert(left == fv);
        assert(found == dic_pairs(built));
        chars.lemma_counts_len();
        lemma_distinct_bytes(fv, chars.counts(), 256);
        assert(dic_pairs(dic@).subrange(0, found.len() as int) =~= found);
        assert forall|k: int| found.len() <= k < dic@.len() implies {
            let e = #[trigger] dic@[k];
            e.0@.len() == 1 && e.1 > 0 && e.1 == total_byte_count(left, e.0@[0], left.len() as int)
        } by {
            let m = k - built.len();
            assert(dic@[built.len() + m].0@ == seq![by_freq@[m].0]);
            assert(chars.counts()[by_freq@[m].0 as int] == total_byte_count(fv, by_freq@[m].0, fv.len() as int));
        }
        assert forall|c: u8| total_byte_count(left, c, left.len() as int) > 0 implies
            exists|k: int| found.len() <= k < dic@.len() && (#[trigger] dic@[k]).0@ == seq![c] by {
            assert(chars.counts()[c as int] == total_byte_count(fv, c, fv.len() as int));
            let m = choose|m: int| 0 <= m < by_freq@.len() && (#[trigger] by_freq@[m]).0 == c;
            assert(dic@[built.len() + m].0@ == seq![c]);
        }
        assert forall|a: int, b: int| found.len() <= a < b < dic@.len() implies
            freq_precedes((dic@[a].0@[0], dic@[a].1), (dic@[b].0@[0], dic@[b].1)) by {
            let ma = a - built.len();
            let mb = b - built.len();
            assert(dic@[built.len() + ma].0@ == seq![by_freq@[ma].0]);
            assert(dic@[built.len() + mb].0@ == seq![by_freq@[mb].0]);
            assert(freq_precedes(by_freq@[ma], by_freq@[mb]));
        }
        lemma_nonempty_of(names);
        assert forall|m: int| 0 <= m < left.len() implies has_single_bytes(fin, #[trigger] left[m]) by {
            let f = left[m];
            assert forall|i: int| 0 <= i < f.len() implies
                exists|k2: int| 0 <= k2 < fin.len() && fin[k2] == seq![#[trigger] f[i]] by {
                lemma_byte_in_frag_counted(left, m, i);
                let kk = choose|kk: int| found.len() <= kk < dic@.len() && (#[trigger] dic@[kk]).0@ == seq![f[i]];
                assert(fin[kk] == dic@[kk].0@);
            }
        }
        assert forall|i: int| 0 <= i < found.len() implies fin[0 + i] == (#[trigger] found[i]).0 by {
            assert(dic_pairs(dic@).subrange(0, found.len() as int)[i] == found[i]);
        }
        assert forall|i: int| 0 <= i < fin.len() implies (#[trigger] fin[i]).len() > 0 by {}
        lemma_discover_tokenizable(fin, 0, start, 0, exact);
        let fb = dic_pairs(dic@).subrange(found.len() as int, dic@.len() as int);
        assert forall|k: int| 0 <= k < fb.len() implies {
            let e = #[trigger] fb[k];
            e.0.len() == 1 && e.1 > 0 && e.1 == total_byte_count(left, e.0[0], left.len() as int)
        } by {
            assert(fb[k] == (dic@[found.len() + k].0@, dic@[found.len() + k].1 as int));
            let e = dic@[found.len() + k];
            assert(e.0@.len() == 1 && e.1 > 0 && e.1 == total_byte_count(left, e.0@[0], left.len() as int));
        }
        assert forall|c: u8| total_byte_count(left, c, left.len() as int) > 0 implies
            exists|k: int| 0 <= k < fb.len() && (#[trigger] fb[k]).0 == seq![c] by {
            let kk = choose|kk: int| found.len() <= kk < dic@.len() && (#[trigger] dic@[kk]).0@ == seq![c];
            assert(fb[kk - found.len()].0 == dic@[kk].0@);
        }
        assert forall|a: int, b: int| 0 <= a < b < fb.len() implies
            freq_before((fb[a].0[0], fb[a].1), (fb[b].0[0], fb[b].1)) by {
            let ea = dic@[found.len() + a];
            let eb = dic@[found.len() + b];
            assert(fb[a] == (ea.0@, ea.1 as int));
            assert(fb[b] == (eb.0@, eb.1 as int));
            assert(freq_precedes((ea.0@[0], ea.1), (eb.0@[0], eb.1)));
        }
        assert(is_fallback(fb, left));
        let other = choose|other: Seq<(Seq<u8>, int)>| is_fallback(other, left);
        lemma_fallback_unique(fb, other, left);
        assert(names == frag_views(syms@));
        assert(dic_pairs(dic@) =~= found + fb);
        assert forall|i: int| 0 <= i < syms@.len() implies (#[trigger] tokens_of(fin, syms@[i]@)).is_some() by {
            assert(names[i] == syms@[i]@);
            if names[i].len() > 0 {
                let j = choose|j: int| 0 <= j < start.len() && start[j] == names[i];
                assert(tokens_of(fin, start[j]).is_some());
            }
        }
    }
    dic
}

} // verus!
