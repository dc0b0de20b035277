//! Choosing the next dictionary token from the current fragments.
use vstd::prelude::*;
use crate::char_counter::{byte_count, lemma_byte_count_le, CharCounter};
use crate::matcher::{all_matches, kmp_search_all, lemma_all_matches_len, lemma_all_matches_sound, matches_at};

verus! {

/// The byte strings a slice of fragments holds.
pub open spec fn frag_views(s: Seq<&[u8]>) -> Seq<Seq<u8>> {
    s.map_values(|x: &[u8]| x@)
}

/// The total length of the first `n` fragments.
pub open spec fn total_len(frags: Seq<Seq<u8>>, n: int) -> int
    decreases n,
{
    if n <= 0 { 0 } else { total_len(frags, n - 1) + frags[n - 1].len() }
}

/// How many times byte `c` occurs over the first `n` fragments.
pub open spec fn total_byte_count(frags: Seq<Seq<u8>>, c: u8, n: int) -> int
    decreases n,
{
    if n <= 0 { 0 } else { total_byte_count(frags, c, n - 1) + byte_count(frags[n - 1], c) }
}

/// `t` occurs in one of the fragments.
pub open spec fn occurs(frags: Seq<Seq<u8>>, t: Seq<u8>) -> bool {
    exists|f: int, i: int| 0 <= f < frags.len() && #[trigger] matches_at(t, frags[f], i)
}

/// What storing a token of `len` bytes once and referring to it `count` times
/// saves over spelling it out each time: a length byte, the bytes, and one
/// reference byte per use are paid, `len * count` bytes are saved.
pub open spec fn token_score(len: int, count: int) -> int {
    len * count - (1 + len + count)
}

pub proof fn lemma_total_len_mono(frags: Seq<Seq<u8>>, a: int, b: int)
    requires
        0 <= a <= b <= frags.len(),
    ensures
        total_len(frags, a) <= total_len(frags, b),
        a < b ==> total_len(frags, a) + frags[a].len() <= total_len(frags, b),
    decreases b - a,
{
    if a < b {
        lemma_total_len_mono(frags, a, b - 1);
        lemma_total_len_mono(frags, a + 1, b);
    }
}

/// `token_score` shifted by 2^65, so that it is never negative.
fn calc_score(len: usize, count: usize) -> (r: u128)
    ensures
        r as int == 0x2_0000_0000_0000_0000 + token_score(len as int, count as int),
{
    if len == 0 || count == 0 {
        assert((len as int) * (count as int) == 0) by (nonlinear_arith)
            requires
                len == 0 || count == 0,
        {
        }
        return 0x2_0000_0000_0000_0000 - (1 + len as u128 + count as u128);
    }
    assert((len as int) * (count as int) <= 0xFFFF_FFFF_FFFF_FFFE_0000_0000_0000_0001) by (nonlinear_arith)
        requires
            len <= 0xFFFF_FFFF_FFFF_FFFF,
            count <= 0xFFFF_FFFF_FFFF_FFFF,
    {
    }
    let plain: u128 = (len as u128) * (count as u128);
    let compressed: u128 = 1 + len as u128 + count as u128;
    plain + (0x2_0000_0000_0000_0000 - compressed)
}

/// The part of `sym` where an occurrence leaves room for one more byte on the
/// side that `right` names.
pub open spec fn room(sym: Seq<u8>, right: bool) -> Seq<u8> {
    if right { sym.subrange(0, sym.len() - 1) } else { sym.subrange(1, sym.len() as int) }
}

/// The byte beside the occurrence of `t` at offset `m` of `room(sym, right)`.
pub open spec fn adjacent(sym: Seq<u8>, t: Seq<u8>, m: int, right: bool) -> u8 {
    if right { sym[m + t.len()] } else { sym[m] }
}

/// How many of the occurrences `ms` have byte `c` beside them.
pub open spec fn count_adjacent(sym: Seq<u8>, t: Seq<u8>, ms: Seq<int>, c: u8, right: bool) -> int
    decreases ms.len(),
{
    if ms.len() == 0 {
        0
    } else {
        count_adjacent(sym, t, ms.drop_last(), c, right) + if adjacent(sym, t, ms.last(), right) == c { 1int } else { 0int }
    }
}

/// Over the first `n` fragments, how many occurrences of `t` with room on the
/// side `right` have byte `c` there.
pub open spec fn ext_count(frags: Seq<Seq<u8>>, t: Seq<u8>, c: u8, right: bool, n: int) -> int
    decreases n,
{
    if n <= 0 {
        0
    } else {
        ext_count(frags, t, c, right, n - 1)
            + count_adjacent(frags[n - 1], t, all_matches(t, room(frags[n - 1], right), 0), c, right)
    }
}

/// The smallest byte value below `k` with the highest `ext_count`, with that count.
pub open spec fn best_byte(frags: Seq<Seq<u8>>, t: Seq<u8>, right: bool, k: int) -> (int, int)
    decreases k,
{
    if k <= 1 {
        (0, ext_count(frags, t, 0, right, frags.len() as int))
    } else {
        let prev = best_byte(frags, t, right, k - 1);
        let here = ext_count(frags, t, (k - 1) as u8, right, frags.len() as int);
        if here > prev.1 { (k - 1, here) } else { prev }
    }
}

/// `t` grown by byte `c` on the side that `right` names.
pub open spec fn grow(t: Seq<u8>, c: u8, right: bool) -> Seq<u8> {
    if right { t.push(c) } else { seq![c] + t }
}

/// The tokens, with their counts, that growing `t` one byte at a time passes
/// through: each time by the byte that the most occurrences have on that
/// side, until no occurrence has room left.
pub open spec fn chain(frags: Seq<Seq<u8>>, t: Seq<u8>, count: int, right: bool, bound: int) -> Seq<(Seq<u8>, int)>
    decreases bound - t.len(),
{
    if t.len() >= bound {
        seq![(t, count)]
    } else {
        let (b, cnt) = best_byte(frags, t, right, 256);
        if cnt == 0 {
            seq![(t, count)]
        } else {
            seq![(t, count)] + chain(frags, grow(t, b as u8, right), cnt, right, bound)
        }
    }
}

/// The index of the last of the first `k` candidates with the highest score.
pub open spec fn last_best(ch: Seq<(Seq<u8>, int)>, k: int) -> int
    decreases k,
{
    if k <= 1 {
        0
    } else {
        let prev = last_best(ch, k - 1);
        if token_score(ch[k - 1].0.len() as int, ch[k - 1].1) >= token_score(ch[prev].0.len() as int, ch[prev].1) {
            k - 1
        } else {
            prev
        }
    }
}

/// The candidate that growing settles on: the last with the highest score.
pub open spec fn pick(ch: Seq<(Seq<u8>, int)>) -> (Seq<u8>, int) {
    ch[last_best(ch, ch.len() as int)]
}

/// `c` is the smallest of the most frequent bytes over all fragments.
pub open spec fn is_first_max(frags: Seq<Seq<u8>>, c: u8) -> bool {
    let n = frags.len() as int;
    &&& total_byte_count(frags, c, n) > 0
    &&& forall|d: u8| #[trigger] total_byte_count(frags, d, n) <= total_byte_count(frags, c, n)
    &&& forall|d: u8| d < c ==> #[trigger] total_byte_count(frags, d, n) < total_byte_count(frags, c, n)
}

/// What the greedy strategy makes of seed byte `c`: grown to the left, then
/// the result grown to the right.
pub open spec fn greedy_from(frags: Seq<Seq<u8>>, c: u8) -> (Seq<u8>, int) {
    let total = total_len(frags, frags.len() as int);
    let left = pick(chain(frags, seq![c], total_byte_count(frags, c, frags.len() as int), false, total));
    pick(chain(frags, left.0, left.1, true, total))
}

/// Occurrences of `token` in `sym`, bounded on the right or on the left by
/// one byte, so that each can be grown by one byte on that side.
fn positions_with_room(sym: &[u8], token: &[u8], right: bool) -> (r: Vec<usize>)
    requires
        sym@.len() > 0,
        token@.len() > 0,
    ensures
        r@.map_values(|i: usize| i as int) == all_matches(token@, room(sym@, right), 0),
        r@.len() <= sym@.len(),
        forall|k: int| 0 <= k < r@.len() ==> #[trigger] r@[k] + token@.len() + 1 <= sym@.len()
            && if right {
                sym@.subrange(r@[k] as int, r@[k] + token@.len()) == token@
            } else {
                sym@.subrange(r@[k] + 1, r@[k] + 1 + token@.len()) == token@
            },
{
    let subject: &[u8] = if right { &sym[0..sym.len() - 1] } else { &sym[1..sym.len()] };
    assert(subject@ == room(sym@, right));
    let found = kmp_search_all(token, subject);
    proof {
        lemma_all_matches_sound(token@, subject@, 0);
        lemma_all_matches_len(token@, subject@, 0);
        assert forall|k: int| 0 <= k < found@.len() implies #[trigger] found@[k] + token@.len() + 1 <= sym@.len()
            && if right {
                sym@.subrange(found@[k] as int, found@[k] + token@.len()) == token@
            } else {
                sym@.subrange(found@[k] + 1, found@[k] + 1 + token@.len()) == token@
            } by {
            let m = all_matches(token@, subject@, 0)[k];
            assert(found@.map_values(|i: usize| i as int)[k] == m);
            assert(matches_at(token@, subject@, m));
            if right {
                assert(sym@.subrange(m, m + token@.len()) =~= subject@.subrange(m, m + token@.len()));
            } else {
                assert(sym@.subrange(m + 1, m + 1 + token@.len()) =~= subject@.subrange(m, m + token@.len()));
            }
        }
    }
    found
}

/// Grows `token` one byte at a time on one side, each time by the byte that
/// most occurrences share there (see `chain`), and returns the last of the
/// best-scoring tokens seen, with its count.
fn enlarge<'a>(symbols: &'a [&'a [u8]], token: &'a [u8], count: usize, right: bool) -> (r: (&'a [u8], usize))
    requires
        token@.len() > 0,
        occurs(frag_views(symbols@), token@),
        forall|f: int| 0 <= f < symbols@.len() ==> (#[trigger] symbols@[f])@.len() > 0,
        total_len(frag_views(symbols@), symbols@.len() as int) <= usize::MAX,
    ensures
        (r.0@, r.1 as int) == pick(chain(frag_views(symbols@), token@, count as int, right,
            total_len(frag_views(symbols@), symbols@.len() as int))),
        r.0@.len() >= token@.len(),
        occurs(frag_views(symbols@), r.0@),
        token_score(r.0@.len() as int, r.1 as int) >= token_score(token@.len() as int, count as int),
{
    let ghost frags = frag_views(symbols@);
    let ghost total = total_len(frags, symbols@.len() as int);
    let ghost nf = symbols@.len() as int;
    let mut scores: Vec<(&'a [u8], usize, u128)> = Vec::new();
    scores.push((token, count, calc_score(token.len(), count)));
    let ghost orig = token@;
    let ghost whole = chain(frags, orig, count as int, right, total);
    let mut token: &'a [u8] = token;
    let mut cur: usize = count;
    proof {
        let (f, i) = choose|f: int, i: int| 0 <= f < frags.len() && #[trigger] matches_at(token@, frags[f], i);
        lemma_total_len_mono(frags, f, frags.len() as int);
        lemma_total_len_mono(frags, 0, f);
        assert(scores@.map_values(|e: (&[u8], usize, u128)| (e.0@, e.1 as int)).drop_last() =~= Seq::empty());
        assert(whole =~= Seq::empty() + chain(frags, token@, cur as int, right, total));
    }
    loop
        invariant
            frags == frag_views(symbols@),
            nf == symbols@.len(),
            total == total_len(frags, nf),
            total <= usize::MAX,
            whole == chain(frags, orig, count as int, right, total),
            forall|f: int| 0 <= f < symbols@.len() ==> (#[trigger] symbols@[f])@.len() > 0,
            token@.len() > 0,
            token@.len() <= total,
            occurs(frags, token@),
            scores@.len() > 0,
            scores@[0].0@ == orig,
            scores@[0].1 == count,
            scores@[0].0@.len() <= token@.len(),
            scores@.last().0@ == token@,
            scores@.last().1 == cur,
            whole == scores@.map_values(|e: (&[u8], usize, u128)| (e.0@, e.1 as int)).drop_last()
                + chain(frags, token@, cur as int, right, total),
            forall|k: int| 0 <= k < scores@.len() ==> {
                let e = #[trigger] scores@[k];
                e.0@.len() >= scores@[0].0@.len() && occurs(frags, e.0@)
                    && e.2 as int == 0x2_0000_0000_0000_0000 + token_score(e.0@.len() as int, e.1 as int)
            },
        ensures
            scores@.len() > 0,
            scores@[0].0@ == orig,
            scores@[0].1 == count,
            whole == scores@.map_values(|e: (&[u8], usize, u128)| (e.0@, e.1 as int)),
            forall|k: int| 0 <= k < scores@.len() ==> {
                let e = #[trigger] scores@[k];
                e.0@.len() >= scores@[0].0@.len() && occurs(frags, e.0@)
                    && e.2 as int == 0x2_0000_0000_0000_0000 + token_score(e.0@.len() as int, e.1 as int)
            },
        decreases total - token@.len(),
    {
        let mut tbl: Vec<(usize, usize, usize)> = Vec::new();
        let mut c: usize = 0;
        while c < 256
            invariant
                c <= 256,
                tbl@.len() == c,
                forall|k: int| 0 <= k < c ==> (#[trigger] tbl@[k]).2 == 0,
            decreases 256 - c,
        {
            tbl.push((0, 0, 0));
            c = c + 1;
        }
        let ghost t = token@;
        let ghost tlen = token@.len();
        let mut seen: usize = 0;
        let mut f: usize = 0;
        while f < symbols.len()
            invariant
                frags == frag_views(symbols@),
                total == total_len(frags, symbols@.len() as int),
                total <= usize::MAX,
                forall|f: int| 0 <= f < symbols@.len() ==> (#[trigger] symbols@[f])@.len() > 0,
                token@ == t,
                token@.len() == tlen,
                tlen > 0,
                f <= symbols@.len(),
                tbl@.len() == 256,
                seen <= total_len(frags, f as int),
                forall|k: int| 0 <= k < 256 ==> (#[trigger] tbl@[k]).2 <= seen,
                forall|k: int| 0 <= k < 256 ==> (#[trigger] tbl@[k]).2 == ext_count(frags, t, k as u8, right, f as int),
                forall|k: int| 0 <= k < 256 && (#[trigger] tbl@[k]).2 > 0 ==> {
                    let e = tbl@[k];
                    e.0 < symbols@.len() && e.1 + tlen + 1 <= frags[e.0 as int].len()
                        && frags[e.0 as int].subrange(e.1 as int, e.1 + tlen + 1) == grow(t, k as u8, right)
                },
            decreases symbols@.len() - f,
        {
            let sym: &[u8] = symbols[f];
            assert(sym@ == frags[f as int]);
            let found = positions_with_room(sym, token, right);
            let ghost ms = all_matches(t, room(sym@, right), 0);
            proof {
                lemma_total_len_mono(frags, f as int, f + 1);
                lemma_total_len_mono(frags, f + 1, symbols@.len() as int);
                assert(ms.subrange(0, 0) =~= Seq::<int>::empty());
            }
            let mut p: usize = 0;
            while p < found.len()
                invariant
                    frags == frag_views(symbols@),
                    total <= usize::MAX,
                    sym@ == frags[f as int],
                    f < symbols@.len(),
                    token@ == t,
                    token@.len() == tlen,
                    tlen > 0,
                    ms == all_matches(t, room(sym@, right), 0),
                    found@.map_values(|i: usize| i as int) == ms,
                    found@.len() <= sym@.len(),
                    forall|k: int| 0 <= k < found@.len() ==> #[trigger] found@[k] + tlen + 1 <= sym@.len()
                        && if right {
                            sym@.subrange(found@[k] as int, found@[k] + tlen) == t
                        } else {
                            sym@.subrange(found@[k] + 1, found@[k] + 1 + tlen) == t
                        },
                    p <= found@.len(),
                    tbl@.len() == 256,
                    seen <= total_len(frags, f as int) + p,
                    total_len(frags, f as int) + sym@.len() <= total,
                    total_len(frags, f as int) + sym@.len() <= total_len(frags, f + 1),
                    forall|k: int| 0 <= k < 256 ==> (#[trigger] tbl@[k]).2 <= seen,
                    forall|k: int| 0 <= k < 256 ==> (#[trigger] tbl@[k]).2
                        == ext_count(frags, t, k as u8, right, f as int) + count_adjacent(sym@, t, ms.subrange(0, p as int), k as u8, right),
                    forall|k: int| 0 <= k < 256 && (#[trigger] tbl@[k]).2 > 0 ==> {
                        let e = tbl@[k];
                        e.0 < symbols@.len() && e.1 + tlen + 1 <= frags[e.0 as int].len()
                            && frags[e.0 as int].subrange(e.1 as int, e.1 + tlen + 1) == grow(t, k as u8, right)
                    },
                decreases found@.len() - p,
            {
                let i = found[p];
                let slen = sym.len();
                assert(found@[p as int] + tlen + 1 <= slen);
                let ch = if right { sym[i + token.len()] } else { sym[i] };
                let ghost pre = tbl@;
                let cnt = tbl[ch as usize].2;
                tbl.set(ch as usize, (f, i, cnt + 1));
                proof {
                    assert(ms[p as int] == i as int) by {
                        assert(found@.map_values(|i: usize| i as int)[p as int] == ms[p as int]);
                    }
                    assert(ch == adjacent(sym@, t, i as int, right));
                    assert(ms.subrange(0, p + 1).drop_last() =~= ms.subrange(0, p as int));
                    assert(ms.subrange(0, p + 1).last() == i as int);
                    assert forall|k: int| 0 <= k < 256 implies (#[trigger] tbl@[k]).2
                        == ext_count(frags, t, k as u8, right, f as int) + count_adjacent(sym@, t, ms.subrange(0, p + 1), k as u8, right) by {
                        assert(pre[k].2 == ext_count(frags, t, k as u8, right, f as int) + count_adjacent(sym@, t, ms.subrange(0, p as int), k as u8, right));
                        assert((k as u8 == ch) == (k == ch as int));
                    }
                    if right {
                        assert(sym@.subrange(i as int, i + tlen + 1) =~= t.push(ch));
                    } else {
                        assert(sym@.subrange(i as int, i + tlen + 1) =~= seq![ch] + t);
                    }
                    assert((ch as int) as u8 == ch);
                }
                seen = seen + 1;
                p = p + 1;
            }
            proof {
                assert(ms.subrange(0, found@.len() as int) =~= ms);
                assert forall|k: int| 0 <= k < 256 implies (#[trigger] tbl@[k]).2 == ext_count(frags, t, k as u8, right, f + 1) by {
                    assert(frags[f as int] == sym@);
                }
            }
            f = f + 1;
        }
        let mut best: usize = 0;
        let mut k: usize = 1;
        while k < 256
            invariant
                tbl@.len() == 256,
                best < k <= 256,
                frags == frag_views(symbols@),
                forall|k: int| 0 <= k < 256 ==> (#[trigger] tbl@[k]).2 == ext_count(frags, t, k as u8, right, symbols@.len() as int),
                (best as int, tbl@[best as int].2 as int) == best_byte(frags, t, right, k as int),
            decreases 256 - k,
        {
            if tbl[k].2 > tbl[best].2 {
                best = k;
            }
            k = k + 1;
        }
        let (bf, bi, bcnt) = tbl[best];
        assert(best_byte(frags, t, right, 256) == (best as int, bcnt as int));
        if bcnt == 0 {
            proof {
                let sv = scores@.map_values(|e: (&[u8], usize, u128)| (e.0@, e.1 as int));
                assert(chain(frags, t, cur as int, right, total) == seq![(t, cur as int)]);
                assert(sv.drop_last().push(sv.last()) =~= sv);
                assert(whole =~= sv);
            }
            break;
        }
        let sym: &'a [u8] = symbols[bf];
        let slen = sym.len();
        assert(sym@ == frags[bf as int]);
        assert(bi + token@.len() + 1 <= slen);
        let grown: &'a [u8] = &sym[bi..bi + token.len() + 1];
        proof {
            assert(matches_at(grown@, frags[bf as int], bi as int));
            lemma_total_len_mono(frags, bf as int, frags.len() as int);
            lemma_total_len_mono(frags, 0, bf as int);
            assert(grown@ == grow(t, best as u8, right));
            assert(t.len() < total);
        }
        let ghost before = scores@.map_values(|e: (&[u8], usize, u128)| (e.0@, e.1 as int));
        scores.push((grown, bcnt, calc_score(grown.len(), bcnt)));
        proof {
            let sv = scores@.map_values(|e: (&[u8], usize, u128)| (e.0@, e.1 as int));
            assert(sv.drop_last() =~= before);
            assert(chain(frags, t, cur as int, right, total)
                == seq![(t, cur as int)] + chain(frags, grown@, bcnt as int, right, total));
            assert(before.last() == (t, cur as int));
            assert(before.drop_last().push((t, cur as int)) =~= before);
            assert(whole =~= sv.drop_last() + chain(frags, grown@, bcnt as int, right, total));
        }
        token = grown;
        cur = bcnt;
    }
    let mut max_i: usize = 0;
    let mut k: usize = 1;
    let ghost sv = scores@.map_values(|e: (&[u8], usize, u128)| (e.0@, e.1 as int));
    while k < scores.len()
        invariant
            scores@.len() > 0,
            max_i < scores@.len(),
            1 <= k <= scores@.len(),
            scores@[max_i as int].2 >= scores@[0].2,
            sv == scores@.map_values(|e: (&[u8], usize, u128)| (e.0@, e.1 as int)),
            max_i as int == last_best(sv, k as int),
            forall|j: int| 0 <= j < scores@.len() ==> {
                let e = #[trigger] scores@[j];
                e.2 as int == 0x2_0000_0000_0000_0000 + token_score(e.0@.len() as int, e.1 as int)
            },
        decreases scores@.len() - k,
    {
        if scores[k].2 >= scores[max_i].2 {
            max_i = k;
        }
        k = k + 1;
    }
    let (tok, cnt, _score) = scores[max_i];
    assert(scores@[max_i as int].0@.len() >= scores@[0].0@.len());
    assert(whole == sv);
    (tok, cnt)
}

/// Byte counts over a prefix of the fragments never exceed their length.
pub proof fn lemma_total_byte_count_le(frags: Seq<Seq<u8>>, c: u8, n: int)
    requires
        0 <= n <= frags.len(),
    ensures
        0 <= total_byte_count(frags, c, n) <= total_len(frags, n),
        total_byte_count(frags, c, n) > 0 ==> exists|f: int, i: int|
            0 <= f < n && 0 <= i < frags[f].len() && #[trigger] frags[f][i] == c,
    decreases n,
{
    if n > 0 {
        lemma_total_byte_count_le(frags, c, n - 1);
        lemma_byte_count_le(frags[n - 1], c);
        if byte_count(frags[n - 1], c) > 0 {
            let i = choose|i: int| 0 <= i < frags[n - 1].len() && #[trigger] frags[n - 1][i] == c;
            assert(frags[n - 1][i] == c);
        }
    }
}

/// Proposes the next token cheaply: starting from the most frequent byte, grows
/// it to the left and then to the right (see `enlarge`). Returns the token and
/// the number of occurrences counted for it.
pub fn guess_best_token<'a>(symbols: &'a [&'a [u8]]) -> (r: (Vec<u8>, usize))
    requires
        forall|f: int| 0 <= f < symbols@.len() ==> (#[trigger] symbols@[f])@.len() > 0,
        total_len(frag_views(symbols@), symbols@.len() as int) <= usize::MAX,
    ensures
        symbols@.len() == 0 ==> r.0@.len() == 0 && r.1 == 0,
        symbols@.len() > 0 ==> r.0@.len() > 0 && occurs(frag_views(symbols@), r.0@)
            && token_score(r.0@.len() as int, r.1 as int) >= token_score(1, 1),
        symbols@.len() > 0 ==> exists|c: u8| is_first_max(frag_views(symbols@), c)
            && (r.0@, r.1 as int) == greedy_from(frag_views(symbols@), c),
{
    let ghost frags = frag_views(symbols@);
    let ghost n = symbols@.len() as int;
    let mut counter = CharCounter::new();
    let mut f: usize = 0;
    while f < symbols.len()
        invariant
            frags == frag_views(symbols@),
            n == symbols@.len(),
            total_len(frags, n) <= usize::MAX,
            f <= n,
            counter.wf(),
            forall|c: int| 0 <= c < 256 ==> #[trigger] counter.counts()[c] == total_byte_count(frags, c as u8, f as int),
        decreases n - f,
    {
        let sym: &[u8] = symbols[f];
        assert(sym@ == frags[f as int]);
        proof {
            lemma_total_len_mono(frags, f as int, n);
            lemma_total_len_mono(frags, f + 1, n);
            assert forall|c: int| 0 <= c < 256 implies counter.counts()[c] + sym@.len() <= usize::MAX by {
                lemma_total_byte_count_le(frags, c as u8, f as int);
            }
        }
        counter.count_up(sym);
        f = f + 1;
    }
    match counter.most_one() {
        None => {
            if symbols.len() > 0 {
                proof {
                    assert(frags[0].len() > 0);
                    let c = frags[0][0];
                    assert(frags[0].subrange(0, 1).drop_last() =~= Seq::<u8>::empty());
                    lemma_first_byte_counted(frags, c);
                    assert(counter.counts()[c as int] == total_byte_count(frags, c, n));
                }
            }
            (Vec::new(), 0)
        }
        Some((c, count)) => {
            proof {
                assert(counter.counts()[c as int] == total_byte_count(frags, c, n));
                lemma_total_byte_count_le(frags, c, n);
            }
            let mut f: usize = 0;
            let mut at: Option<(usize, usize)> = None;
            while f < symbols.len() && at.is_none()
                invariant
                    frags == frag_views(symbols@),
                    n == symbols@.len(),
                    f <= n,
                    match at {
                        Some((g, i)) => g < n && i < frags[g as int].len() && frags[g as int][i as int] == c,
                        None => forall|g: int, i: int| 0 <= g < f && 0 <= i < frags[g].len() ==> #[trigger] frags[g][i] != c,
                    },
                decreases n - f,
            {
                let sym: &[u8] = symbols[f];
                assert(sym@ == frags[f as int]);
                let mut i: usize = 0;
                while i < sym.len() && sym[i] != c
                    invariant
                        sym@ == frags[f as int],
                        f < n,
                        i <= sym@.len(),
                        at.is_none(),
                        forall|j: int| 0 <= j < i ==> sym@[j] != c,
                    decreases sym@.len() - i,
                {
                    i = i + 1;
                }
                if i < sym.len() {
                    at = Some((f, i));
                } else {
                    assert forall|g: int, j: int| 0 <= g < f + 1 && 0 <= j < frags[g].len() implies #[trigger] frags[g][j] != c by {
                        if g == f {
                            assert(sym@[j] != c);
                        }
                    }
                }
                f = f + 1;
            }
            match at {
                None => {
                    proof {
                        let (g, i) = choose|g: int, i: int| 0 <= g < n && 0 <= i < frags[g].len() && #[trigger] frags[g][i] == c;
                        assert(frags[g][i] != c);
                    }
                    (Vec::new(), 0)
                }
                Some((g, i)) => {
                    proof {
                        assert forall|d: u8| #[trigger] total_byte_count(frags, d, n) <= total_byte_count(frags, c, n) by {
                            assert(counter.counts()[d as int] == total_byte_count(frags, d, n));
                        }
                        assert forall|d: u8| d < c implies #[trigger] total_byte_count(frags, d, n) < total_byte_count(frags, c, n) by {
                            assert(counter.counts()[d as int] == total_byte_count(frags, d, n));
                        }
                        assert(is_first_max(frags, c));
                    }
                    let sym: &'a [u8] = symbols[g];
                    let slen = sym.len();
                    assert(sym@ == frags[g as int]);
                    assert(i < slen);
                    let seed: &'a [u8] = &sym[i..i + 1];
                    assert(matches_at(seed@, frags[g as int], i as int));
                    proof {
                        lemma_total_len_mono(frags, g as int, n);
                        lemma_total_len_mono(frags, 0, g as int);
                    }
                    assert(seed@ =~= seq![c]);
                    let (left, lcount) = enlarge(symbols, seed, count, false);
                    let (tok, tcount) = enlarge(symbols, left, lcount, true);
                    let v = vstd::slice::slice_to_vec(tok);
                    assert((v@, tcount as int) == greedy_from(frags, c));
                    (v, tcount)
                }
            }
        }
    }
}

/// The first byte of the first fragment is counted.
proof fn lemma_first_byte_counted(frags: Seq<Seq<u8>>, c: u8)
    requires
        frags.len() > 0,
        frags[0].len() > 0,
        frags[0][0] == c,
    ensures
        total_byte_count(frags, c, frags.len() as int) > 0,
{
    assert(total_byte_count(frags, c, 0) == 0);
    assert(total_byte_count(frags, c, 1) == byte_count(frags[0], c));
    lemma_byte_count_pos(frags[0], 0);
    lemma_total_byte_count_mono(frags, c, 1, frags.len() as int);
}

pub proof fn lemma_byte_count_pos(s: Seq<u8>, i: int)
    requires
        0 <= i < s.len(),
    ensures
        byte_count(s, s[i]) > 0,
    decreases s.len(),
{
    if i < s.len() - 1 {
        lemma_byte_count_pos(s.drop_last(), i);
    }
}

pub proof fn lemma_total_byte_count_mono(frags: Seq<Seq<u8>>, c: u8, a: int, b: int)
    requires
        0 <= a <= b,
    ensures
        total_byte_count(frags, c, a) <= total_byte_count(frags, c, b),
    decreases b - a,
{
    if a < b {
        lemma_total_byte_count_mono(frags, c, a, b - 1);
    }
}

/// How many of the positions `0..n` of `s` start an occurrence of `t`;
/// occurrences may overlap.
pub open spec fn occ_in(s: Seq<u8>, t: Seq<u8>, n: int) -> int
    decreases n,
{
    if n <= 0 { 0 } else { occ_in(s, t, n - 1) + if matches_at(t, s, n - 1) { 1int } else { 0int } }
}

/// How many suffixes of the first `n` fragments start with `t`.
pub open spec fn occ_total(frags: Seq<Seq<u8>>, t: Seq<u8>, n: int) -> int
    decreases n,
{
    if n <= 0 { 0 } else { occ_total(frags, t, n - 1) + occ_in(frags[n - 1], t, frags[n - 1].len() as int) }
}

/// Lexicographic order on byte strings, a proper prefix first.
pub open spec fn lex_lt(a: Seq<u8>, b: Seq<u8>) -> bool
    decreases a.len(),
{
    if a.len() == 0 {
        b.len() > 0
    } else if b.len() == 0 {
        false
    } else if a[0] != b[0] {
        a[0] < b[0]
    } else {
        lex_lt(a.drop_first(), b.drop_first())
    }
}

/// Token `t1` with `c1` occurrences is a strictly better choice than `t2` with
/// `c2`: a higher `length × count`, then a longer token, then a smaller one.
pub open spec fn outranks(t1: Seq<u8>, c1: int, t2: Seq<u8>, c2: int) -> bool {
    t1.len() * c1 > t2.len() * c2 || (t1.len() * c1 == t2.len() * c2 && (t1.len() > t2.len()
        || (t1.len() == t2.len() && lex_lt(t1, t2))))
}

pub proof fn lemma_lex_lt_trans(a: Seq<u8>, b: Seq<u8>, c: Seq<u8>)
    requires
        lex_lt(a, b),
        lex_lt(b, c),
    ensures
        lex_lt(a, c),
    decreases a.len(),
{
    if a.len() > 0 && b.len() > 0 && c.len() > 0 && a[0] == b[0] && b[0] == c[0] {
        lemma_lex_lt_trans(a.drop_first(), b.drop_first(), c.drop_first());
    }
}

pub proof fn lemma_outranks_trans(t1: Seq<u8>, c1: int, t2: Seq<u8>, c2: int, t3: Seq<u8>, c3: int)
    requires
        outranks(t1, c1, t2, c2),
        outranks(t2, c2, t3, c3),
    ensures
        outranks(t1, c1, t3, c3),
{
    if t1.len() * c1 == t2.len() * c2 && t2.len() * c2 == t3.len() * c3 && t1.len() == t2.len()
        && t2.len() == t3.len() {
        lemma_lex_lt_trans(t1, t2, t3);
    }
}

proof fn lemma_occ_in_bounds(s: Seq<u8>, t: Seq<u8>, n: int, i: int)
    ensures
        0 <= occ_in(s, t, n) <= if n > 0 { n } else { 0 },
        0 <= i < n && matches_at(t, s, i) ==> occ_in(s, t, n) >= 1,
    decreases n,
{
    if n > 0 {
        lemma_occ_in_bounds(s, t, n - 1, i);
    }
}

proof fn lemma_occ_total_bounds(frags: Seq<Seq<u8>>, t: Seq<u8>, n: int, f: int, i: int)
    requires
        0 <= n <= frags.len(),
    ensures
        0 <= occ_total(frags, t, n) <= total_len(frags, n),
        0 <= f < n && 0 <= i < frags[f].len() && matches_at(t, frags[f], i) ==> occ_total(frags, t, n) >= 1,
    decreases n,
{
    if n > 0 {
        lemma_occ_total_bounds(frags, t, n - 1, f, i);
        lemma_occ_in_bounds(frags[n - 1], t, frags[n - 1].len() as int, i);
    }
}

/// Whether `t` occurs in `s` at offset `i`.
fn starts_at(s: &[u8], t: &[u8], i: usize) -> (r: bool)
    ensures
        r == matches_at(t@, s@, i as int),
{
    let slen = s.len();
    let tlen = t.len();
    if i > slen || tlen > slen - i {
        return false;
    }
    let mut k: usize = 0;
    while k < tlen
        invariant
            slen == s@.len(),
            tlen == t@.len(),
            i + tlen <= slen,
            k <= tlen,
            forall|m: int| 0 <= m < k ==> s@[i + m] == t@[m],
        decreases tlen - k,
    {
        if s[i + k] != t[k] {
            assert(s@.subrange(i as int, i + tlen)[k as int] != t@[k as int]);
            return false;
        }
        k = k + 1;
    }
    assert(s@.subrange(i as int, i + tlen) =~= t@);
    true
}

/// The number of suffixes of all fragments that start with `t`.
fn count_occurrences(symbols: &[&[u8]], t: &[u8]) -> (r: usize)
    requires
        total_len(frag_views(symbols@), symbols@.len() as int) <= usize::MAX,
    ensures
        r == occ_total(frag_views(symbols@), t@, symbols@.len() as int),
{
    let ghost frags = frag_views(symbols@);
    let ghost n = symbols@.len() as int;
    let mut total: usize = 0;
    let mut f: usize = 0;
    while f < symbols.len()
        invariant
            frags == frag_views(symbols@),
            n == symbols@.len(),
            total_len(frags, n) <= usize::MAX,
            f <= n,
            total == occ_total(frags, t@, f as int),
        decreases n - f,
    {
        let sym: &[u8] = symbols[f];
        assert(sym@ == frags[f as int]);
        proof {
            lemma_occ_total_bounds(frags, t@, f as int, 0, 0);
            lemma_total_len_mono(frags, f as int, n);
        }
        let mut i: usize = 0;
        let mut here: usize = 0;
        while i < sym.len()
            invariant
                sym@ == frags[f as int],
                i <= sym@.len(),
                here == occ_in(sym@, t@, i as int),
                total + sym@.len() <= usize::MAX,
            decreases sym@.len() - i,
        {
            proof {
                lemma_occ_in_bounds(sym@, t@, i as int, 0);
            }
            if starts_at(sym, t, i) {
                here = here + 1;
            }
            i = i + 1;
        }
        proof {
            lemma_occ_in_bounds(sym@, t@, sym@.len() as int, 0);
        }
        total = total + here;
        f = f + 1;
    }
    total
}

/// Whether token `t1` with `c1` occurrences outranks `t2` with `c2`.
fn outranks_exec(t1: &[u8], c1: usize, t2: &[u8], c2: usize) -> (r: bool)
    ensures
        r == outranks(t1@, c1 as int, t2@, c2 as int),
{
    let l1 = t1.len();
    let l2 = t2.len();
    assert((l1 as int) * (c1 as int) <= 0xFFFF_FFFF_FFFF_FFFE_0000_0000_0000_0001) by (nonlinear_arith)
        requires
            l1 <= 0xFFFF_FFFF_FFFF_FFFF,
            c1 <= 0xFFFF_FFFF_FFFF_FFFF,
    {
    }
    assert((l2 as int) * (c2 as int) <= 0xFFFF_FFFF_FFFF_FFFE_0000_0000_0000_0001) by (nonlinear_arith)
        requires
            l2 <= 0xFFFF_FFFF_FFFF_FFFF,
            c2 <= 0xFFFF_FFFF_FFFF_FFFF,
    {
    }
    let s1: u128 = (l1 as u128) * (c1 as u128);
    let s2: u128 = (l2 as u128) * (c2 as u128);
    if s1 != s2 {
        return s1 > s2;
    }
    if l1 != l2 {
        return l1 > l2;
    }
    let mut k: usize = 0;
    assert(outranks(t1@, c1 as int, t2@, c2 as int) == lex_lt(t1@, t2@));
    assert(t1@.subrange(0, l1 as int) =~= t1@);
    assert(t2@.subrange(0, l2 as int) =~= t2@);
    while k < l1
        invariant
            l1 == t1@.len(),
            l2 == t2@.len(),
            l1 == l2,
            k <= l1,
            outranks(t1@, c1 as int, t2@, c2 as int) == lex_lt(t1@, t2@),
            lex_lt(t1@, t2@) == lex_lt(t1@.subrange(k as int, l1 as int), t2@.subrange(k as int, l2 as int)),
        decreases l1 - k,
    {
        let ghost a = t1@.subrange(k as int, l1 as int);
        let ghost b = t2@.subrange(k as int, l2 as int);
        assert(a[0] == t1@[k as int]);
        assert(b[0] == t2@[k as int]);
        if t1[k] != t2[k] {
            assert(lex_lt(a, b) == (a[0] < b[0]));
            return t1[k] < t2[k];
        }
        assert(a.drop_first() =~= t1@.subrange(k + 1, l1 as int));
        assert(b.drop_first() =~= t2@.subrange(k + 1, l2 as int));
        k = k + 1;
    }
    assert(t1@.subrange(k as int, l1 as int).len() == 0);
    false
}

/// The best next token for the current fragments: over every substring of every
/// fragment, the one with the highest `length × count`, where count is the
/// number of suffixes that start with it; on a tie the longer one, then the
/// lexicographically smaller one. Returns the token and its count.
pub fn strictly_find_best_token<'a>(symbols: &'a [&'a [u8]]) -> (r: (&'a [u8], usize))
    requires
        total_len(frag_views(symbols@), symbols@.len() as int) <= usize::MAX,
    ensures
        (forall|f: int| 0 <= f < symbols@.len() ==> (#[trigger] symbols@[f])@.len() == 0) ==> r.0@.len() == 0 && r.1 == 0,
        (exists|f: int| 0 <= f < symbols@.len() && (#[trigger] symbols@[f])@.len() > 0) ==> {
            &&& r.0@.len() > 0
            &&& occurs(frag_views(symbols@), r.0@)
            &&& r.1 == occ_total(frag_views(symbols@), r.0@, symbols@.len() as int)
        },
        forall|f: int, i: int, j: int| 0 <= f < symbols@.len() && 0 <= i < j <= symbols@[f]@.len() ==>
            !outranks(#[trigger] frag_views(symbols@)[f].subrange(i, j),
                occ_total(frag_views(symbols@), frag_views(symbols@)[f].subrange(i, j), symbols@.len() as int),
                r.0@, r.1 as int),
{
    let ghost frags = frag_views(symbols@);
    let ghost n = symbols@.len() as int;
    let mut best: &'a [u8] = &[];
    let mut best_count: usize = 0;
    let mut f: usize = 0;
    while f < symbols.len()
        invariant
            frags == frag_views(symbols@),
            n == symbols@.len(),
            total_len(frags, n) <= usize::MAX,
            f <= n,
            best@.len() == 0 ==> best_count == 0,
            best@.len() > 0 ==> best_count == occ_total(frags, best@, n) && occurs(frags, best@),
            forall|g: int, i: int, j: int| 0 <= g < f && 0 <= i < j <= frags[g].len() ==>
                !outranks(#[trigger] frags[g].subrange(i, j), occ_total(frags, frags[g].subrange(i, j), n),
                    best@, best_count as int),
        decreases n - f,
    {
        let sym: &'a [u8] = symbols[f];
        assert(sym@ == frags[f as int]);
        let mut i: usize = 0;
        while i < sym.len()
            invariant
                frags == frag_views(symbols@),
                n == symbols@.len(),
                total_len(frags, n) <= usize::MAX,
                f < n,
                sym@ == frags[f as int],
                i <= sym@.len(),
                best@.len() == 0 ==> best_count == 0,
                best@.len() > 0 ==> best_count == occ_total(frags, best@, n) && occurs(frags, best@),
                forall|g: int, a: int, b: int| 0 <= g < f && 0 <= a < b <= frags[g].len() ==>
                    !outranks(#[trigger] frags[g].subrange(a, b), occ_total(frags, frags[g].subrange(a, b), n),
                        best@, best_count as int),
                forall|a: int, b: int| 0 <= a < i && a < b <= sym@.len() ==>
                    !outranks(#[trigger] frags[f as int].subrange(a, b), occ_total(frags, frags[f as int].subrange(a, b), n),
                        best@, best_count as int),
            decreases sym@.len() - i,
        {
            let mut j: usize = i;
            while j < sym.len()
                invariant
                    frags == frag_views(symbols@),
                    n == symbols@.len(),
                    total_len(frags, n) <= usize::MAX,
                    f < n,
                    sym@ == frags[f as int],
                    i < sym@.len(),
                    i <= j <= sym@.len(),
                    best@.len() == 0 ==> best_count == 0,
                    best@.len() > 0 ==> best_count == occ_total(frags, best@, n) && occurs(frags, best@),
                    forall|g: int, a: int, b: int| 0 <= g < f && 0 <= a < b <= frags[g].len() ==>
                        !outranks(#[trigger] frags[g].subrange(a, b), occ_total(frags, frags[g].subrange(a, b), n),
                            best@, best_count as int),
                    forall|a: int, b: int| 0 <= a < i && a < b <= sym@.len() ==>
                        !outranks(#[trigger] frags[f as int].subrange(a, b), occ_total(frags, frags[f as int].subrange(a, b), n),
                            best@, best_count as int),
                    forall|b: int| i < b <= j ==>
                        !outranks(#[trigger] frags[f as int].subrange(i as int, b), occ_total(frags, frags[f as int].subrange(i as int, b), n),
                            best@, best_count as int),
                decreases sym@.len() - j,
            {
                let token: &'a [u8] = &sym[i..j + 1];
                let count = count_occurrences(symbols, token);
                if outranks_exec(token, count, best, best_count) {
                    proof {
                        assert(matches_at(token@, frags[f as int], i as int));
                        let ob = best@;
                        let oc = best_count as int;
                        assert forall|g: int, a: int, b: int| 0 <= g < f && 0 <= a < b <= frags[g].len() implies
                            !outranks(#[trigger] frags[g].subrange(a, b), occ_total(frags, frags[g].subrange(a, b), n),
                                token@, count as int) by {
                            let c = frags[g].subrange(a, b);
                            if outranks(c, occ_total(frags, c, n), token@, count as int) {
                                lemma_outranks_trans(c, occ_total(frags, c, n), token@, count as int, ob, oc);
                            }
                        }
                        assert forall|a: int, b: int| 0 <= a < i && a < b <= sym@.len() implies
                            !outranks(#[trigger] frags[f as int].subrange(a, b), occ_total(frags, frags[f as int].subrange(a, b), n),
                                token@, count as int) by {
                            let c = frags[f as int].subrange(a, b);
                            if outranks(c, occ_total(frags, c, n), token@, count as int) {
                                lemma_outranks_trans(c, occ_total(frags, c, n), token@, count as int, ob, oc);
                            }
                        }
                        assert forall|b: int| i < b <= j + 1 implies
                            !outranks(#[trigger] frags[f as int].subrange(i as int, b), occ_total(frags, frags[f as int].subrange(i as int, b), n),
                                token@, count as int) by {
                            let c = frags[f as int].subrange(i as int, b);
                            if b <= j && outranks(c, occ_total(frags, c, n), token@, count as int) {
                                lemma_outranks_trans(c, occ_total(frags, c, n), token@, count as int, ob, oc);
                            }
                            if b == j + 1 {
                                assert(c =~= token@);
                                assert(!lex_lt(c, c)) by { lemma_lex_lt_irrefl(c); }
                            }
                        }
                    }
                    best = token;
                    best_count = count;
                } else {
                    assert(frags[f as int].subrange(i as int, j + 1) =~= token@);
                }
                j = j + 1;
            }
            i = i + 1;
        }
        f = f + 1;
    }
    proof {
        if exists|g: int| 0 <= g < n && (#[trigger] symbols@[g])@.len() > 0 {
            let g = choose|g: int| 0 <= g < n && (#[trigger] symbols@[g])@.len() > 0;
            assert(frags[g] == symbols@[g]@);
            let c = frags[g].subrange(0, 1);
            assert(matches_at(c, frags[g], 0));
            lemma_occ_total_bounds(frags, c, n, g, 0);
            assert(!outranks(c, occ_total(frags, c, n), best@, best_count as int));
            if best@.len() == 0 {
                assert(c.len() * occ_total(frags, c, n) >= 1) by (nonlinear_arith)
                    requires
                        c.len() == 1,
                        occ_total(frags, c, n) >= 1,
                {
                }
                assert(best@.len() * best_count == 0);
            }
        }
        assert forall|f: int, i: int, j: int| 0 <= f < n && 0 <= i < j <= symbols@[f]@.len() implies
            !outranks(#[trigger] frags[f].subrange(i, j), occ_total(frags, frags[f].subrange(i, j), n),
                best@, best_count as int) by {
            assert(frags[f] == symbols@[f]@);
        }
    }
    (best, best_count)
}

proof fn lemma_lex_lt_irrefl(a: Seq<u8>)
    ensures
        !lex_lt(a, a),
    decreases a.len(),
{
    if a.len() > 0 {
        lemma_lex_lt_irrefl(a.drop_first());
    }
}

/// `(t, c)` is what the exact selector picks for `frags`: a substring of a
/// fragment, with its count, that no substring of any fragment outranks.
pub open spec fn is_best(frags: Seq<Seq<u8>>, t: Seq<u8>, c: int) -> bool {
    &&& t.len() > 0
    &&& exists|f: int, i: int, j: int| 0 <= f < frags.len() && 0 <= i < j <= frags[f].len() && t == #[trigger] frags[f].subrange(i, j)
    &&& c == occ_total(frags, t, frags.len() as int)
    &&& forall|f: int, i: int, j: int| 0 <= f < frags.len() && 0 <= i < j <= frags[f].len() ==>
        !outranks(#[trigger] frags[f].subrange(i, j), occ_total(frags, frags[f].subrange(i, j), frags.len() as int), t, c)
}

/// The token, with its count, that the exact selector picks for `frags`.
pub open spec fn best_token(frags: Seq<Seq<u8>>) -> (Seq<u8>, int) {
    choose|p: (Seq<u8>, int)| is_best(frags, p.0, p.1)
}

proof fn lemma_lex_total(a: Seq<u8>, b: Seq<u8>)
    requires
        a.len() == b.len(),
        a != b,
    ensures
        lex_lt(a, b) || lex_lt(b, a),
    decreases a.len(),
{
    if a.len() > 0 && a[0] == b[0] {
        if a.drop_first() == b.drop_first() {
            assert(a =~= b) by {
                assert forall|k: int| 0 <= k < a.len() implies a[k] == b[k] by {
                    if k > 0 {
                        assert(a[k] == a.drop_first()[k - 1]);
                        assert(b[k] == b.drop_first()[k - 1]);
                    }
                }
            }
        }
        lemma_lex_total(a.drop_first(), b.drop_first());
    } else if a.len() == 0 {
        assert(a =~= b);
    }
}

/// There is one pick of the exact selector.
pub proof fn lemma_best_unique(frags: Seq<Seq<u8>>, t1: Seq<u8>, c1: int, t2: Seq<u8>, c2: int)
    requires
        is_best(frags, t1, c1),
        is_best(frags, t2, c2),
    ensures
        t1 == t2 && c1 == c2,
{
    let (f1, i1, j1) = choose|f: int, i: int, j: int| 0 <= f < frags.len() && 0 <= i < j <= frags[f].len() && t1 == #[trigger] frags[f].subrange(i, j);
    let (f2, i2, j2) = choose|f: int, i: int, j: int| 0 <= f < frags.len() && 0 <= i < j <= frags[f].len() && t2 == #[trigger] frags[f].subrange(i, j);
    assert(!outranks(frags[f1].subrange(i1, j1), occ_total(frags, frags[f1].subrange(i1, j1), frags.len() as int), t2, c2));
    assert(!outranks(frags[f2].subrange(i2, j2), occ_total(frags, frags[f2].subrange(i2, j2), frags.len() as int), t1, c1));
    if t1 != t2 {
        if t1.len() == t2.len() {
            lemma_lex_total(t1, t2);
        }
    }
}

/// What `strictly_find_best_token` returns is the pick of the exact selector.
pub proof fn lemma_strict_is_best(symbols: Seq<&[u8]>, t: Seq<u8>, c: int)
    requires
        t.len() > 0,
        occurs(frag_views(symbols), t),
        c == occ_total(frag_views(symbols), t, symbols.len() as int),
        forall|f: int, i: int, j: int| 0 <= f < symbols.len() && 0 <= i < j <= symbols[f]@.len() ==>
            !outranks(#[trigger] frag_views(symbols)[f].subrange(i, j),
                occ_total(frag_views(symbols), frag_views(symbols)[f].subrange(i, j), symbols.len() as int), t, c),
    ensures
        is_best(frag_views(symbols), t, c),
        best_token(frag_views(symbols)) == (t, c),
{
    let frags = frag_views(symbols);
    let (f, i) = choose|f: int, i: int| 0 <= f < frags.len() && #[trigger] matches_at(t, frags[f], i);
    assert(t == frags[f].subrange(i, i + t.len()));
    assert forall|g: int, a: int, b: int| 0 <= g < frags.len() && 0 <= a < b <= frags[g].len() implies
        !outranks(#[trigger] frags[g].subrange(a, b), occ_total(frags, frags[g].subrange(a, b), frags.len() as int), t, c) by {
        assert(frags[g] == symbols[g]@);
    }
    assert(is_best(frags, t, c));
    assert(is_best(frags, (t, c).0, (t, c).1));
    let p = best_token(frags);
    assert(is_best(frags, p.0, p.1));
    lemma_best_unique(frags, p.0, p.1, t, c);
}

} // verus!
