//! Why the tokenizer covers every name with the dictionary built from them.
use vstd::prelude::*;
use crate::dictionary::{discover, distinct_bytes, nonempty_of, pieces, proposal_by, split_all, split_spec};
use crate::matcher::{all_matches, lemma_all_matches_sound, lemma_skip_no_match, matches_at};
use crate::pack::{first_entry, has_single_bytes, prepend, tokens_around, tokens_of};

verus! {

/// `t` does not occur in `s`.
pub open spec fn avoids(s: Seq<u8>, t: Seq<u8>) -> bool {
    all_matches(t, s, 0).len() == 0
}

/// A non-empty `t` occurs in `s` exactly where the scan finds it at least once.
proof fn lemma_avoids_iff(s: Seq<u8>, t: Seq<u8>)
    requires
        t.len() > 0,
    ensures
        avoids(s, t) <==> forall|i: int| !#[trigger] matches_at(t, s, i),
{
    if avoids(s, t) {
        assert forall|i: int| !#[trigger] matches_at(t, s, i) by {
            if matches_at(t, s, i) {
                lemma_skip_first(s, t, 0, i);
            }
        }
    } else {
        lemma_all_matches_sound(t, s, 0);
        assert(matches_at(t, s, all_matches(t, s, 0)[0]));
    }
}

/// An occurrence at or after `from` makes the scan from `from` find something.
proof fn lemma_skip_first(s: Seq<u8>, t: Seq<u8>, from: int, i: int)
    requires
        t.len() > 0,
        0 <= from <= i,
        matches_at(t, s, i),
    ensures
        all_matches(t, s, from).len() > 0,
    decreases i - from,
{
    if !matches_at(t, s, from) {
        lemma_skip_first(s, t, from + 1, i);
    }
}

/// Splitting a string in which `t` does not occur leaves it whole.
pub proof fn lemma_split_absent(s: Seq<u8>, t: Seq<u8>)
    requires
        t.len() > 0,
        s.len() > 0,
        avoids(s, t),
    ensures
        split_spec(s, t) == seq![s],
{
    assert(s.subrange(0, s.len() as int) =~= s);
}

/// `p` is an element of `ss`.
pub open spec fn member(ss: Seq<Seq<u8>>, p: Seq<u8>) -> bool {
    exists|k: int| 0 <= k < ss.len() && ss[k] == p
}

/// The pieces of an element of `ss` are elements of `split_all(ss, t)`.
pub proof fn lemma_split_all_member(ss: Seq<Seq<u8>>, t: Seq<u8>, k: int, q: int)
    requires
        0 <= k < ss.len(),
        0 <= q < split_spec(ss[k], t).len(),
    ensures
        member(split_all(ss, t), split_spec(ss[k], t)[q]),
    decreases ss.len(),
{
    let init = ss.drop_last();
    let whole = split_all(ss, t);
    assert(whole == split_all(init, t) + split_spec(ss.last(), t));
    if k == ss.len() - 1 {
        let at = split_all(init, t).len() + q;
        assert(whole[at] == split_spec(ss[k], t)[q]);
    } else {
        assert(init[k] == ss[k]);
        lemma_split_all_member(init, t, k, q);
        let j = choose|j: int| 0 <= j < split_all(init, t).len() && split_all(init, t)[j] == split_spec(ss[k], t)[q];
        assert(whole[j] == split_all(init, t)[j]);
    }
}

/// Every element of `split_all(ss, t)` is a piece of some element of `ss`.
pub proof fn lemma_split_all_origin(ss: Seq<Seq<u8>>, t: Seq<u8>, j: int)
    requires
        0 <= j < split_all(ss, t).len(),
    ensures
        exists|k: int, q: int| 0 <= k < ss.len() && 0 <= q < split_spec(ss[k], t).len()
            && split_all(ss, t)[j] == #[trigger] split_spec(ss[k], t)[q],
    decreases ss.len(),
{
    let init = ss.drop_last();
    let whole = split_all(ss, t);
    assert(whole == split_all(init, t) + split_spec(ss.last(), t));
    if j < split_all(init, t).len() {
        lemma_split_all_origin(init, t, j);
        let (k, q) = choose|k: int, q: int| 0 <= k < init.len() && 0 <= q < split_spec(init[k], t).len()
            && split_all(init, t)[j] == #[trigger] split_spec(init[k], t)[q];
        assert(init[k] == ss[k]);
        assert(whole[j] == split_all(init, t)[j]);
    } else {
        let q = j - split_all(init, t).len();
        assert(whole[j] == split_spec(ss[ss.len() - 1], t)[q]);
    }
}

/// Each piece is a stretch of `s` from `last` on that holds no occurrence of `t`.
pub proof fn lemma_pieces_avoid(s: Seq<u8>, t: Seq<u8>, last: int, q: int)
    requires
        t.len() > 0,
        0 <= last,
        0 <= q < pieces(s, t.len() as int, all_matches(t, s, last), last).len(),
    ensures
        ({
            let p = pieces(s, t.len() as int, all_matches(t, s, last), last)[q];
            &&& exists|a: int, b: int| last <= a < b <= s.len() && p == s.subrange(a, b)
                && forall|i: int| a <= i && i + t.len() <= b ==> !#[trigger] matches_at(t, s, i)
        }),
    decreases s.len() - last,
{
    let tl = t.len() as int;
    let ms = all_matches(t, s, last);
    let ps = pieces(s, tl, ms, last);
    lemma_all_matches_sound(t, s, last);
    if ms.len() == 0 {
        assert(last < s.len());
        assert(ps[q] == s.subrange(last, s.len() as int));
        assert forall|i: int| last <= i && i + t.len() <= s.len() implies !#[trigger] matches_at(t, s, i) by {
            if matches_at(t, s, i) {
                lemma_skip_first(s, t, last, i);
            }
        }
    } else {
        let m = ms[0];
        lemma_first_match(s, t, last);
        let gap: Seq<Seq<u8>> = if m > last { seq![s.subrange(last, m)] } else { Seq::empty() };
        assert(ms.drop_first() == all_matches(t, s, m + tl)) by {
            lemma_first_match(s, t, last);
        }
        assert(ps == gap + pieces(s, tl, all_matches(t, s, m + tl), m + tl));
        if q < gap.len() {
            assert(ps[q] == s.subrange(last, m));
            assert forall|i: int| last <= i && i + t.len() <= m implies !#[trigger] matches_at(t, s, i) by {}
        } else {
            lemma_pieces_avoid(s, t, m + tl, q - gap.len());
            let p = ps[q];
            assert(p == pieces(s, tl, all_matches(t, s, m + tl), m + tl)[q - gap.len()]);
        }
    }
}

/// The scan from `last` starts at the first occurrence at or after `last`.
proof fn lemma_first_match(s: Seq<u8>, t: Seq<u8>, last: int)
    requires
        t.len() > 0,
        0 <= last,
        all_matches(t, s, last).len() > 0,
    ensures
        ({
            let m = all_matches(t, s, last)[0];
            &&& last <= m
            &&& matches_at(t, s, m)
            &&& forall|i: int| last <= i < m ==> !#[trigger] matches_at(t, s, i)
            &&& all_matches(t, s, last).drop_first() == all_matches(t, s, m + t.len())
        }),
    decreases s.len() - last,
{
    if matches_at(t, s, last) {
        assert(all_matches(t, s, last) == seq![last] + all_matches(t, s, last + t.len()));
        assert(all_matches(t, s, last).drop_first() =~= all_matches(t, s, last + t.len()));
    } else {
        assert(all_matches(t, s, last) == all_matches(t, s, last + 1));
        lemma_first_match(s, t, last + 1);
    }
}

/// Where every piece left around the occurrences of entry `k` can be
/// tokenized, so can the rest of `s` from `last` on.
pub proof fn lemma_around_some(d: Seq<Seq<u8>>, s: Seq<u8>, k: int, last: int)
    requires
        0 <= k < d.len(),
        d[k].len() > 0,
        0 <= last,
        last > 0 || all_matches(d[k], s, last).len() > 0 || last >= s.len(),
        forall|q: int| 0 <= q < pieces(s, d[k].len() as int, all_matches(d[k], s, last), last).len() ==>
            (#[trigger] tokens_of(d, pieces(s, d[k].len() as int, all_matches(d[k], s, last), last)[q])).is_some(),
    ensures
        tokens_around(d, s, k, all_matches(d[k], s, last), last).is_some(),
    decreases s.len() - last,
{
    let t = d[k];
    let tl = t.len() as int;
    let ms = all_matches(t, s, last);
    let ps = pieces(s, tl, ms, last);
    if ms.len() == 0 {
        if last < s.len() {
            assert(ps[0] == s.subrange(last, s.len() as int));
            assert(tokens_of(d, ps[0]).is_some());
        }
    } else {
        lemma_first_match(s, t, last);
        let m = ms[0];
        let gap: Seq<Seq<u8>> = if m > last { seq![s.subrange(last, m)] } else { Seq::empty() };
        assert(ps == gap + pieces(s, tl, all_matches(t, s, m + tl), m + tl));
        if m > last {
            assert(ps[0] == s.subrange(last, m));
            assert(tokens_of(d, ps[0]).is_some());
        }
        let rest = pieces(s, tl, all_matches(t, s, m + tl), m + tl);
        assert forall|q: int| 0 <= q < rest.len() implies (#[trigger] tokens_of(d, rest[q])).is_some() by {
            assert(ps[gap.len() + q] == rest[q]);
            assert(tokens_of(d, ps[gap.len() + q]).is_some());
        }
        lemma_around_some(d, s, k, m + tl);
    }
}

/// The first entry found from `j` on, where entry `k0` is non-empty and occurs.
proof fn lemma_first_entry_found(d: Seq<Seq<u8>>, s: Seq<u8>, j: int, k0: int)
    requires
        0 <= j <= k0 < d.len(),
        d[k0].len() > 0,
        all_matches(d[k0], s, 0).len() > 0,
    ensures
        first_entry(d, s, j) matches Some(k) ==> j <= k <= k0 && d[k].len() > 0 && all_matches(d[k], s, 0).len() > 0,
        first_entry(d, s, j).is_some(),
    decreases k0 - j,
{
    if !(d[j].len() > 0 && all_matches(d[j], s, 0).len() > 0) {
        lemma_first_entry_found(d, s, j + 1, k0);
    }
}

/// A string whose every byte is an entry on its own can be tokenized.
pub proof fn lemma_single_bytes_some(d: Seq<Seq<u8>>, s: Seq<u8>)
    requires
        has_single_bytes(d, s),
    ensures
        tokens_of(d, s).is_some(),
    decreases s.len(),
{
    if s.len() > 0 {
        let x = s[0];
        let k0 = choose|k0: int| 0 <= k0 < d.len() && d[k0] == seq![s[0]];
        assert(s.subrange(0, 1) =~= d[k0]);
        assert(matches_at(d[k0], s, 0));
        lemma_first_entry_found(d, s, 0, k0);
        let k = first_entry(d, s, 0)->Some_0;
        let t = d[k];
        let tl = t.len() as int;
        let ps = pieces(s, tl, all_matches(t, s, 0), 0);
        assert forall|q: int| 0 <= q < ps.len() implies (#[trigger] tokens_of(d, ps[q])).is_some() by {
            lemma_pieces_avoid(s, t, 0, q);
            let (a, b) = choose|a: int, b: int| 0 <= a < b <= s.len() && ps[q] == s.subrange(a, b)
                && forall|i: int| a <= i && i + t.len() <= b ==> !#[trigger] matches_at(t, s, i);
            lemma_first_match(s, t, 0);
            let m = all_matches(t, s, 0)[0];
            assert(!(a == 0 && b == s.len())) by {
                if a == 0 && b == s.len() {
                    assert(!matches_at(t, s, m));
                }
            }
            assert forall|i: int| 0 <= i < ps[q].len() implies
                exists|k2: int| 0 <= k2 < d.len() && d[k2] == seq![#[trigger] ps[q][i]] by {
                assert(ps[q][i] == s[a + i]);
            }
            lemma_single_bytes_some(d, ps[q]);
        }
        lemma_around_some(d, s, k, 0);
    }
}

/// Entries that do not occur in `s` are passed over.
proof fn lemma_first_entry_skip(d: Seq<Seq<u8>>, s: Seq<u8>, j: int, prev: int)
    requires
        0 <= j <= prev <= d.len(),
        forall|i: int| j <= i < prev ==> avoids(s, #[trigger] d[i]),
    ensures
        first_entry(d, s, j) == first_entry(d, s, prev),
    decreases prev - j,
{
    if j < prev {
        lemma_first_entry_skip(d, s, j + 1, prev);
    }
}

/// A stretch of `s` holds no occurrence of what `s` holds none of.
proof fn lemma_avoids_sub(s: Seq<u8>, t: Seq<u8>, a: int, b: int)
    requires
        t.len() > 0,
        0 <= a <= b <= s.len(),
        avoids(s, t),
    ensures
        avoids(s.subrange(a, b), t),
{
    lemma_avoids_iff(s, t);
    let p = s.subrange(a, b);
    assert forall|i: int| !#[trigger] matches_at(t, p, i) by {
        if matches_at(t, p, i) {
            assert(p.subrange(i, i + t.len()) =~= s.subrange(a + i, a + i + t.len()));
            assert(matches_at(t, s, a + i));
        }
    }
    lemma_avoids_iff(p, t);
}

/// The fragments of a stage of the dictionary build, with the tokens found
/// before it at `0..prev` and the tokens found from it next in `d`, can all be
/// tokenized with `d`, where what is left at the end is spelled by single bytes.
pub proof fn lemma_discover_tokenizable(d: Seq<Seq<u8>>, prev: int, frags: Seq<Seq<u8>>, have: int, exact: bool)
    requires
        0 <= prev <= d.len(),
        forall|i: int| 0 <= i < d.len() ==> (#[trigger] d[i]).len() > 0,
        forall|k: int| 0 <= k < frags.len() ==> (#[trigger] frags[k]).len() > 0,
        forall|k: int, j: int| 0 <= k < frags.len() && 0 <= j < prev ==> avoids(#[trigger] frags[k], #[trigger] d[j]),
        prev + discover(frags, have, exact).0.len() <= d.len(),
        forall|i: int| 0 <= i < discover(frags, have, exact).0.len() ==> d[prev + i] == (#[trigger] discover(frags, have, exact).0[i]).0,
        forall|k: int| 0 <= k < discover(frags, have, exact).1.len() ==> has_single_bytes(d, #[trigger] discover(frags, have, exact).1[k]),
    ensures
        forall|k: int| 0 <= k < frags.len() ==> (#[trigger] tokens_of(d, frags[k])).is_some(),
    decreases 256 - have,
{
    if have >= 256 || distinct_bytes(frags, 256) + have >= 256 || frags.len() == 0 {
        assert forall|k: int| 0 <= k < frags.len() implies (#[trigger] tokens_of(d, frags[k])).is_some() by {
            assert(discover(frags, have, exact).1[k] == frags[k]);
            lemma_single_bytes_some(d, frags[k]);
        }
    } else {
        let p = proposal_by(frags, exact);
        let t = p.0;
        let next = split_all(frags, t);
        let rest = discover(next, have + 1, exact);
        assert(discover(frags, have, exact) == (seq![p] + rest.0, rest.1));
        assert(discover(frags, have, exact).0[0] == p);
        assert(d[prev] == t);
        let tl = t.len() as int;
        assert(tl > 0);
        assert forall|i: int| 0 <= i < rest.0.len() implies d[prev + 1 + i] == (#[trigger] rest.0[i]).0 by {
            assert(discover(frags, have, exact).0[1 + i] == rest.0[i]);
        }
        assert forall|k: int| 0 <= k < rest.1.len() implies has_single_bytes(d, #[trigger] rest.1[k]) by {
            assert(discover(frags, have, exact).1[k] == rest.1[k]);
        }
        assert forall|k: int| 0 <= k < next.len() implies (#[trigger] next[k]).len() > 0
            && forall|j: int| 0 <= j < prev + 1 ==> avoids(next[k], #[trigger] d[j]) by {
            lemma_split_all_origin(frags, t, k);
            let (g, q) = choose|g: int, q: int| 0 <= g < frags.len() && 0 <= q < split_spec(frags[g], t).len()
                && next[k] == #[trigger] split_spec(frags[g], t)[q];
            let s0 = frags[g];
            lemma_pieces_avoid(s0, t, 0, q);
            let (a, b) = choose|a: int, b: int| 0 <= a < b <= s0.len() && split_spec(s0, t)[q] == s0.subrange(a, b)
                && forall|i: int| a <= i && i + t.len() <= b ==> !#[trigger] matches_at(t, s0, i);
            let piece = s0.subrange(a, b);
            assert forall|j: int| 0 <= j < prev + 1 implies avoids(next[k], #[trigger] d[j]) by {
                if j < prev {
                    assert(avoids(frags[g], d[j]));
                    lemma_avoids_sub(s0, d[j], a, b);
                } else {
                    assert forall|i: int| !#[trigger] matches_at(t, piece, i) by {
                        if matches_at(t, piece, i) {
                            assert(piece.subrange(i, i + tl) =~= s0.subrange(a + i, a + i + tl));
                            assert(matches_at(t, s0, a + i));
                        }
                    }
                    lemma_avoids_iff(piece, t);
                }
            }
        }
        lemma_discover_tokenizable(d, prev + 1, next, have + 1, exact);
        assert forall|k: int| 0 <= k < frags.len() implies (#[trigger] tokens_of(d, frags[k])).is_some() by {
            let f = frags[k];
            if avoids(f, t) {
                lemma_split_absent(f, t);
                lemma_split_all_member(frags, t, k, 0);
                let j = choose|j: int| 0 <= j < next.len() && next[j] == split_spec(frags[k], t)[0];
                assert(tokens_of(d, next[j]).is_some());
            } else {
                assert forall|i: int| 0 <= i < prev implies avoids(f, #[trigger] d[i]) by {}
                lemma_first_entry_skip(d, f, 0, prev);
                assert(first_entry(d, f, prev) == Some(prev));
                let ps = pieces(f, tl, all_matches(t, f, 0), 0);
                assert forall|q: int| 0 <= q < ps.len() implies (#[trigger] tokens_of(d, ps[q])).is_some() by {
                    assert(ps[q] == split_spec(f, t)[q]);
                    lemma_split_all_member(frags, t, k, q);
                    let j = choose|j: int| 0 <= j < next.len() && next[j] == split_spec(frags[k], t)[q];
                    assert(tokens_of(d, next[j]).is_some());
                }
                lemma_around_some(d, f, prev, 0);
            }
        }
    }
}

/// `nonempty_of` keeps exactly the non-empty strings.
pub proof fn lemma_nonempty_of(names: Seq<Seq<u8>>)
    ensures
        forall|k: int| 0 <= k < nonempty_of(names).len() ==> (#[trigger] nonempty_of(names)[k]).len() > 0,
        forall|i: int| 0 <= i < names.len() && (#[trigger] names[i]).len() > 0 ==> member(nonempty_of(names), names[i]),
    decreases names.len(),
{
    if names.len() > 0 {
        let init = names.drop_last();
        lemma_nonempty_of(init);
        let tail: Seq<Seq<u8>> = if names.last().len() > 0 { seq![names.last()] } else { Seq::empty() };
        let all = nonempty_of(names);
        assert(all == nonempty_of(init) + tail);
        assert forall|k: int| 0 <= k < all.len() implies (#[trigger] all[k]).len() > 0 by {
            if k < nonempty_of(init).len() {
                assert(all[k] == nonempty_of(init)[k]);
            }
        }
        assert forall|i: int| 0 <= i < names.len() && (#[trigger] names[i]).len() > 0 implies member(all, names[i]) by {
            if i < names.len() - 1 {
                assert(init[i] == names[i]);
                let j = choose|j: int| 0 <= j < nonempty_of(init).len() && nonempty_of(init)[j] == init[i];
                assert(all[j] == nonempty_of(init)[j]);
            } else {
                assert(all[nonempty_of(init).len() as int] == names[i]);
            }
        }
    }
}

} // verus!
