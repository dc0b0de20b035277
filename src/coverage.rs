//! Spelling byte strings with the entries of a token list.
use vstd::prelude::*;
use crate::dictionary::pieces;
use crate::matcher::matches_at;

verus! {

/// The entries of `alpha` picked by `ids`, one after the other.
pub open spec fn concat_ids(alpha: Seq<Seq<u8>>, ids: Seq<int>) -> Seq<u8>
    decreases ids.len(),
{
    if ids.len() == 0 {
        Seq::empty()
    } else {
        concat_ids(alpha, ids.drop_last()) + alpha[ids.last()]
    }
}

/// `ids` picks entries of `alpha` that spell `s`.
pub open spec fn spells(alpha: Seq<Seq<u8>>, ids: Seq<int>, s: Seq<u8>) -> bool {
    (forall|i: int| 0 <= i < ids.len() ==> 0 <= #[trigger] ids[i] < alpha.len()) && concat_ids(alpha, ids) == s
}

/// `s` is a concatenation of entries of `alpha`.
pub open spec fn coverable(alpha: Seq<Seq<u8>>, s: Seq<u8>) -> bool {
    exists|ids: Seq<int>| spells(alpha, ids, s)
}

pub proof fn lemma_concat_ids_append(alpha: Seq<Seq<u8>>, x: Seq<int>, y: Seq<int>)
    ensures
        concat_ids(alpha, x + y) == concat_ids(alpha, x) + concat_ids(alpha, y),
    decreases y.len(),
{
    if y.len() == 0 {
        assert(x + y =~= x);
        assert(concat_ids(alpha, x) + concat_ids(alpha, y) =~= concat_ids(alpha, x));
    } else {
        assert((x + y).drop_last() =~= x + y.drop_last());
        lemma_concat_ids_append(alpha, x, y.drop_last());
        assert(concat_ids(alpha, x + y) =~= concat_ids(alpha, x) + concat_ids(alpha, y));
    }
}

/// Spelling two strings spells their concatenation.
pub proof fn lemma_spells_concat(alpha: Seq<Seq<u8>>, x: Seq<int>, a: Seq<u8>, y: Seq<int>, b: Seq<u8>)
    requires
        spells(alpha, x, a),
        spells(alpha, y, b),
    ensures
        spells(alpha, x + y, a + b),
{
    lemma_concat_ids_append(alpha, x, y);
    assert forall|i: int| 0 <= i < (x + y).len() implies 0 <= #[trigger] (x + y)[i] < alpha.len() by {
        if i < x.len() {
            assert((x + y)[i] == x[i]);
        } else {
            assert((x + y)[i] == y[i - x.len()]);
        }
    }
}

/// One entry spells itself.
pub proof fn lemma_spells_one(alpha: Seq<Seq<u8>>, k: int)
    requires
        0 <= k < alpha.len(),
    ensures
        spells(alpha, seq![k], alpha[k]),
{
    assert(seq![k].drop_last() =~= Seq::<int>::empty());
    assert(seq![k].last() == k);
    assert(concat_ids(alpha, Seq::<int>::empty()) =~= Seq::<u8>::empty());
    assert(concat_ids(alpha, seq![k]) =~= alpha[k]);
}

/// Spelling with a list stays possible when entries are added at its end.
pub proof fn lemma_spells_extend(alpha: Seq<Seq<u8>>, more: Seq<Seq<u8>>, ids: Seq<int>, s: Seq<u8>)
    requires
        spells(alpha, ids, s),
    ensures
        spells(alpha + more, ids, s),
    decreases ids.len(),
{
    if ids.len() > 0 {
        lemma_spells_extend(alpha, more, ids.drop_last(), concat_ids(alpha, ids.drop_last()));
        assert(ids[ids.len() - 1] == ids.last());
        assert((alpha + more)[ids.last()] == alpha[ids.last()]);
    }
}

pub proof fn lemma_coverable_extend(alpha: Seq<Seq<u8>>, more: Seq<Seq<u8>>, s: Seq<u8>)
    requires
        coverable(alpha, s),
    ensures
        coverable(alpha + more, s),
{
    let ids = choose|ids: Seq<int>| spells(alpha, ids, s);
    lemma_spells_extend(alpha, more, ids, s);
}

/// What can be spelled with `old` can be spelled with `new`, where every entry
/// of `old` can.
pub proof fn lemma_spells_substitute(old: Seq<Seq<u8>>, new: Seq<Seq<u8>>, ids: Seq<int>, s: Seq<u8>)
    requires
        spells(old, ids, s),
        forall|k: int| 0 <= k < old.len() ==> coverable(new, #[trigger] old[k]),
    ensures
        coverable(new, s),
    decreases ids.len(),
{
    if ids.len() == 0 {
        assert(concat_ids(new, Seq::<int>::empty()) =~= Seq::<u8>::empty());
        assert(spells(new, Seq::<int>::empty(), s));
    } else {
        let head = concat_ids(old, ids.drop_last());
        lemma_spells_substitute(old, new, ids.drop_last(), head);
        let x = choose|x: Seq<int>| spells(new, x, head);
        assert(ids[ids.len() - 1] == ids.last());
        assert(coverable(new, old[ids.last()]));
        let y = choose|y: Seq<int>| spells(new, y, old[ids.last()]);
        lemma_spells_concat(new, x, head, y, old[ids.last()]);
    }
}

pub proof fn lemma_coverable_substitute(old: Seq<Seq<u8>>, new: Seq<Seq<u8>>, s: Seq<u8>)
    requires
        coverable(old, s),
        forall|k: int| 0 <= k < old.len() ==> coverable(new, #[trigger] old[k]),
    ensures
        coverable(new, s),
{
    let ids = choose|ids: Seq<int>| spells(old, ids, s);
    lemma_spells_substitute(old, new, ids, s);
}

/// Byte `c` on its own is an entry of `alpha`.
pub open spec fn has_byte_entry(alpha: Seq<Seq<u8>>, c: u8) -> bool {
    exists|k: int| 0 <= k < alpha.len() && alpha[k] == seq![c]
}

/// A string whose every byte is an entry can be spelled byte by byte.
pub proof fn lemma_coverable_bytes(alpha: Seq<Seq<u8>>, s: Seq<u8>)
    requires
        forall|i: int| 0 <= i < s.len() ==> has_byte_entry(alpha, #[trigger] s[i]),
    ensures
        coverable(alpha, s),
    decreases s.len(),
{
    if s.len() == 0 {
        assert(s =~= Seq::<u8>::empty());
        assert(concat_ids(alpha, Seq::<int>::empty()) =~= Seq::<u8>::empty());
        assert(spells(alpha, Seq::<int>::empty(), s));
    } else {
        let head = s.drop_last();
        assert forall|i: int| 0 <= i < head.len() implies has_byte_entry(alpha, #[trigger] head[i]) by {
            assert(head[i] == s[i]);
        }
        lemma_coverable_bytes(alpha, head);
        let x = choose|x: Seq<int>| spells(alpha, x, head);
        assert(has_byte_entry(alpha, s[s.len() - 1]));
        let k = choose|k: int| 0 <= k < alpha.len() && alpha[k] == seq![s[s.len() - 1]];
        lemma_spells_one(alpha, k);
        lemma_spells_concat(alpha, x, head, seq![k], alpha[k]);
        assert(head + alpha[k] =~= s);
    }
}

/// The pieces left by cutting a token out of `s` from `last` on, put back
/// together with the token between them, spell the rest of `s`: where the
/// pieces are entries `first..` of `alpha` and the token is entry `tid`.
#[verifier::rlimit(60)]
pub proof fn lemma_pieces_spell(
    alpha: Seq<Seq<u8>>,
    s: Seq<u8>,
    t: Seq<u8>,
    ms: Seq<int>,
    last: int,
    first: int,
    tid: int,
)
    requires
        t.len() > 0,
        0 <= last <= s.len(),
        0 <= tid < alpha.len(),
        alpha[tid] == t,
        0 <= first,
        first + pieces(s, t.len() as int, ms, last).len() <= alpha.len(),
        forall|k: int| 0 <= k < pieces(s, t.len() as int, ms, last).len() ==>
            alpha[first + k] == #[trigger] pieces(s, t.len() as int, ms, last)[k],
        forall|k: int| 0 <= k < ms.len() ==> matches_at(t, s, #[trigger] ms[k]),
        forall|a: int, b: int| #![trigger ms[a], ms[b]] 0 <= a < b < ms.len() ==> ms[a] + t.len() <= ms[b],
        ms.len() > 0 ==> last <= ms[0],
    ensures
        coverable(alpha, s.subrange(last, s.len() as int)),
    decreases ms.len(),
{
    let tl = t.len() as int;
    let ps = pieces(s, tl, ms, last);
    if ms.len() == 0 {
        if last < s.len() {
            assert(ps == seq![s.subrange(last, s.len() as int)]);
            assert(alpha[first] == ps[0]);
            lemma_spells_one(alpha, first);
        } else {
            assert(s.subrange(last, s.len() as int) =~= Seq::<u8>::empty());
            assert(concat_ids(alpha, Seq::<int>::empty()) =~= Seq::<u8>::empty());
            assert(spells(alpha, Seq::<int>::empty(), s.subrange(last, s.len() as int)));
        }
    } else {
        let m = ms[0];
        assert(matches_at(t, s, m));
        let rest = ms.drop_first();
        let gap: Seq<Seq<u8>> = if m > last { seq![s.subrange(last, m)] } else { Seq::empty() };
        assert(ps == gap + pieces(s, tl, rest, m + tl));
        let tail = pieces(s, tl, rest, m + tl);
        if rest.len() > 0 {
            assert(ms[0] + tl <= ms[1]);
        }
        assert forall|k: int| 0 <= k < tail.len() implies alpha[first + gap.len() + k] == #[trigger] tail[k] by {
            assert(ps[gap.len() + k] == tail[k]);
        }
        lemma_pieces_spell(alpha, s, t, rest, m + tl, first + gap.len(), tid);
        let after = s.subrange(m + tl, s.len() as int);
        let z = choose|z: Seq<int>| spells(alpha, z, after);
        lemma_spells_one(alpha, tid);
        lemma_spells_concat(alpha, seq![tid], t, z, after);
        assert(s.subrange(m, m + tl) == t);
        assert(t + after =~= s.subrange(m, s.len() as int));
        if m > last {
            assert(alpha[first] == ps[0]);
            assert(ps[0] == s.subrange(last, m));
            lemma_spells_one(alpha, first);
            lemma_spells_concat(alpha, seq![first], s.subrange(last, m), seq![tid] + z, t + after);
            assert(s.subrange(last, m) + (t + after) =~= s.subrange(last, s.len() as int));
        } else {
            assert(s.subrange(m, s.len() as int) =~= s.subrange(last, s.len() as int));
        }
    }
}

} // verus!
