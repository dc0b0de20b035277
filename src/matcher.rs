//! Left-to-right, non-overlapping substring search over byte strings.
use vstd::prelude::*;

verus! {

/// `p` occurs in `s` starting at offset `i`.
pub open spec fn matches_at(p: Seq<u8>, s: Seq<u8>, i: int) -> bool {
    0 <= i && i + p.len() <= s.len() && s.subrange(i, i + p.len()) == p
}

/// The start offsets of the non-overlapping occurrences of `p` in `s` at or after
/// `from`, found scanning left to right, each match moving the cursor past itself.
pub open spec fn all_matches(p: Seq<u8>, s: Seq<u8>, from: int) -> Seq<int>
    decreases s.len() - from,
{
    if p.len() == 0 || from < 0 || from + p.len() > s.len() {
        Seq::empty()
    } else if matches_at(p, s, from) {
        seq![from] + all_matches(p, s, from + p.len())
    } else {
        all_matches(p, s, from + 1)
    }
}

/// Skipping a stretch without occurrences does not change the scan.
pub proof fn lemma_skip_no_match(p: Seq<u8>, s: Seq<u8>, from: int, to: int)
    requires
        p.len() > 0,
        0 <= from <= to,
        forall|j: int| from <= j < to ==> !matches_at(p, s, j),
    ensures
        to + p.len() <= s.len() ==> all_matches(p, s, from) == all_matches(p, s, to),
        to + p.len() > s.len() ==> all_matches(p, s, from) == Seq::<int>::empty(),
    decreases to - from,
{
    if from < to {
        lemma_skip_no_match(p, s, from + 1, to);
    }
}

/// Every reported offset is an occurrence, in increasing order, at or after `from`.
pub proof fn lemma_all_matches_sound(p: Seq<u8>, s: Seq<u8>, from: int)
    ensures
        forall|k: int| 0 <= k < all_matches(p, s, from).len() ==> {
            let m = #[trigger] all_matches(p, s, from)[k];
            matches_at(p, s, m) && from <= m
        },
        forall|k: int, l: int|
            #![trigger all_matches(p, s, from)[k], all_matches(p, s, from)[l]]
            0 <= k < l < all_matches(p, s, from).len() ==>
            all_matches(p, s, from)[k] + p.len() <= all_matches(p, s, from)[l],
    decreases s.len() - from,
{
    if p.len() == 0 || from < 0 || from + p.len() > s.len() {
    } else if matches_at(p, s, from) {
        lemma_all_matches_sound(p, s, from + p.len());
        let rest = all_matches(p, s, from + p.len());
        assert(all_matches(p, s, from) == seq![from] + rest);
        assert forall|k: int, l: int|
            #![trigger all_matches(p, s, from)[k], all_matches(p, s, from)[l]]
            0 <= k < l < all_matches(p, s, from).len() implies
            all_matches(p, s, from)[k] + p.len() <= all_matches(p, s, from)[l] by {
            assert(all_matches(p, s, from)[l] == rest[l - 1]);
            assert(from + p.len() <= rest[l - 1]);
            if k > 0 {
                assert(all_matches(p, s, from)[k] == rest[k - 1]);
            }
        }
    } else {
        lemma_all_matches_sound(p, s, from + 1);
        assert(all_matches(p, s, from) == all_matches(p, s, from + 1));
    }
}

/// There are no more occurrences than positions.
pub proof fn lemma_all_matches_len(p: Seq<u8>, s: Seq<u8>, from: int)
    requires
        0 <= from,
    ensures
        all_matches(p, s, from).len() <= if from <= s.len() { s.len() - from } else { 0 },
    decreases s.len() - from,
{
    if p.len() == 0 || from < 0 || from + p.len() > s.len() {
    } else if matches_at(p, s, from) {
        lemma_all_matches_len(p, s, from + p.len());
    } else {
        lemma_all_matches_len(p, s, from + 1);
    }
}

/// Looks for `pattern` in `subject` starting at offset `from`.
fn find_from(pattern: &[u8], subject: &[u8], from: usize) -> (r: Option<usize>)
    requires
        pattern@.len() > 0,
    ensures
        match r {
            Some(i) => from <= i && matches_at(pattern@, subject@, i as int)
                && forall|j: int| from <= j < i ==> !matches_at(pattern@, subject@, j),
            None => forall|j: int| from <= j ==> !matches_at(pattern@, subject@, j),
        },
{
    let plen = pattern.len();
    let slen = subject.len();
    if plen > slen || from > slen - plen {
        return None;
    }
    let mut m: usize = from;
    while m <= slen - plen
        invariant
            plen == pattern@.len(),
            slen == subject@.len(),
            plen <= slen,
            from <= m,
            forall|j: int| from <= j < m ==> !matches_at(pattern@, subject@, j),
        decreases slen - m,
    {
        let mut i: usize = 0;
        while i < plen && subject[m + i] == pattern[i]
            invariant
                plen == pattern@.len(),
                slen == subject@.len(),
                m + plen <= slen,
                i <= plen,
                forall|k: int| 0 <= k < i ==> subject@[m + k] == pattern@[k],
            decreases plen - i,
        {
            i = i + 1;
        }
        if i == plen {
            assert(subject@.subrange(m as int, m + plen) =~= pattern@);
            return Some(m);
        }
        assert(subject@.subrange(m as int, m + plen)[i as int] != pattern@[i as int]);
        m = m + 1;
    }
    None
}

/// The first occurrence of a non-empty `pattern` in `subject`.
pub fn kmp_search(pattern: &[u8], subject: &[u8]) -> (r: Option<usize>)
    requires
        pattern@.len() > 0,
    ensures
        match r {
            Some(i) => matches_at(pattern@, subject@, i as int)
                && forall|j: int| 0 <= j < i ==> !matches_at(pattern@, subject@, j),
            None => forall|j: int| !matches_at(pattern@, subject@, j),
        },
{
    find_from(pattern, subject, 0)
}

/// All non-overlapping occurrences of a non-empty `pattern` in `subject`,
/// left to right.
pub fn kmp_search_all(pattern: &[u8], subject: &[u8]) -> (r: Vec<usize>)
    requires
        pattern@.len() > 0,
    ensures
        r@.map_values(|i: usize| i as int) == all_matches(pattern@, subject@, 0),
{
    let mut result: Vec<usize> = Vec::new();
    let mut curr: usize = 0;
    let plen = pattern.len();
    let slen = subject.len();
    loop
        invariant
            plen == pattern@.len(),
            slen == subject@.len(),
            plen > 0,
            curr <= subject@.len(),
            result@.map_values(|i: usize| i as int) + all_matches(pattern@, subject@, curr as int)
                == all_matches(pattern@, subject@, 0),
        decreases subject@.len() - curr,
    {
        match find_from(pattern, subject, curr) {
            Some(i) => {
                assert(matches_at(pattern@, subject@, i as int));
                assert(i + plen <= subject@.len());
                proof {
                    lemma_skip_no_match(pattern@, subject@, curr as int, i as int);
                    assert(all_matches(pattern@, subject@, i as int)
                        == seq![i as int] + all_matches(pattern@, subject@, i + plen));
                    assert(result@.push(i).map_values(|i: usize| i as int)
                        =~= result@.map_values(|i: usize| i as int).push(i as int));
                    assert(result@.map_values(|i: usize| i as int).push(i as int)
                        + all_matches(pattern@, subject@, i + plen)
                        =~= result@.map_values(|i: usize| i as int)
                        + all_matches(pattern@, subject@, curr as int));
                }
                result.push(i);
                curr = i + plen;
            }
            None => {
                proof {
                    let end = subject@.len() - plen + 1;
                    if curr <= end {
                        lemma_skip_no_match(pattern@, subject@, curr as int, end);
                    }
                    assert(all_matches(pattern@, subject@, curr as int) =~= Seq::<int>::empty());
                    assert(result@.map_values(|i: usize| i as int)
                        =~= all_matches(pattern@, subject@, 0));
                }
                return result;
            }
        }
    }
}

} // verus!
