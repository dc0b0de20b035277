//! Byte-frequency table over the fragments of the working set.
use vstd::prelude::*;

verus! {

/// How many times byte `c` occurs in `s`.
pub open spec fn byte_count(s: Seq<u8>, c: u8) -> nat
    decreases s.len(),
{
    if s.len() == 0 {
        0
    } else {
        byte_count(s.drop_last(), c) + if s.last() == c { 1nat } else { 0nat }
    }
}

/// At most `n` of the first `n` entries are non-zero, and no more than in a
/// table that is non-zero wherever `t` is.
pub proof fn lemma_nonzero_count_le(t: Seq<usize>, u: Seq<usize>, n: int)
    requires
        forall|c: int| 0 <= c < n ==> #[trigger] t[c] > 0 ==> u[c] > 0,
    ensures
        nonzero_count(t, n) <= if n > 0 { n } else { 0 },
        nonzero_count(t, n) <= nonzero_count(u, n),
    decreases n,
{
    if n > 0 {
        lemma_nonzero_count_le(t, u, n - 1);
    }
}

pub proof fn lemma_nonzero_count_zero(t: Seq<usize>, n: int)
    requires
        forall|c: int| 0 <= c < n ==> #[trigger] t[c] == 0,
    ensures
        nonzero_count(t, n) == 0,
    decreases n,
{
    if n > 0 {
        lemma_nonzero_count_zero(t, n - 1);
    }
}

/// How many of the first `n` entries of `t` are non-zero.
pub open spec fn nonzero_count(t: Seq<usize>, n: int) -> nat
    decreases n,
{
    if n <= 0 {
        0
    } else {
        nonzero_count(t, n - 1) + if t[n - 1] > 0 { 1nat } else { 0nat }
    }
}

/// `a` comes before `b` in frequency order: higher count first, then smaller byte.
pub open spec fn freq_precedes(a: (u8, usize), b: (u8, usize)) -> bool {
    a.1 > b.1 || (a.1 == b.1 && a.0 < b.0)
}

/// A table of 256 counters, one per byte value.
pub struct CharCounter {
    table: Vec<usize>,
}

impl CharCounter {
    /// The counter of each byte value.
    pub closed spec fn counts(&self) -> Seq<usize> {
        self.table@
    }

    pub closed spec fn wf(&self) -> bool {
        self.table@.len() == 256
    }

    /// There is a counter for each of the 256 byte values.
    pub proof fn lemma_counts_len(&self)
        requires
            self.wf(),
        ensures
            self.counts().len() == 256,
    {
    }

    /// A table with every counter at zero.
    pub fn new() -> (r: Self)
        ensures
            r.wf(),
            r.counts() == Seq::new(256, |_i: int| 0usize),
    {
        let mut table: Vec<usize> = Vec::new();
        let mut i: usize = 0;
        while i < 256
            invariant
                i <= 256,
                table@ == Seq::new(i as nat, |_i: int| 0usize),
            decreases 256 - i,
        {
            table.push(0);
            i = i + 1;
        }
        CharCounter { table }
    }

    /// The number of byte values whose counter is non-zero.
    pub fn len(&self) -> (r: usize)
        requires
            self.wf(),
        ensures
            r == nonzero_count(self.counts(), 256),
    {
        let mut n: usize = 0;
        let mut i: usize = 0;
        while i < 256
            invariant
                self.wf(),
                i <= 256,
                n == nonzero_count(self.counts(), i as int),
                n <= i,
            decreases 256 - i,
        {
            if self.table[i] > 0 {
                n = n + 1;
            }
            i = i + 1;
        }
        n
    }

    /// Sets every counter back to zero.
    pub fn clear(&mut self)
        requires
            old(self).wf(),
        ensures
            final(self).wf(),
            final(self).counts() == Seq::new(256, |_i: int| 0usize),
    {
        *self = CharCounter::new();
    }

    /// Counts every byte of `bytes`.
    pub fn count_up(&mut self, bytes: &[u8])
        requires
            old(self).wf(),
            forall|c: int| 0 <= c < 256 ==> old(self).counts()[c] + bytes@.len() <= usize::MAX,
        ensures
            final(self).wf(),
            forall|c: int| 0 <= c < 256 ==>
                #[trigger] final(self).counts()[c] == old(self).counts()[c] + byte_count(bytes@, c as u8),
    {
        let ghost start = self.table@;
        assert forall|c: int| 0 <= c < 256 implies start[c] + bytes@.len() <= usize::MAX by {
            assert(old(self).counts()[c] == start[c]);
        }
        let mut i: usize = 0;
        while i < bytes.len()
            invariant
                self.wf(),
                i <= bytes@.len(),
                start == old(self).counts(),
                start.len() == 256,
                forall|c: int| 0 <= c < 256 ==> start[c] + bytes@.len() <= usize::MAX,
                forall|c: int| 0 <= c < 256 ==>
                    #[trigger] self.table@[c] == start[c] + byte_count(bytes@.subrange(0, i as int), c as u8),
            decreases bytes@.len() - i,
        {
            let c = bytes[i] as usize;
            proof {
                let pre = bytes@.subrange(0, i as int);
                let post = bytes@.subrange(0, i + 1);
                assert(post.drop_last() =~= pre);
                assert forall|d: int| 0 <= d < 256 implies
                    #[trigger] byte_count(post, d as u8) == byte_count(pre, d as u8)
                        + if d == c { 1nat } else { 0nat } by {
                    assert(post.last() == bytes@[i as int]);
                }
                lemma_byte_count_le(pre, c as u8);
            }
            let v = self.table[c];
            self.table.set(c, v + 1);
            i = i + 1;
        }
        assert(bytes@.subrange(0, bytes@.len() as int) =~= bytes@);
    }

    /// The smallest byte value among those with the highest counter, with its
    /// count; `None` where every counter is zero.
    pub fn most_one(&self) -> (r: Option<(u8, usize)>)
        requires
            self.wf(),
        ensures
            match r {
                Some((c, n)) => n == self.counts()[c as int] && n > 0
                    && (forall|d: int| 0 <= d < 256 ==> #[trigger] self.counts()[d] <= n)
                    && (forall|d: int| 0 <= d < c ==> #[trigger] self.counts()[d] < n),
                None => forall|d: int| 0 <= d < 256 ==> #[trigger] self.counts()[d] == 0,
            },
    {
        let mut best: usize = 0;
        let mut i: usize = 1;
        while i < 256
            invariant
                self.wf(),
                best < i <= 256,
                forall|d: int| 0 <= d < i ==> #[trigger] self.counts()[d] <= self.counts()[best as int],
                forall|d: int| 0 <= d < best ==> #[trigger] self.counts()[d] < self.counts()[best as int],
            decreases 256 - i,
        {
            if self.table[i] > self.table[best] {
                best = i;
            }
            i = i + 1;
        }
        let n = self.table[best];
        if n == 0 {
            None
        } else {
            Some((best as u8, n))
        }
    }

    /// The byte values with a non-zero counter, with their counts, most frequent
    /// first and, among equal counts, smaller byte values first.
    pub fn iter_by_freq(&self) -> (r: Vec<(u8, usize)>)
        requires
            self.wf(),
        ensures
            forall|i: int| 0 <= i < r@.len() ==>
                (#[trigger] r@[i]).1 == self.counts()[r@[i].0 as int] && r@[i].1 > 0,
            forall|c: int| 0 <= c < 256 && self.counts()[c] > 0 ==>
                exists|i: int| 0 <= i < r@.len() && (#[trigger] r@[i]).0 == c,
            forall|i: int, j: int| 0 <= i < j < r@.len() ==> freq_precedes(#[trigger] r@[i], #[trigger] r@[j]),
            r@.len() == nonzero_count(self.counts(), 256),
    {
        let mut result: Vec<(u8, usize)> = Vec::new();
        let mut c: usize = 0;
        while c < 256
            invariant
                self.wf(),
                c <= 256,
                result@.len() <= c,
                result@.len() == nonzero_count(self.counts(), c as int),
                forall|i: int| 0 <= i < result@.len() ==>
                    (#[trigger] result@[i]).1 == self.counts()[result@[i].0 as int]
                        && result@[i].1 > 0 && result@[i].0 < c,
                forall|d: int| 0 <= d < c && self.counts()[d] > 0 ==>
                    exists|i: int| 0 <= i < result@.len() && (#[trigger] result@[i]).0 == d,
                forall|i: int, j: int| 0 <= i < j < result@.len() ==>
                    freq_precedes(#[trigger] result@[i], #[trigger] result@[j]),
            decreases 256 - c,
        {
            let n = self.table[c];
            if n > 0 {
                let item: (u8, usize) = (c as u8, n);
                let mut p: usize = 0;
                while p < result.len() && freq_precedes_exec(result[p], item)
                    invariant
                        p <= result@.len(),
                        forall|i: int| 0 <= i < p ==> freq_precedes(#[trigger] result@[i], item),
                    decreases result@.len() - p,
                {
                    p = p + 1;
                }
                let ghost old_r = result@;
                proof {
                    assert forall|i: int| p <= i < old_r.len() implies freq_precedes(item, #[trigger] old_r[i]) by {
                        assert(!freq_precedes(old_r[p as int], item));
                        assert(old_r[p as int].0 < item.0);
                        if i > p {
                            assert(freq_precedes(old_r[p as int], old_r[i]));
                        }
                    }
                }
                result.insert(p, item);
                proof {
                    assert forall|i: int| 0 <= i < result@.len() implies
                        #[trigger] result@[i] == if i < p { old_r[i] } else if i == p { item } else { old_r[i - 1] } by {}
                    assert forall|d: int| 0 <= d < c + 1 && self.counts()[d] > 0 implies
                        exists|i: int| 0 <= i < result@.len() && (#[trigger] result@[i]).0 == d by {
                        if d == c {
                            assert(result@[p as int].0 == d);
                        } else {
                            let i = choose|i: int| 0 <= i < old_r.len() && (#[trigger] old_r[i]).0 == d;
                            if i < p {
                                assert(result@[i].0 == d);
                            } else {
                                assert(result@[i + 1].0 == d);
                            }
                        }
                    }
                    assert forall|i: int, j: int| 0 <= i < j < result@.len() implies
                        freq_precedes(#[trigger] result@[i], #[trigger] result@[j]) by {
                        if j < p {
                        } else if j == p {
                        } else if i < p {
                            assert(freq_precedes(old_r[i], item));
                            assert(freq_precedes(item, old_r[j - 1]));
                        } else if i == p {
                        } else {
                            assert(freq_precedes(old_r[i - 1], old_r[j - 1]));
                        }
                    }
                }
            }
            c = c + 1;
        }
        result
    }
}

fn freq_precedes_exec(a: (u8, usize), b: (u8, usize)) -> (r: bool)
    ensures
        r == freq_precedes(a, b),
{
    a.1 > b.1 || (a.1 == b.1 && a.0 < b.0)
}

pub proof fn lemma_byte_count_le(s: Seq<u8>, c: u8)
    ensures
        byte_count(s, c) > 0 ==> exists|i: int| 0 <= i < s.len() && s[i] == c,
        byte_count(s, c) <= s.len(),
    decreases s.len(),
{
    if s.len() > 0 {
        lemma_byte_count_le(s.drop_last(), c);
        if byte_count(s.drop_last(), c) > 0 {
            let i = choose|i: int| 0 <= i < s.drop_last().len() && s.drop_last()[i] == c;
            assert(s[i] == c);
        } else if byte_count(s, c) > 0 {
            assert(s[s.len() - 1] == c);
        }
    }
}

} // verus!
