//! Huffman codes for a list of symbol frequencies.
use vstd::prelude::*;

verus! {

/// The sum of the frequencies of the nodes listed in `roots`.
pub open spec fn root_sum(freqs: Seq<usize>, roots: Seq<usize>) -> int
    decreases roots.len(),
{
    if roots.len() == 0 { 0 } else { root_sum(freqs, roots.drop_last()) + freqs[roots.last() as int] }
}

/// The sum of the frequencies in `symbols`.
pub open spec fn total_freq(symbols: Seq<(usize, usize)>) -> int
    decreases symbols.len(),
{
    if symbols.len() == 0 { 0 } else { total_freq(symbols.drop_last()) + symbols.last().1 }
}

proof fn lemma_root_sum_insert(freqs: Seq<usize>, roots: Seq<usize>, p: int, x: usize)
    requires
        0 <= p <= roots.len(),
    ensures
        root_sum(freqs, roots.insert(p, x)) == root_sum(freqs, roots) + freqs[x as int],
    decreases roots.len(),
{
    if p == roots.len() {
        assert(roots.insert(p, x) =~= roots.push(x));
        assert(roots.push(x).drop_last() =~= roots);
    } else {
        lemma_root_sum_insert(freqs, roots.drop_last(), p, x);
        assert(roots.insert(p, x).drop_last() =~= roots.drop_last().insert(p, x));
        assert(roots.insert(p, x).last() == roots.last());
    }
}

proof fn lemma_root_sum_nonneg(freqs: Seq<usize>, roots: Seq<usize>)
    ensures
        root_sum(freqs, roots) >= 0,
    decreases roots.len(),
{
    if roots.len() > 0 {
        lemma_root_sum_nonneg(freqs, roots.drop_last());
    }
}

/// The bit a node contributes to the codes below it.
pub open spec fn bit(right: bool) -> u8 {
    if right { 1 } else { 0 }
}

/// Node `p` is the parent of `k`, a later node.
pub open spec fn parent_of(par: Seq<Option<usize>>, k: int, p: int) -> bool {
    0 <= k < par.len() && par[k] == Some(p as usize) && k < p < par.len()
}

/// The bits from the root down to node `k`.
pub open spec fn bits_from(par: Seq<Option<usize>>, isr: Seq<bool>, k: int) -> Seq<u8>
    decreases par.len() - k,
{
    if 0 <= k < par.len() && par[k].is_some() && k < par[k].unwrap() < par.len() {
        bits_from(par, isr, par[k].unwrap() as int) + seq![bit(isr[k])]
    } else {
        Seq::empty()
    }
}

/// `a` is `b` or one of its ancestors.
pub open spec fn anc_eq(par: Seq<Option<usize>>, a: int, b: int) -> bool
    decreases par.len() - b,
{
    a == b || (0 <= b < par.len() && par[b].is_some() && b < par[b].unwrap() < par.len()
        && anc_eq(par, a, par[b].unwrap() as int))
}

/// The shape of the forest while it is built: parents come later than their
/// children and are never leaves, two children of one parent sit on different
/// sides, and the roots are exactly the nodes without a parent, each once.
pub open spec fn forest(par: Seq<Option<usize>>, isr: Seq<bool>, roots: Seq<usize>, n: int) -> bool {
    &&& isr.len() == par.len()
    &&& par.len() <= usize::MAX
    &&& forall|k: int| 0 <= k < par.len() && (#[trigger] par[k]).is_some() ==> k < par[k].unwrap() < par.len() && n <= par[k].unwrap()
    &&& forall|a: int, b: int| 0 <= a < par.len() && 0 <= b < par.len() && a != b && (#[trigger] par[a]).is_some()
        && #[trigger] par[b] == par[a] ==> isr[a] != isr[b]
    &&& forall|x: int, y: int| 0 <= x < y < roots.len() ==> #[trigger] roots[x] != #[trigger] roots[y]
    &&& forall|x: int| 0 <= x < roots.len() ==> (#[trigger] roots[x]) < par.len()
    &&& forall|k: int| 0 <= k < par.len() ==> (#[trigger] par[k]).is_none() == roots.contains(k as usize)
}

proof fn lemma_anc_prefix(par: Seq<Option<usize>>, isr: Seq<bool>, a: int, b: int)
    requires
        anc_eq(par, a, b),
    ensures
        bits_from(par, isr, a).len() <= bits_from(par, isr, b).len(),
        bits_from(par, isr, b).subrange(0, bits_from(par, isr, a).len() as int) == bits_from(par, isr, a),
    decreases par.len() - b,
{
    if a == b {
        assert(bits_from(par, isr, b).subrange(0, bits_from(par, isr, b).len() as int) =~= bits_from(par, isr, b));
    } else {
        let p = par[b].unwrap() as int;
        lemma_anc_prefix(par, isr, a, p);
        let bb = bits_from(par, isr, b);
        assert(bb == bits_from(par, isr, p) + seq![bit(isr[b])]);
        assert(bb.subrange(0, bits_from(par, isr, a).len() as int)
            =~= bits_from(par, isr, p).subrange(0, bits_from(par, isr, a).len() as int));
    }
}

proof fn lemma_child_toward(par: Seq<Option<usize>>, x: int, b: int)
    requires
        anc_eq(par, x, b),
        x != b,
    ensures
        exists|c: int| parent_of(par, c, x) && anc_eq(par, c, b),
    decreases par.len() - b,
{
    let p = par[b].unwrap() as int;
    if p == x {
        assert(parent_of(par, b, x));
        assert(anc_eq(par, b, b));
    } else {
        lemma_child_toward(par, x, p);
        let c = choose|c: int| parent_of(par, c, x) && anc_eq(par, c, p);
        assert(anc_eq(par, c, b));
    }
}

proof fn lemma_top(par: Seq<Option<usize>>, isr: Seq<bool>, roots: Seq<usize>, n: int, k: int)
    requires
        forest(par, isr, roots, n),
        roots.len() == 1,
        0 <= k < par.len(),
    ensures
        anc_eq(par, roots[0] as int, k),
    decreases par.len() - k,
{
    if par[k].is_none() {
        assert(roots.contains(k as usize));
        let x = choose|x: int| 0 <= x < roots.len() && roots[x] == k as usize;
        assert(x == 0);
        assert(roots[0] as int == k);
    } else {
        assert(k < par[k].unwrap() < par.len());
        lemma_top(par, isr, roots, n, par[k].unwrap() as int);
    }
}

/// Where the bits down to `a` start the bits down to `b`, `a` is above `b`.
proof fn lemma_prefix_anc(par: Seq<Option<usize>>, isr: Seq<bool>, roots: Seq<usize>, n: int, a: int, b: int)
    requires
        forest(par, isr, roots, n),
        roots.len() == 1,
        0 <= a < par.len(),
        0 <= b < par.len(),
        bits_from(par, isr, a).len() <= bits_from(par, isr, b).len(),
        bits_from(par, isr, b).subrange(0, bits_from(par, isr, a).len() as int) == bits_from(par, isr, a),
    ensures
        anc_eq(par, a, b),
    decreases par.len() - a,
{
    if par[a].is_none() {
        assert(roots.contains(a as usize));
        let x = choose|x: int| 0 <= x < roots.len() && roots[x] == a as usize;
        assert(x == 0);
        assert(roots[0] as int == a);
        lemma_top(par, isr, roots, n, b);
    } else {
        assert(a < par[a].unwrap() < par.len());
        let pa = par[a].unwrap() as int;
        let ba = bits_from(par, isr, a);
        let bp = bits_from(par, isr, pa);
        let bb = bits_from(par, isr, b);
        assert(ba == bp + seq![bit(isr[a])]);
        assert(bb.subrange(0, bp.len() as int) =~= bp) by {
            assert(bb.subrange(0, bp.len() as int) =~= ba.subrange(0, bp.len() as int));
        }
        lemma_prefix_anc(par, isr, roots, n, pa, b);
        if b == pa {
            assert(false);
        }
        lemma_child_toward(par, pa, b);
        let c = choose|c: int| parent_of(par, c, pa) && anc_eq(par, c, b);
        lemma_anc_prefix(par, isr, c, b);
        let bc = bits_from(par, isr, c);
        assert(bc == bp + seq![bit(isr[c])]);
        assert(bb[bp.len() as int] == bc[bp.len() as int]);
        assert(bb[bp.len() as int] == ba[bp.len() as int]);
        assert(bit(isr[a]) == bit(isr[c]));
        assert(isr[a] == isr[c]);
        if a != c {
            assert(par[c] == par[a]);
            assert(isr[a] != isr[c]);
        }
        assert(a == c);
    }
}

/// No leaf's code starts another leaf's code.
proof fn lemma_prefix_free(par: Seq<Option<usize>>, isr: Seq<bool>, roots: Seq<usize>, n: int, i: int, j: int)
    requires
        forest(par, isr, roots, n),
        roots.len() == 1,
        0 <= i < n,
        0 <= j < n,
        n <= par.len(),
        i != j,
    ensures
        !(bits_from(par, isr, i).len() <= bits_from(par, isr, j).len()
            && bits_from(par, isr, j).subrange(0, bits_from(par, isr, i).len() as int) == bits_from(par, isr, i)),
{
    if bits_from(par, isr, i).len() <= bits_from(par, isr, j).len()
        && bits_from(par, isr, j).subrange(0, bits_from(par, isr, i).len() as int) == bits_from(par, isr, i) {
        lemma_prefix_anc(par, isr, roots, n, i, j);
        lemma_child_toward(par, i, j);
        let c = choose|c: int| parent_of(par, c, i) && anc_eq(par, c, j);
        assert(par[c].is_some());
    }
}

/// Where a node of frequency `f` goes in `roots`, from position `p` on: before
/// the first node whose frequency is below `f`.
pub open spec fn insert_at(freqs: Seq<usize>, roots: Seq<usize>, f: usize, p: int) -> int
    decreases roots.len() - p,
{
    if p < 0 || p >= roots.len() || !(freqs[roots[p] as int] >= f) { p } else { insert_at(freqs, roots, f, p + 1) }
}

pub proof fn lemma_insert_at_range(freqs: Seq<usize>, roots: Seq<usize>, f: usize, p: int)
    requires
        0 <= p <= roots.len(),
    ensures
        p <= insert_at(freqs, roots, f, p) <= roots.len(),
    decreases roots.len() - p,
{
    if p < roots.len() && freqs[roots[p] as int] >= f {
        lemma_insert_at_range(freqs, roots, f, p + 1);
    }
}

/// `roots` with `node` put in its place.
pub open spec fn with_node(freqs: Seq<usize>, roots: Seq<usize>, node: int) -> Seq<usize> {
    roots.insert(insert_at(freqs, roots, freqs[node], 0), node as usize)
}

/// The frequencies and the sorted roots once the first `k` symbols are leaves.
pub open spec fn leaves(symbols: Seq<(usize, usize)>, k: int) -> (Seq<usize>, Seq<usize>)
    decreases k,
{
    if k <= 0 {
        (Seq::empty(), Seq::empty())
    } else {
        let (f, r) = leaves(symbols, k - 1);
        let f2 = f.push(symbols[k - 1].1);
        (f2, with_node(f2, r, k - 1))
    }
}

/// The parents and sides the joining of the last two roots, repeated until one
/// root is left, produces.
pub open spec fn merge(freqs: Seq<usize>, par: Seq<Option<usize>>, isr: Seq<bool>, roots: Seq<usize>)
    -> (Seq<Option<usize>>, Seq<bool>)
    decreases roots.len(),
{
    if roots.len() < 2 {
        (par, isr)
    } else {
        let ri = roots.last();
        let li = roots.drop_last().last();
        let r2 = roots.drop_last().drop_last();
        let node = freqs.len();
        let f2 = freqs.push((freqs[ri as int] + freqs[li as int]) as usize);
        let p2 = par.push(None).update(ri as int, Some(node as usize)).update(li as int, Some(node as usize));
        let i2 = isr.push(true).update(ri as int, true).update(li as int, false);
        proof {
            lemma_insert_at_range(f2, r2, f2[node as int], 0);
        }
        merge(f2, p2, i2, with_node(f2, r2, node as int))
    }
}

/// The tree (parents and sides) that `huffman` builds for `symbols`.
pub open spec fn huffman_tree(symbols: Seq<(usize, usize)>) -> (Seq<Option<usize>>, Seq<bool>) {
    let n = symbols.len() as int;
    let (f, r) = leaves(symbols, n);
    merge(f, Seq::new(n as nat, |_i: int| None::<usize>), Seq::new(n as nat, |_i: int| true), r)
}

/// Where `f` goes in `roots`, kept in descending order of frequency: after
/// every node whose frequency is at least `f`.
fn insert_sorted(roots: &mut Vec<usize>, freqs: &Vec<usize>, node: usize)
    requires
        forall|k: int| 0 <= k < old(roots)@.len() ==> (#[trigger] old(roots)@[k]) < freqs@.len(),
        node < freqs@.len(),
    ensures
        exists|p: int| 0 <= p <= old(roots)@.len() && final(roots)@ == old(roots)@.insert(p, node),
        final(roots)@ == with_node(freqs@, old(roots)@, node as int),
        forall|k: int| 0 <= k < final(roots)@.len() ==> (#[trigger] final(roots)@[k]) < freqs@.len(),
{
    let f = freqs[node];
    let mut p: usize = 0;
    while p < roots.len() && freqs[roots[p]] >= f
        invariant
            p <= roots@.len(),
            roots@ == old(roots)@,
            forall|k: int| 0 <= k < roots@.len() ==> (#[trigger] roots@[k]) < freqs@.len(),
            f == freqs@[node as int],
            insert_at(freqs@, roots@, f, 0) == insert_at(freqs@, roots@, f, p as int),
        decreases roots@.len() - p,
    {
        p = p + 1;
    }
    roots.insert(p, node);
    assert forall|k: int| 0 <= k < roots@.len() implies (#[trigger] roots@[k]) < freqs@.len() by {
        if k < p {
            assert(roots@[k] == old(roots)@[k]);
        } else if k > p {
            assert(roots@[k] == old(roots)@[k - 1]);
        }
    }
}

/// Builds a Huffman code for `symbols` (symbol, frequency): the two least
/// frequent trees are joined under a new node, the later-listed one on the
/// right, until one tree is left. Returns each symbol with its frequency and
/// its code, the bits from the root down, in input order.
pub fn huffman(symbols: Vec<(usize, usize)>) -> (r: Vec<(usize, usize, Vec<u8>)>)
    requires
        total_freq(symbols@) <= usize::MAX,
    ensures
        r@.len() == symbols@.len(),
        forall|i: int| 0 <= i < r@.len() ==> (#[trigger] r@[i]).0 == symbols@[i].0 && r@[i].1 == symbols@[i].1,
        forall|i: int, b: int| 0 <= i < r@.len() && 0 <= b < r@[i].2@.len() ==> #[trigger] r@[i].2@[b] <= 1,
        forall|i: int, j: int| 0 <= i < r@.len() && 0 <= j < r@.len() && i != j ==>
            !(#[trigger] r@[i].2@.len() <= #[trigger] r@[j].2@.len() && r@[j].2@.subrange(0, r@[i].2@.len() as int) == r@[i].2@),
        r@.len() >= 2 ==> forall|i: int| 0 <= i < r@.len() ==> (#[trigger] r@[i]).2@.len() >= 1,
        forall|i: int| 0 <= i < r@.len() ==>
            (#[trigger] r@[i]).2@ == bits_from(huffman_tree(symbols@).0, huffman_tree(symbols@).1, i),
{
    let n = symbols.len();
    let mut freqs: Vec<usize> = Vec::new();
    let mut parent: Vec<Option<usize>> = Vec::new();
    let mut isright: Vec<bool> = Vec::new();
    let mut roots: Vec<usize> = Vec::new();
    let mut i: usize = 0;
    while i < n
        invariant
            n == symbols@.len(),
            i <= n,
            freqs@.len() == i,
            parent@.len() == i,
            isright@.len() == i,
            forall|k: int| 0 <= k < i ==> freqs@[k] == symbols@[k].1,
            forall|k: int| 0 <= k < i ==> (#[trigger] parent@[k]).is_none(),
            forall|k: int| 0 <= k < roots@.len() ==> (#[trigger] roots@[k]) < freqs@.len(),
            root_sum(freqs@, roots@) == total_freq(symbols@.subrange(0, i as int)),
            total_freq(symbols@) <= usize::MAX,
            roots@.len() == i,
            forest(parent@, isright@, roots@, n as int),
            (freqs@, roots@) == leaves(symbols@, i as int),
            parent@ == Seq::new(i as nat, |_i: int| None::<usize>),
            isright@ == Seq::new(i as nat, |_i: int| true),
        decreases n - i,
    {
        let ghost pre_roots = roots@;
        let ghost pre_freqs = freqs@;
        proof {
            assert forall|x: int| 0 <= x < pre_roots.len() implies (#[trigger] pre_roots[x]) < i by {}
        }
        freqs.push(symbols[i].1);
        parent.push(None);
        isright.push(true);
        assert(parent@ =~= Seq::new((i + 1) as nat, |_i: int| None::<usize>));
        assert(isright@ =~= Seq::new((i + 1) as nat, |_i: int| true));
        proof {
            lemma_root_sum_frame(pre_freqs, freqs@, pre_roots);
        }
        insert_sorted(&mut roots, &freqs, i);
        proof {
            let p = choose|p: int| 0 <= p <= pre_roots.len() && roots@ == pre_roots.insert(p, i);
            lemma_root_sum_insert(freqs@, pre_roots, p, i);
            let s = symbols@.subrange(0, i + 1);
            assert(s.drop_last() =~= symbols@.subrange(0, i as int));
            assert forall|x: int| 0 <= x < roots@.len() implies #[trigger] roots@[x] == if x < p { pre_roots[x] } else if x == p { i } else { pre_roots[x - 1] } by {}
            assert forall|x: int, y: int| 0 <= x < y < roots@.len() implies #[trigger] roots@[x] != #[trigger] roots@[y] by {
                if x != p && y != p {
                    let x0 = if x < p { x } else { x - 1 };
                    let y0 = if y < p { y } else { y - 1 };
                    assert(pre_roots[x0] != pre_roots[y0]);
                }
            }
            assert forall|k: int| 0 <= k < parent@.len() implies (#[trigger] parent@[k]).is_none() == roots@.contains(k as usize) by {
                if k < i {
                    assert(pre_roots.contains(k as usize));
                    let x = choose|x: int| 0 <= x < pre_roots.len() && pre_roots[x] == k as usize;
                    if x < p { assert(roots@[x] == k as usize); } else { assert(roots@[x + 1] == k as usize); }
                } else {
                    assert(roots@[p] == k as usize);
                }
            }
        }
        i = i + 1;
    }
    assert(symbols@.subrange(0, n as int) =~= symbols@);
    let ghost tree = huffman_tree(symbols@);
    assert(merge(freqs@, parent@, isright@, roots@) == tree);
    while roots.len() >= 2
        invariant
            n == symbols@.len(),
            n <= freqs@.len(),
            freqs@.len() == parent@.len(),
            freqs@.len() == isright@.len(),
            forall|k: int| 0 <= k < n ==> freqs@[k] == symbols@[k].1,
            forall|k: int| 0 <= k < roots@.len() ==> (#[trigger] roots@[k]) < freqs@.len(),
            forall|k: int| 0 <= k < parent@.len() && (#[trigger] parent@[k]).is_some() ==>
                k < parent@[k].unwrap() < parent@.len(),
            root_sum(freqs@, roots@) == total_freq(symbols@),
            total_freq(symbols@) <= usize::MAX,
            forest(parent@, isright@, roots@, n as int),
            n > 0 ==> roots@.len() >= 1,
            merge(freqs@, parent@, isright@, roots@) == tree,
        decreases roots@.len(),
    {
        let ghost r0 = roots@;
        let ri = roots.pop().unwrap();
        let ghost r1 = roots@;
        let li = roots.pop().unwrap();
        let ghost r2 = roots@;
        proof {
            assert(r0.drop_last() =~= r1);
            assert(r1.drop_last() =~= r2);
            assert(r0.last() == ri);
            assert(r1.last() == li);
            assert(root_sum(freqs@, r0) == root_sum(freqs@, r1) + freqs@[ri as int]);
            assert(root_sum(freqs@, r1) == root_sum(freqs@, r2) + freqs@[li as int]);
            lemma_root_sum_nonneg(freqs@, r2);
            assert forall|k: int| 0 <= k < r2.len() implies (#[trigger] r2[k]) < freqs@.len() by {
                assert(r2[k] == r0[k]);
            }
        }
        let sum = freqs[ri] + freqs[li];
        let parent_i = freqs.len();
        let ghost old_parent = parent@;
        let ghost old_isr = isright@;
        let ghost old_freqs = freqs@;
        let ghost pre_freqs = freqs@;
        freqs.push(sum);
        parent.push(None);
        isright.push(true);
        parent.set(ri, Some(parent_i));
        isright.set(ri, true);
        parent.set(li, Some(parent_i));
        isright.set(li, false);
        proof {
            lemma_root_sum_frame(pre_freqs, freqs@, r2);
            assert forall|k: int| 0 <= k < parent@.len() && (#[trigger] parent@[k]).is_some() implies
                k < parent@[k].unwrap() < parent@.len() by {
            }
        }
        insert_sorted(&mut roots, &freqs, parent_i);
        let plen = parent.len();
        proof {
            let p = choose|p: int| 0 <= p <= r2.len() && roots@ == r2.insert(p, parent_i);
            lemma_root_sum_insert(freqs@, r2, p, parent_i);
            let pp = old_parent;
            let np = parent@;
            let big = parent_i as int;
            assert(r0 == r2.push(li).push(ri)) by {
                assert(r0 =~= r2.push(li).push(ri));
            }
            assert(ri != li) by {
                assert(r0[r0.len() - 1] == ri && r0[r0.len() - 2] == li);
            }
            assert(pp[ri as int].is_none() && pp[li as int].is_none()) by {
                assert(r0[r0.len() - 1] == ri);
                assert(r0.contains(ri));
                assert(r0[r0.len() - 2] == li);
                assert(r0.contains(li));
            }
            assert forall|k: int| 0 <= k < np.len() implies #[trigger] np[k] == if k == ri as int || k == li as int {
                Some(parent_i)
            } else if k == big {
                None::<usize>
            } else {
                pp[k]
            } by {}
            assert forall|x: int| 0 <= x < roots@.len() implies #[trigger] roots@[x] == if x < p { r2[x] } else if x == p { parent_i } else { r2[x - 1] } by {}
            assert forall|x: int| 0 <= x < r2.len() implies (#[trigger] r2[x]) != ri && r2[x] != li && r2[x] < big by {
                assert(r2[x] == r0[x]);
                assert(r0[x] != r0[r0.len() - 1]);
                assert(r0[x] != r0[r0.len() - 2]);
            }
            assert forall|x: int, y: int| 0 <= x < y < roots@.len() implies #[trigger] roots@[x] != #[trigger] roots@[y] by {
                if x != p && y != p {
                    let x0 = if x < p { x } else { x - 1 };
                    let y0 = if y < p { y } else { y - 1 };
                    assert(r0[x0] != r0[y0]);
                }
            }
            assert forall|k: int| 0 <= k < np.len() implies (#[trigger] np[k]).is_none() == roots@.contains(k as usize) by {
                if k == big {
                    assert(roots@[p] == k as usize);
                } else if k == ri as int || k == li as int {
                    if roots@.contains(k as usize) {
                        let x = choose|x: int| 0 <= x < roots@.len() && roots@[x] == k as usize;
                    }
                } else {
                    if pp[k].is_none() {
                        assert(r0.contains(k as usize));
                        let x = choose|x: int| 0 <= x < r0.len() && r0[x] == k as usize;
                        assert(x < r2.len());
                        if x < p { assert(roots@[x] == k as usize); } else { assert(roots@[x + 1] == k as usize); }
                    } else {
                        if roots@.contains(k as usize) {
                            let x = choose|x: int| 0 <= x < roots@.len() && roots@[x] == k as usize;
                            let x0 = if x < p { x } else { x - 1 };
                            assert(r0[x0] == k as usize);
                        }
                    }
                }
            }
            assert forall|a: int, b: int| 0 <= a < np.len() && 0 <= b < np.len() && a != b && (#[trigger] np[a]).is_some()
                && #[trigger] np[b] == np[a] implies isright@[a] != isright@[b] by {
                if np[a] == Some(parent_i) {
                    if !(a == ri as int || a == li as int) {
                        assert(pp[a].unwrap() < big);
                    }
                    if !(b == ri as int || b == li as int) {
                        assert(pp[b].unwrap() < big);
                    }
                } else {
                    assert(pp[a] == np[a] && pp[b] == np[b]);
                }
            }
            assert(np.len() == plen);
            assert forall|k: int| 0 <= k < np.len() && (#[trigger] np[k]).is_some() implies
                k < np[k].unwrap() < np.len() && n <= np[k].unwrap() by {
                if !(k == ri as int || k == li as int) {
                    assert(np[k] == pp[k]);
                    assert(k < big);
                    assert(pp[k].is_some());
                }
            }
            assert forall|x: int| 0 <= x < roots@.len() implies (#[trigger] roots@[x]) < np.len() by {}
            assert(forest(parent@, isright@, roots@, n as int));
            assert(r0.last() == ri && r0.drop_last().last() == li && r0.drop_last().drop_last() == r2);
            assert(freqs@ =~= old_freqs.push((old_freqs[ri as int] + old_freqs[li as int]) as usize));
            assert(parent@ =~= old_parent.push(None).update(ri as int, Some(parent_i)).update(li as int, Some(parent_i)));
            assert(isright@ =~= old_isr.push(true).update(ri as int, true).update(li as int, false));
            assert(merge(old_freqs, old_parent, old_isr, r0) == merge(freqs@, parent@, isright@, roots@));
        }
    }
    let mut table: Vec<(usize, usize, Vec<u8>)> = Vec::new();
    let mut i: usize = 0;
    while i < n
        invariant
            n == symbols@.len(),
            n <= parent@.len(),
            parent@.len() == isright@.len(),
            forall|k: int| 0 <= k < parent@.len() && (#[trigger] parent@[k]).is_some() ==>
                k < parent@[k].unwrap() < parent@.len(),
            i <= n,
            table@.len() == i,
            forall|k: int| 0 <= k < i ==> (#[trigger] table@[k]).0 == symbols@[k].0 && table@[k].1 == symbols@[k].1,
            forall|k: int, b: int| 0 <= k < i && 0 <= b < table@[k].2@.len() ==> #[trigger] table@[k].2@[b] <= 1,
            forall|k: int| 0 <= k < i ==> (#[trigger] table@[k]).2@ == bits_from(parent@, isright@, k),
            forest(parent@, isright@, roots@, n as int),
            n > 0 ==> roots@.len() == 1,
            (parent@, isright@) == tree,
            tree == huffman_tree(symbols@),
        decreases n - i,
    {
        let mut code: Vec<u8> = Vec::new();
        assert(bits_from(parent@, isright@, i as int) =~= bits_from(parent@, isright@, i as int) + code@);
        let mut j: usize = i;
        while parent[j].is_some()
            invariant
                j < parent@.len(),
                parent@.len() == isright@.len(),
                forall|k: int| 0 <= k < parent@.len() && (#[trigger] parent@[k]).is_some() ==>
                    k < parent@[k].unwrap() < parent@.len(),
                forall|b: int| 0 <= b < code@.len() ==> #[trigger] code@[b] <= 1,
                bits_from(parent@, isright@, i as int) == bits_from(parent@, isright@, j as int) + code@,
            decreases parent@.len() - j,
        {
            let bit: u8 = if isright[j] { 1 } else { 0 };
            let ghost before = code@;
            code.insert(0, bit);
            proof {
                let pj = parent@[j as int].unwrap() as int;
                assert(bits_from(parent@, isright@, j as int) == bits_from(parent@, isright@, pj) + seq![bit]);
                assert(code@ =~= seq![bit] + before);
                assert(bits_from(parent@, isright@, i as int) =~= bits_from(parent@, isright@, pj) + code@);
            }
            assert forall|b: int| 0 <= b < code@.len() implies #[trigger] code@[b] <= 1 by {
                if b > 0 {
                    assert(code@[b] == code@.subrange(1, code@.len() as int)[b - 1]);
                }
            }
            j = parent[j].unwrap();
        }
        assert(bits_from(parent@, isright@, j as int) =~= Seq::<u8>::empty());
        assert(code@ =~= bits_from(parent@, isright@, i as int));
        let (sym, freq) = symbols[i];
        table.push((sym, freq, code));
        i = i + 1;
    }
    proof {
        if n > 0 {
            assert forall|a: int, b: int| 0 <= a < table@.len() && 0 <= b < table@.len() && a != b implies
                !(#[trigger] table@[a].2@.len() <= #[trigger] table@[b].2@.len()
                    && table@[b].2@.subrange(0, table@[a].2@.len() as int) == table@[a].2@) by {
                lemma_prefix_free(parent@, isright@, roots@, n as int, a, b);
            }
            if n >= 2 {
                assert forall|a: int| 0 <= a < table@.len() implies (#[trigger] table@[a]).2@.len() >= 1 by {
                    let b = if a == 0 { 1int } else { 0int };
                    lemma_prefix_free(parent@, isright@, roots@, n as int, a, b);
                    if table@[a].2@.len() == 0 {
                        assert(table@[b].2@.subrange(0, 0) =~= table@[a].2@);
                    }
                }
            }
        }
    }
    table
}

/// Adding nodes at the end does not change the sum over existing roots.
proof fn lemma_root_sum_frame(a: Seq<usize>, b: Seq<usize>, roots: Seq<usize>)
    requires
        a.len() <= b.len(),
        forall|k: int| 0 <= k < a.len() ==> a[k] == b[k],
        forall|k: int| 0 <= k < roots.len() ==> (#[trigger] roots[k]) < a.len(),
    ensures
        root_sum(a, roots) == root_sum(b, roots),
    decreases roots.len(),
{
    if roots.len() > 0 {
        assert(roots[roots.len() - 1] == roots.last());
        lemma_root_sum_frame(a, b, roots.drop_last());
    }
}

} // verus!
