use crate::store::{has_value, insert_sorted, lemma_push_contains, strictly_sorted, symbols_sorted, without_values, DomainStore};
use vstd::prelude::*;

verus! {

/// Every value of `a` is a value of `b`.
pub open spec fn nested(a: Seq<usize>, b: Seq<usize>) -> bool {
    forall|v: usize| a.contains(v) ==> b.contains(v)
}

/// Symbols `i` and `j` are distinct, both have at most `tl` candidates, and
/// the candidates of one are among those of the other.
pub open spec fn related(d: Seq<Seq<usize>>, tl: int, i: int, j: int) -> bool {
    &&& i != j
    &&& d[i].len() <= tl
    &&& d[j].len() <= tl
    &&& (nested(d[i], d[j]) || nested(d[j], d[i]))
}

/// Position of the first cluster, from `k` on, that holds `a` or `b`, or the
/// number of clusters when none does.
pub open spec fn first_touch(cl: Seq<Set<usize>>, a: usize, b: usize, k: int) -> int
    decreases cl.len() - k,
{
    if k < 0 || k >= cl.len() {
        cl.len() as int
    } else if cl[k].contains(a) || cl[k].contains(b) {
        k
    } else {
        first_touch(cl, a, b, k + 1)
    }
}

/// Joins the pair `a`, `b` to the first cluster that touches it, or opens a
/// new cluster with the pair.
pub open spec fn absorb(cl: Seq<Set<usize>>, a: usize, b: usize) -> Seq<Set<usize>> {
    let k = first_touch(cl, a, b, 0);
    if k < cl.len() {
        cl.update(k, cl[k].insert(a).insert(b))
    } else {
        cl.push(set![a, b])
    }
}

/// Clusters after the pairs `(i, 0)` up to `(i, j - 1)` have been looked at,
/// starting from `cl`.
pub open spec fn scan_row(d: Seq<Seq<usize>>, tl: int, i: int, j: int, cl: Seq<Set<usize>>) -> Seq<
    Set<usize>,
>
    decreases j,
{
    if j <= 0 {
        cl
    } else {
        let prev = scan_row(d, tl, i, j - 1, cl);
        if related(d, tl, i, j - 1) {
            absorb(prev, i as usize, (j - 1) as usize)
        } else {
            prev
        }
    }
}

/// Clusters after every pair whose first symbol comes before `i`.
pub open spec fn scan(d: Seq<Seq<usize>>, tl: int, i: int) -> Seq<Set<usize>>
    decreases i,
{
    if i <= 0 {
        Seq::empty()
    } else {
        scan_row(d, tl, i - 1, d.len() as int, scan(d, tl, i - 1))
    }
}

/// The clusters of symbols, by position, that are chained by `related` pairs,
/// every ordered pair taken in turn.
pub open spec fn real_subsets(d: Seq<Seq<usize>>, tl: int) -> Seq<Set<usize>> {
    scan(d, tl, d.len() as int)
}

/// The clusters that increasing lists of positions stand for.
pub open spec fn cluster_sets(r: Seq<Vec<usize>>) -> Seq<Set<usize>> {
    Seq::new(r.len(), |k: int| r[k]@.to_set())
}

/// Each cluster is an increasing list of positions below `n`.
pub open spec fn clusters_ok(r: Seq<Vec<usize>>, n: int) -> bool {
    forall|k: int|
        0 <= k < r.len() ==> strictly_sorted(#[trigger] r[k]@) && (forall|m: int|
            0 <= m < r[k]@.len() ==> r[k]@[m] < n)
}

proof fn lemma_first_touch_skip(cl: Seq<Set<usize>>, a: usize, b: usize, k: int)
    requires
        0 <= k <= cl.len(),
        forall|m: int| 0 <= m < k ==> !(#[trigger] cl[m]).contains(a) && !cl[m].contains(b),
    ensures
        first_touch(cl, a, b, 0) == first_touch(cl, a, b, k),
    decreases k,
{
    if k > 0 {
        lemma_first_touch_skip(cl, a, b, k - 1);
        assert(!cl[k - 1].contains(a) && !cl[k - 1].contains(b));
    }
}

/// Joins the pair `a`, `b` to the first cluster that holds either, or adds
/// the pair as a new cluster.
fn absorb_pair(cl: &mut Vec<Vec<usize>>, a: usize, b: usize, n: usize)
    requires
        clusters_ok(old(cl)@, n as int),
        a < n,
        b < n,
        a != b,
    ensures
        clusters_ok(final(cl)@, n as int),
        cluster_sets(final(cl)@) == absorb(cluster_sets(old(cl)@), a, b),
{
    let ghost cs = cluster_sets(cl@);
    let mut k: usize = 0;
    while k < cl.len() && !has_value(&cl[k], a) && !has_value(&cl[k], b)
        invariant
            k <= cl@.len(),
            cs == cluster_sets(cl@),
            forall|m: int| 0 <= m < k ==> !(#[trigger] cs[m]).contains(a) && !cs[m].contains(b),
        decreases cl.len() - k,
    {
        k += 1;
    }
    proof {
        lemma_first_touch_skip(cs, a, b, k as int);
    }
    let ghost before = cl@;
    if k < cl.len() {
        let mut c = cl.remove(k);
        let ghost c0 = c@;
        insert_sorted(&mut c, a);
        let ghost c1 = c@;
        insert_sorted(&mut c, b);
        proof {
            assert(c0 == before[k as int]@);
            assert forall|m: int| 0 <= m < c@.len() implies c@[m] < n by {
                assert(c@.contains(c@[m]));
                if c1.contains(c@[m]) && c0.contains(c@[m]) {
                    let q = choose|q: int| 0 <= q < c0.len() && c0[q] == c@[m];
                }
            }
        }
        cl.insert(k, c);
        assert(cl@ =~= before.update(k as int, c));
        assert(cluster_sets(cl@) =~= cs.update(k as int, cs[k as int].insert(a).insert(b)));
    } else {
        let pair = if a < b {
            vec![a, b]
        } else {
            vec![b, a]
        };
        cl.push(pair);
        assert(cl@ =~= before.push(pair));
        assert(pair@.to_set() =~= set![a, b]) by {
            assert(pair@.contains(pair@[0]) && pair@.contains(pair@[1]));
        }
        assert(cluster_sets(cl@) =~= cs.push(set![a, b]));
    }
}

/// Whether every value of `a` is a value of `b`.
fn is_nested(a: &Vec<usize>, b: &Vec<usize>) -> (r: bool)
    ensures
        r == nested(a@, b@),
{
    let mut k: usize = 0;
    while k < a.len()
        invariant
            k <= a.len(),
            forall|m: int| 0 <= m < k ==> b@.contains(#[trigger] a@[m]),
        decreases a.len() - k,
    {
        if !has_value(b, a[k]) {
            assert(a@.contains(a@[k as int]));
            return false;
        }
        k += 1;
    }
    assert forall|v: usize| a@.contains(v) implies b@.contains(v) by {
        let m = choose|m: int| 0 <= m < a@.len() && a@[m] == v;
        assert(b@.contains(a@[m]));
    }
    true
}

/// The clusters of `real_subsets`, as increasing lists of symbol positions.
pub fn subset_positions(candidates: &DomainStore, tuple_len: usize) -> (r: Vec<Vec<usize>>)
    requires
        candidates.wf(),
    ensures
        clusters_ok(r@, candidates.symbols@.len() as int),
        cluster_sets(r@) == real_subsets(candidates.doms(), tuple_len as int),
{
    let ghost d = candidates.doms();
    let ghost tl = tuple_len as int;
    let n = candidates.domains.len();
    let mut cl: Vec<Vec<usize>> = Vec::new();
    let mut i: usize = 0;
    assert(cluster_sets(cl@) =~= scan(d, tl, 0));
    while i < n
        invariant
            i <= n,
            n == d.len(),
            tl == tuple_len,
            d == candidates.doms(),
            candidates.wf(),
            clusters_ok(cl@, n as int),
            cluster_sets(cl@) == scan(d, tl, i as int),
        decreases n - i,
    {
        let ghost start = scan(d, tl, i as int);
        let mut j: usize = 0;
        while j < n
            invariant
                j <= n,
                i < n,
                n == d.len(),
                tl == tuple_len,
                d == candidates.doms(),
                candidates.wf(),
                clusters_ok(cl@, n as int),
                cluster_sets(cl@) == scan_row(d, tl, i as int, j as int, start),
            decreases n - j,
        {
            proof {
                assert(d[i as int] == candidates.domains@[i as int]@);
                assert(d[j as int] == candidates.domains@[j as int]@);
            }
            let ghost prev = cluster_sets(cl@);
            let di = &candidates.domains[i];
            let dj = &candidates.domains[j];
            let linked = i != j && di.len() <= tuple_len && dj.len() <= tuple_len && (is_nested(
                di,
                dj,
            ) || is_nested(dj, di));
            assert(linked == related(d, tl, i as int, j as int));
            if linked {
                absorb_pair(&mut cl, i, j, n);
            }
            assert(scan_row(d, tl, i as int, j + 1, start) == if related(d, tl, i as int, j as int) {
                absorb(prev, i, j)
            } else {
                prev
            });
            j += 1;
        }
        i += 1;
    }
    cl
}

/// Groups of symbols with at most `tuple_len` candidates each, chained by
/// pairs where the candidates of one symbol are among those of the other.
/// Every ordered pair of distinct such symbols is taken in turn; a pair joins
/// the first group that holds either of its symbols, else it opens a new
/// group. Each group lists its symbols in increasing order.
pub fn get_real_subsets(candidates: &DomainStore, tuple_len: usize) -> (r: Vec<Vec<char>>)
    requires
        candidates.wf(),
    ensures
        r@.len() == real_subsets(candidates.doms(), tuple_len as int).len(),
        forall|k: int|
            0 <= k < r@.len() ==> symbols_sorted(#[trigger] r@[k]@) && r@[k]@.to_set()
                == real_subsets(candidates.doms(), tuple_len as int)[k].map(
                |i: usize| candidates.symbols@[i as int],
            ),
{
    let pos = subset_positions(candidates, tuple_len);
    let ghost cs = cluster_sets(pos@);
    let ghost syms = candidates.symbols@;
    let mut r: Vec<Vec<char>> = Vec::new();
    let mut k: usize = 0;
    while k < pos.len()
        invariant
            k <= pos@.len(),
            cs == cluster_sets(pos@),
            syms == candidates.symbols@,
            candidates.wf(),
            clusters_ok(pos@, syms.len() as int),
            r@.len() == k,
            forall|q: int|
                0 <= q < k ==> symbols_sorted(#[trigger] r@[q]@) && r@[q]@.to_set() == cs[q].map(
                    |i: usize| syms[i as int],
                ),
        decreases pos.len() - k,
    {
        let c = &pos[k];
        let mut names: Vec<char> = Vec::new();
        let mut m: usize = 0;
        assert(strictly_sorted(c@));
        while m < c.len()
            invariant
                m <= c@.len(),
                c == pos@[k as int],
                strictly_sorted(c@),
                forall|q: int| 0 <= q < c@.len() ==> c@[q] < syms.len(),
                syms == candidates.symbols@,
                candidates.wf(),
                names@ == c@.subrange(0, m as int).map_values(|i: usize| syms[i as int]),
            decreases c.len() - m,
        {
            names.push(candidates.symbols[c[m]]);
            assert(c@.subrange(0, m + 1).map_values(|i: usize| syms[i as int]) =~= c@.subrange(
                0,
                m as int,
            ).map_values(|i: usize| syms[i as int]).push(syms[c@[m as int] as int]));
            m += 1;
        }
        proof {
            assert(c@.subrange(0, c@.len() as int) == c@);
            c@.lemma_to_set_map_commutes(|i: usize| syms[i as int]);
            assert forall|a: int, b: int| 0 <= a < b < names@.len() implies names@[a] < names@[b] by {
                assert(c@[a] < c@[b]);
            }
        }
        r.push(names);
        k += 1;
    }
    r
}

/// All candidates of the symbols at the positions in `c`.
pub open spec fn union_of(d: Seq<Seq<usize>>, c: Set<usize>) -> Set<usize> {
    Set::new(|v: usize| exists|i: usize| c.contains(i) && i < d.len() && #[trigger] d[i as int].contains(v))
}

/// `c` is a hidden tuple of size `k`: `k` symbols whose candidates together
/// are exactly `k` values.
pub open spec fn is_hidden(d: Seq<Seq<usize>>, c: Set<usize>, k: int) -> bool {
    &&& c.len() == k
    &&& union_of(d, c).finite()
    &&& union_of(d, c).len() == k
}

/// Removes the candidates of the symbols in `c` from every other symbol.
pub open spec fn strip(d: Seq<Seq<usize>>, c: Set<usize>) -> Seq<Seq<usize>> {
    Seq::new(
        d.len(),
        |i: int|
            if c.contains(i as usize) {
                d[i]
            } else {
                d[i].filter(|v: usize| !union_of(d, c).contains(v))
            },
    )
}

/// The first `m` clusters of `cs` applied in turn: each hidden tuple of size
/// `k`, judged on the candidates as they stand when its turn comes, is
/// stripped from the other symbols.
pub open spec fn apply_tuples(d: Seq<Seq<usize>>, cs: Seq<Set<usize>>, k: int, m: int) -> Seq<
    Seq<usize>,
>
    decreases m,
{
    if m <= 0 {
        d
    } else {
        let p = apply_tuples(d, cs, k, m - 1);
        if is_hidden(p, cs[m - 1], k) {
            strip(p, cs[m - 1])
        } else {
            p
        }
    }
}

/// One tuple size of the hidden-subset pass.
pub open spec fn hidden_round(d: Seq<Seq<usize>>, k: int) -> Seq<Seq<usize>> {
    apply_tuples(d, real_subsets(d, k), k, real_subsets(d, k).len() as int)
}

/// Tuple sizes from `k` down to 2, largest first.
pub open spec fn hidden_pass_from(d: Seq<Seq<usize>>, k: int) -> Seq<Seq<usize>>
    decreases k,
{
    if k < 2 {
        d
    } else {
        hidden_pass_from(hidden_round(d, k), k - 1)
    }
}

/// The hidden-subset pass over `n` symbols: tuple sizes from `n - 2` down to 2.
pub open spec fn hidden_pass(d: Seq<Seq<usize>>) -> Seq<Seq<usize>> {
    hidden_pass_from(d, d.len() - 2)
}

/// The candidates of the symbols at the positions in `c`, as an increasing list.
fn union_list(candidates: &DomainStore, c: &Vec<usize>) -> (u: Vec<usize>)
    requires
        candidates.wf(),
        forall|q: int| 0 <= q < c@.len() ==> c@[q] < candidates.symbols@.len(),
    ensures
        strictly_sorted(u@),
        u@.to_set() == union_of(candidates.doms(), c@.to_set()),
{
    let ghost d = candidates.doms();
    let mut u: Vec<usize> = Vec::new();
    let mut m: usize = 0;
    while m < c.len()
        invariant
            m <= c@.len(),
            d == candidates.doms(),
            candidates.wf(),
            forall|q: int| 0 <= q < c@.len() ==> c@[q] < candidates.symbols@.len(),
            strictly_sorted(u@),
            forall|v: usize|
                u@.contains(v) <==> exists|q: int|
                    0 <= q < m && #[trigger] d[c@[q] as int].contains(v),
        decreases c.len() - m,
    {
        let ci = c[m];
        let dom = &candidates.domains[ci];
        assert(dom@ == d[ci as int]);
        let mut t: usize = 0;
        while t < dom.len()
            invariant
                t <= dom@.len(),
                m < c@.len(),
                ci == c@[m as int],
                dom@ == d[ci as int],
                strictly_sorted(u@),
                forall|v: usize|
                    u@.contains(v) <==> (exists|q: int|
                        0 <= q < m && #[trigger] d[c@[q] as int].contains(v)) || dom@.subrange(
                        0,
                        t as int,
                    ).contains(v),
            decreases dom.len() - t,
        {
            let ghost before = u@;
            insert_sorted(&mut u, dom[t]);
            proof {
                assert forall|v: usize|
                    u@.contains(v) <==> (exists|q: int|
                        0 <= q < m && #[trigger] d[c@[q] as int].contains(v)) || dom@.subrange(
                        0,
                        t + 1,
                    ).contains(v) by {
                    assert(u@.to_set().contains(v) == u@.contains(v));
                    assert(before.to_set().contains(v) == before.contains(v));
                    assert(dom@.subrange(0, t + 1) == dom@.subrange(0, t as int).push(dom@[t as int]));
                    lemma_push_contains(dom@.subrange(0, t as int), dom@[t as int], v);
                }
            }
            t += 1;
        }
        proof {
            assert(dom@.subrange(0, dom@.len() as int) == dom@);
            assert forall|v: usize|
                u@.contains(v) <==> exists|q: int|
                    0 <= q < m + 1 && #[trigger] d[c@[q] as int].contains(v) by {
                if u@.contains(v) && dom@.contains(v) {
                    assert(d[c@[m as int] as int].contains(v));
                }
            }
        }
        m += 1;
    }
    proof {
        assert forall|v: usize| u@.to_set().contains(v) == union_of(d, c@.to_set()).contains(v) by {
            if u@.contains(v) {
                let q = choose|q: int| 0 <= q < c@.len() && #[trigger] d[c@[q] as int].contains(v);
                assert(c@.to_set().contains(c@[q]));
            }
            if union_of(d, c@.to_set()).contains(v) {
                let i = choose|i: usize|
                    c@.to_set().contains(i) && i < d.len() && #[trigger] d[i as int].contains(v);
                let q = choose|q: int| 0 <= q < c@.len() && c@[q] == i;
                assert(d[c@[q] as int].contains(v));
            }
        }
        assert(u@.to_set() =~= union_of(d, c@.to_set()));
    }
    u
}

/// Strips the candidates of the cluster `c` from every other symbol when `c`
/// is a hidden tuple of size `k`; otherwise leaves the store as it is.
fn apply_cluster(candidates: &mut DomainStore, c: &Vec<usize>, k: usize)
    requires
        old(candidates).wf(),
        strictly_sorted(c@),
        forall|q: int| 0 <= q < c@.len() ==> c@[q] < old(candidates).symbols@.len(),
    ensures
        final(candidates).wf(),
        final(candidates).symbols@ == old(candidates).symbols@,
        final(candidates).doms() == if is_hidden(old(candidates).doms(), c@.to_set(), k as int) {
            strip(old(candidates).doms(), c@.to_set())
        } else {
            old(candidates).doms()
        },
{
    let ghost d = candidates.doms();
    let ghost cset = c@.to_set();
    proof {
        lemma_sorted_len(c@);
    }
    if c.len() != k {
        return;
    }
    let u = union_list(candidates, c);
    proof {
        lemma_sorted_len(u@);
    }
    if u.len() != k {
        return;
    }
    proof {
        vstd::seq_lib::seq_to_set_is_finite(u@);
    }
    assert(is_hidden(d, cset, k as int));
    let n = candidates.domains.len();
    let mut i: usize = 0;
    while i < n
        invariant
            i <= n,
            n == d.len(),
            candidates.wf(),
            candidates.symbols@ == old(candidates).symbols@,
            candidates.domains@.len() == n,
            u@.to_set() == union_of(d, cset),
            cset == c@.to_set(),
            forall|m: int| 0 <= m < i ==> #[trigger] candidates.doms()[m] == strip(d, cset)[m],
            forall|m: int| i <= m < n ==> #[trigger] candidates.doms()[m] == d[m],
        decreases n - i,
    {
        assert(candidates.doms()[i as int] == d[i as int]);
        if !has_value(c, i) {
            let kept = without_values(&candidates.domains[i], &u);
            proof {
                assert((|v: usize| !u@.contains(v)) =~= (|v: usize| !union_of(d, cset).contains(v)))
                    by {
                    assert forall|v: usize| u@.contains(v) == union_of(d, cset).contains(v) by {
                        assert(u@.to_set().contains(v) == u@.contains(v));
                    }
                }
            }
            let ghost before = candidates.doms();
            candidates.domains.set(i, kept);
            proof {
                assert forall|m: int| 0 <= m < n implies #[trigger] candidates.doms()[m] == if m
                    == i {
                    kept@
                } else {
                    before[m]
                } by {}
            }
        } else {
            assert(c@.to_set().contains(i));
        }
        i += 1;
    }
    assert(candidates.doms() =~= strip(d, cset));
}

/// The hidden-subset pass: for every tuple size from `n - 2` down to 2, with
/// `n` the number of symbols, the clusters of `get_real_subsets` are taken in
/// turn, and each one that is a hidden tuple has its values removed from every
/// symbol outside it.
pub fn remove_hidden_tuples(candidates: &mut DomainStore)
    requires
        old(candidates).wf(),
    ensures
        final(candidates).wf(),
        final(candidates).symbols@ == old(candidates).symbols@,
        final(candidates).doms() == hidden_pass(old(candidates).doms()),
{
    let n = candidates.domains.len();
    if n < 4 {
        return;
    }
    let mut k: usize = n - 2;
    while k >= 2
        invariant
            1 <= k <= n - 2,
            n == candidates.domains@.len(),
            candidates.wf(),
            candidates.symbols@ == old(candidates).symbols@,
            hidden_pass(old(candidates).doms()) == hidden_pass_from(candidates.doms(), k as int),
        decreases k,
    {
        let cl = subset_positions(candidates, k);
        let ghost start = candidates.doms();
        let ghost cs = cluster_sets(cl@);
        let mut m: usize = 0;
        while m < cl.len()
            invariant
                m <= cl@.len(),
                n == candidates.domains@.len(),
                clusters_ok(cl@, n as int),
                cs == cluster_sets(cl@),
                cs == real_subsets(start, k as int),
                candidates.wf(),
                candidates.symbols@ == old(candidates).symbols@,
                candidates.doms() == apply_tuples(start, cs, k as int, m as int),
            decreases cl.len() - m,
        {
            assert(strictly_sorted(cl@[m as int]@));
            apply_cluster(candidates, &cl[m], k);
            m += 1;
        }
        k -= 1;
    }
}

/// A strictly increasing list holds as many distinct values as entries.
pub proof fn lemma_sorted_len(s: Seq<usize>)
    requires
        strictly_sorted(s),
    ensures
        s.to_set().len() == s.len(),
{
    assert(s.no_duplicates()) by {
        assert forall|a: int, b: int| 0 <= a < s.len() && 0 <= b < s.len() && a != b implies s[a]
            != s[b] by {
            if a < b {
                assert(s[a] < s[b]);
            } else {
                assert(s[b] < s[a]);
            }
        }
    }
    s.unique_seq_to_set();
}

} // verus!
