use crate::bounds::{rows_fit, tighten_row, tighten_rows, tighten_term, RowView};
use crate::solver::{distinct, round, row_sum, satisfies, settle, solved, values_of};
use crate::store::all_single;
use crate::singles::singles_pass;
use crate::store::{doms_sorted, strictly_sorted};
use crate::tuples::{
    absorb, apply_tuples, first_touch, hidden_pass, hidden_pass_from, hidden_round, is_hidden, real_subsets,
    scan, scan_row, strip, union_of,
};
use vstd::prelude::*;

verus! {

/// `e` keeps the symbols of `d`, every candidate in `e` was one in `d`, and
/// increasing candidate lists stay increasing.
pub open spec fn shrinks(d: Seq<Seq<usize>>, e: Seq<Seq<usize>>) -> bool {
    &&& e.len() == d.len()
    &&& forall|i: int, v: usize| 0 <= i < d.len() && #[trigger] e[i].contains(v) ==> d[i].contains(v)
    &&& doms_sorted(d) ==> doms_sorted(e)
}

/// A filtered increasing list is an increasing part of it.
pub proof fn lemma_filter_sorted(s: Seq<usize>, p: spec_fn(usize) -> bool)
    ensures
        strictly_sorted(s) ==> strictly_sorted(s.filter(p)),
        forall|v: usize| #[trigger] s.filter(p).contains(v) ==> s.contains(v) && p(v),
    decreases s.len(),
{
    if s.len() > 0 {
        let init = s.drop_last();
        lemma_filter_sorted(init, p);
        let sub = init.filter(p);
        assert(s == init.push(s.last()));
        init.lemma_filter_push(s.last(), p);
        assert(s.filter(p) == if p(s.last()) {
            sub.push(s.last())
        } else {
            sub
        });
        assert forall|v: usize| #[trigger] s.filter(p).contains(v) implies s.contains(v) && p(v) by {
            if sub.contains(v) {
                let k = choose|k: int| 0 <= k < init.len() && init[k] == v;
                assert(s[k] == v);
            } else {
                crate::store::lemma_push_contains(sub, s.last(), v);
            }
        }
        if strictly_sorted(s) {
            assert(strictly_sorted(init));
            if p(s.last()) {
                assert forall|a: int, b: int| 0 <= a < b < s.filter(p).len() implies s.filter(p)[a]
                    < s.filter(p)[b] by {
                    if b < sub.len() {
                        assert(s.filter(p)[a] == sub[a] && s.filter(p)[b] == sub[b]);
                    } else {
                        assert(sub.contains(sub[a]));
                        let k = choose|k: int| 0 <= k < init.len() && init[k] == sub[a];
                        assert(s[k] < s[s.len() - 1]);
                    }
                }
            }
        }
    }
}

proof fn lemma_shrinks_trans(a: Seq<Seq<usize>>, b: Seq<Seq<usize>>, c: Seq<Seq<usize>>)
    requires
        shrinks(a, b),
        shrinks(b, c),
    ensures
        shrinks(a, c),
{
    assert forall|i: int, v: usize| 0 <= i < a.len() && #[trigger] c[i].contains(v) implies a[i].contains(
        v,
    ) by {
        assert(b[i].contains(v));
    }
}

proof fn lemma_singles_shrinks(d: Seq<Seq<usize>>)
    ensures
        shrinks(d, singles_pass(d)),
{
    let e = singles_pass(d);
    assert forall|i: int| 0 <= i < d.len() implies (strictly_sorted(d[i]) ==> strictly_sorted(
        #[trigger] e[i],
    )) && forall|v: usize| e[i].contains(v) ==> d[i].contains(v) by {
        lemma_filter_sorted(d[i], |v: usize| !crate::singles::claimed_by_single(d, i, v));
    }
}

proof fn lemma_strip_shrinks(d: Seq<Seq<usize>>, c: Set<usize>)
    ensures
        shrinks(d, strip(d, c)),
{
    let e = strip(d, c);
    assert forall|i: int| 0 <= i < d.len() implies (strictly_sorted(d[i]) ==> strictly_sorted(
        #[trigger] e[i],
    )) && forall|v: usize| e[i].contains(v) ==> d[i].contains(v) by {
        if !c.contains(i as usize) {
            lemma_filter_sorted(d[i], |v: usize| !crate::tuples::union_of(d, c).contains(v));
        }
    }
}

proof fn lemma_apply_tuples_shrinks(d: Seq<Seq<usize>>, cs: Seq<Set<usize>>, k: int, m: int)
    ensures
        shrinks(d, apply_tuples(d, cs, k, m)),
    decreases m,
{
    if m > 0 {
        let p = apply_tuples(d, cs, k, m - 1);
        lemma_apply_tuples_shrinks(d, cs, k, m - 1);
        lemma_strip_shrinks(p, cs[m - 1]);
        lemma_shrinks_trans(d, p, strip(p, cs[m - 1]));
    }
}

proof fn lemma_hidden_shrinks(d: Seq<Seq<usize>>, k: int)
    ensures
        shrinks(d, hidden_pass_from(d, k)),
    decreases k,
{
    if k >= 2 {
        let e = hidden_round(d, k);
        lemma_apply_tuples_shrinks(
            d,
            crate::tuples::real_subsets(d, k),
            k,
            crate::tuples::real_subsets(d, k).len() as int,
        );
        lemma_hidden_shrinks(e, k - 1);
        lemma_shrinks_trans(d, e, hidden_pass_from(e, k - 1));
    }
}

proof fn lemma_term_shrinks(d: Seq<Seq<usize>>, terms: Seq<(usize, usize)>, target: int, p: int)
    requires
        0 <= p < terms.len(),
        (terms[p].0 as int) < d.len(),
    ensures
        shrinks(d, tighten_term(d, terms, target, p)),
{
    let (low, taken) = crate::bounds::estimate(d, terms, p, terms.len() as int);
    let s = terms[p].0 as int;
    let f = terms[p].1 as int;
    lemma_filter_sorted(d[s], |v: usize| f * v + low <= target || taken.contains(v));
    let e = tighten_term(d, terms, target, p);
    assert forall|i: int| 0 <= i < d.len() implies (strictly_sorted(d[i]) ==> strictly_sorted(
        #[trigger] e[i],
    )) && forall|v: usize| e[i].contains(v) ==> d[i].contains(v) by {}
}

proof fn lemma_row_shrinks(d: Seq<Seq<usize>>, terms: Seq<(usize, usize)>, target: int, m: int)
    requires
        m <= terms.len(),
        forall|q: int| 0 <= q < terms.len() ==> ((#[trigger] terms[q]).0 as int) < d.len(),
    ensures
        shrinks(d, tighten_row(d, terms, target, m)),
    decreases m,
{
    if m > 0 {
        let p = tighten_row(d, terms, target, m - 1);
        lemma_row_shrinks(d, terms, target, m - 1);
        lemma_term_shrinks(p, terms, target, m - 1);
        lemma_shrinks_trans(d, p, tighten_term(p, terms, target, m - 1));
    }
}

proof fn lemma_rows_shrink(d: Seq<Seq<usize>>, rows: Seq<RowView>, m: int)
    requires
        m <= rows.len(),
        rows_fit(rows, d.len() as int),
    ensures
        shrinks(d, tighten_rows(d, rows, m)),
    decreases m,
{
    if m > 0 {
        let p = tighten_rows(d, rows, m - 1);
        lemma_rows_shrink(d, rows, m - 1);
        assert forall|q: int| 0 <= q < rows[m - 1].0.len() implies ((#[trigger] rows[m - 1].0[q]).0 as int)
            < p.len() by {}
        lemma_row_shrinks(p, rows[m - 1].0, rows[m - 1].1, rows[m - 1].0.len() as int);
        lemma_shrinks_trans(
            d,
            p,
            tighten_row(p, rows[m - 1].0, rows[m - 1].1, rows[m - 1].0.len() as int),
        );
    }
}

/// Monotonic shrink: after a round of propagation every candidate of a symbol
/// was already one of its candidates before, increasing lists stay increasing,
/// and no symbol has more candidates than before.
pub proof fn lemma_round_shrinks(d: Seq<Seq<usize>>, rows: Seq<RowView>)
    requires
        doms_sorted(d),
        rows_fit(rows, d.len() as int),
    ensures
        shrinks(d, round(d, rows)),
        forall|i: int| 0 <= i < d.len() ==> #[trigger] round(d, rows)[i].len() <= d[i].len(),
{
    let a = tighten_rows(d, rows, rows.len() as int);
    lemma_rows_shrink(d, rows, rows.len() as int);
    lemma_hidden_shrinks(a, a.len() - 2);
    let b = hidden_pass(a);
    lemma_shrinks_trans(d, a, b);
    lemma_singles_shrinks(b);
    lemma_shrinks_trans(d, b, singles_pass(b));
    let e = round(d, rows);
    assert forall|i: int| 0 <= i < d.len() implies #[trigger] e[i].len() <= d[i].len() by {
        lemma_sorted_part_len(d[i], e[i]);
    }
}

/// An increasing list whose values all occur in another increasing list is no
/// longer than it.
pub proof fn lemma_sorted_part_len(big: Seq<usize>, part: Seq<usize>)
    requires
        strictly_sorted(big),
        strictly_sorted(part),
        forall|v: usize| part.contains(v) ==> big.contains(v),
    ensures
        part.len() <= big.len(),
{
    crate::tuples::lemma_sorted_len(big);
    crate::tuples::lemma_sorted_len(part);
    assert(part.to_set().subset_of(big.to_set()));
    vstd::set_lib::lemma_len_subset(part.to_set(), big.to_set());
}

/// Monotonic shrink over any number of rounds: where propagation stops, every
/// candidate of a symbol was one of its candidates at the start.
pub proof fn lemma_settle_shrinks(d: Seq<Seq<usize>>, rows: Seq<RowView>, fuel: nat)
    requires
        doms_sorted(d),
        rows_fit(rows, d.len() as int),
    ensures
        shrinks(d, settle(d, rows, fuel)),
    decreases fuel,
{
    if fuel > 0 && !crate::store::all_single(d) {
        let e = round(d, rows);
        if e != d {
            lemma_round_shrinks(d, rows);
            lemma_settle_shrinks(e, rows, (fuel - 1) as nat);
            lemma_shrinks_trans(d, e, settle(e, rows, (fuel - 1) as nat));
        }
    }
}

/// `sol` gives each symbol a value among its candidates.
pub open spec fn consistent(d: Seq<Seq<usize>>, sol: Seq<usize>) -> bool {
    &&& sol.len() == d.len()
    &&& forall|i: int| 0 <= i < d.len() ==> #[trigger] d[i].contains(sol[i])
}

/// Clusters are finite sets of positions below `n`.
pub open spec fn clusters_valid(cs: Seq<Set<usize>>, n: int) -> bool {
    forall|k: int|
        0 <= k < cs.len() ==> (#[trigger] cs[k]).finite() && forall|i: usize| cs[k].contains(i) ==> i < n
}

proof fn lemma_absorb_valid(cl: Seq<Set<usize>>, a: usize, b: usize, n: int)
    requires
        clusters_valid(cl, n),
        a < n,
        b < n,
    ensures
        clusters_valid(absorb(cl, a, b), n),
{
    let k = first_touch(cl, a, b, 0);
    lemma_first_touch_range(cl, a, b, 0);
    if k < cl.len() {
        let e = absorb(cl, a, b);
        assert forall|q: int| 0 <= q < e.len() implies (#[trigger] e[q]).finite() && forall|i: usize|
            e[q].contains(i) ==> i < n by {
            if q != k {
                assert(e[q] == cl[q]);
            }
        }
    } else {
        let e = absorb(cl, a, b);
        assert forall|q: int| 0 <= q < e.len() implies (#[trigger] e[q]).finite() && forall|i: usize|
            e[q].contains(i) ==> i < n by {
            if q < cl.len() {
                assert(e[q] == cl[q]);
            }
        }
    }
}

proof fn lemma_first_touch_range(cl: Seq<Set<usize>>, a: usize, b: usize, k: int)
    requires
        0 <= k,
    ensures
        0 <= first_touch(cl, a, b, k) <= cl.len(),
    decreases cl.len() - k,
{
    if k < cl.len() && !(cl[k].contains(a) || cl[k].contains(b)) {
        lemma_first_touch_range(cl, a, b, k + 1);
    }
}

proof fn lemma_scan_row_valid(d: Seq<Seq<usize>>, tl: int, i: int, j: int, cl: Seq<Set<usize>>)
    requires
        0 <= i < d.len(),
        j <= d.len(),
        clusters_valid(cl, d.len() as int),
    ensures
        clusters_valid(scan_row(d, tl, i, j, cl), d.len() as int),
    decreases j,
{
    if j > 0 {
        lemma_scan_row_valid(d, tl, i, j - 1, cl);
        if crate::tuples::related(d, tl, i, j - 1) {
            lemma_absorb_valid(scan_row(d, tl, i, j - 1, cl), i as usize, (j - 1) as usize, d.len() as int);
        }
    }
}

/// The clusters of `real_subsets` are finite sets of symbol positions.
pub proof fn lemma_real_subsets_valid(d: Seq<Seq<usize>>, tl: int, i: int)
    requires
        i <= d.len(),
    ensures
        clusters_valid(scan(d, tl, i), d.len() as int),
    decreases i,
{
    if i > 0 {
        lemma_real_subsets_valid(d, tl, i - 1);
        lemma_scan_row_valid(d, tl, i - 1, d.len() as int, scan(d, tl, i - 1));
    }
}

/// Soundness of the naked-single pass: values that solve the puzzle, distinct
/// and among the candidates before, are still among them after.
pub proof fn lemma_singles_sound(d: Seq<Seq<usize>>, sol: Seq<usize>)
    requires
        consistent(d, sol),
        distinct(sol),
    ensures
        consistent(singles_pass(d), sol),
{
    broadcast use vstd::seq_lib::group_filter_ensures;

    let e = singles_pass(d);
    assert forall|i: int| 0 <= i < d.len() implies #[trigger] e[i].contains(sol[i]) by {
        let p = |v: usize| !crate::singles::claimed_by_single(d, i, v);
        if crate::singles::claimed_by_single(d, i, sol[i]) {
            let j = choose|j: int| 0 <= j < d.len() && j != i && #[trigger] d[j] == seq![sol[i]];
            assert(d[j].contains(sol[j]));
            assert(sol[j] == sol[i]);
        }
        assert(d[i].contains(sol[i]));
        let k = choose|k: int| 0 <= k < d[i].len() && d[i][k] == sol[i];
        assert(p(d[i][k]));
        assert(d[i].filter(p).contains(d[i][k]));
        assert(e[i] == d[i].filter(p));
    }
}

/// Soundness of removing a hidden tuple: `k` symbols whose candidates are
/// `k` values in all must take exactly those values, so no other symbol can
/// hold one of them.
pub proof fn lemma_strip_sound(d: Seq<Seq<usize>>, c: Set<usize>, k: int, sol: Seq<usize>)
    requires
        consistent(d, sol),
        distinct(sol),
        c.finite(),
        forall|i: usize| c.contains(i) ==> i < d.len(),
        is_hidden(d, c, k),
    ensures
        consistent(strip(d, c), sol),
{
    broadcast use vstd::seq_lib::group_filter_ensures;

    let u = union_of(d, c);
    let f = |i: usize| sol[i as int];
    let t = c.map(f);
    assert(vstd::relations::injective_on(f, c)) by {
        assert forall|x: usize, y: usize| c.contains(x) && c.contains(y) && #[trigger] f(x) == #[trigger] f(y) implies x == y by {
            if x != y {
                assert(sol[x as int] != sol[y as int]);
            }
        }
    }
    vstd::set_lib::lemma_map_size(c, t, f);
    assert(t.subset_of(u)) by {
        assert forall|v: usize| t.contains(v) implies u.contains(v) by {
            let i = choose|i: usize| c.contains(i) && f(i) == v;
            assert(d[i as int].contains(sol[i as int]));
        }
    }
    vstd::set_lib::lemma_len_subset(t, u);
    vstd::set_lib::lemma_subset_equality(t, u);
    let e = strip(d, c);
    assert forall|x: int| 0 <= x < d.len() implies #[trigger] e[x].contains(sol[x]) by {
        if !c.contains(x as usize) {
            if u.contains(sol[x]) {
                assert(t.contains(sol[x]));
                let i = choose|i: usize| c.contains(i) && f(i) == sol[x];
                assert(i as int != x);
                assert(sol[i as int] == sol[x]);
            }
            let p = |v: usize| !u.contains(v);
            assert(d[x].contains(sol[x]));
            let q = choose|q: int| 0 <= q < d[x].len() && d[x][q] == sol[x];
            assert(p(d[x][q]));
            assert(d[x].filter(p).contains(d[x][q]));
            assert(e[x] == d[x].filter(p));
        } else {
            assert(d[x].contains(sol[x]));
        }
    }
}

proof fn lemma_apply_tuples_sound(d: Seq<Seq<usize>>, cs: Seq<Set<usize>>, k: int, m: int, sol: Seq<usize>)
    requires
        consistent(d, sol),
        distinct(sol),
        m <= cs.len(),
        clusters_valid(cs, d.len() as int),
    ensures
        consistent(apply_tuples(d, cs, k, m), sol),
    decreases m,
{
    if m > 0 {
        lemma_apply_tuples_sound(d, cs, k, m - 1, sol);
        let p = apply_tuples(d, cs, k, m - 1);
        lemma_apply_tuples_shrinks(d, cs, k, m - 1);
        if is_hidden(p, cs[m - 1], k) {
            lemma_strip_sound(p, cs[m - 1], k, sol);
        }
    }
}

/// Soundness of the hidden-subset pass, for tuple sizes from `k` down.
pub proof fn lemma_hidden_sound(d: Seq<Seq<usize>>, k: int, sol: Seq<usize>)
    requires
        consistent(d, sol),
        distinct(sol),
    ensures
        consistent(hidden_pass_from(d, k), sol),
    decreases k,
{
    if k >= 2 {
        let cs = real_subsets(d, k);
        lemma_real_subsets_valid(d, k, d.len() as int);
        lemma_apply_tuples_sound(d, cs, k, cs.len() as int, sol);
        lemma_apply_tuples_shrinks(d, cs, k, cs.len() as int);
        lemma_hidden_sound(hidden_round(d, k), k - 1, sol);
    }
}

/// Soundness of bounding one term of a row, whenever the greedy estimate of
/// the other terms does not exceed what they add under `sol`: the value of
/// the term's symbol under `sol` stays a candidate.
pub proof fn lemma_term_sound(
    d: Seq<Seq<usize>>,
    terms: Seq<(usize, usize)>,
    target: int,
    p: int,
    sol: Seq<usize>,
)
    requires
        consistent(d, sol),
        0 <= p < terms.len(),
        forall|q: int| 0 <= q < terms.len() ==> ((#[trigger] terms[q]).0 as int) < d.len(),
        row_sum(terms, sol, terms.len() as int) == target,
        crate::bounds::estimate(d, terms, p, terms.len() as int).0 + terms[p].1 * sol[terms[p].0 as int]
            <= target,
    ensures
        consistent(tighten_term(d, terms, target, p), sol),
{
    broadcast use vstd::seq_lib::group_filter_ensures;

    let (low, taken) = crate::bounds::estimate(d, terms, p, terms.len() as int);
    let s = terms[p].0 as int;
    let f = terms[p].1 as int;
    let pr = |v: usize| f * v + low <= target || taken.contains(v);
    let e = tighten_term(d, terms, target, p);
    assert(pr(sol[s]));
    assert(d[s].contains(sol[s]));
    let q = choose|q: int| 0 <= q < d[s].len() && d[s][q] == sol[s];
    assert(d[s].filter(pr).contains(d[s][q]));
    assert forall|i: int| 0 <= i < d.len() implies #[trigger] e[i].contains(sol[i]) by {
        if i == s {
            assert(e[i] == d[s].filter(pr));
        } else {
            assert(e[i] == d[i]);
            assert(d[i].contains(sol[i]));
        }
    }
}

/// A list with one value, filtered by a predicate that holds of it.
proof fn lemma_filter_single(v: usize, p: spec_fn(usize) -> bool)
    requires
        p(v),
    ensures
        seq![v].filter(p) == seq![v],
{
    let e = Seq::<usize>::empty();
    e.lemma_filter_push(v, p);
    assert(e.filter(p) =~= e) by {
        reveal(Seq::filter);
    }
    assert(e.push(v) =~= seq![v]);
}

/// Idempotence of the naked-single pass on one distinct candidate per symbol.
pub proof fn lemma_singles_idle(d: Seq<Seq<usize>>)
    requires
        all_single(d),
        distinct(values_of(d)),
    ensures
        singles_pass(d) == d,
{
    let e = singles_pass(d);
    assert forall|i: int| 0 <= i < d.len() implies #[trigger] e[i] == d[i] by {
        let v = d[i][0];
        let p = |w: usize| !crate::singles::claimed_by_single(d, i, w);
        assert(d[i].len() == 1);
        assert(d[i] =~= seq![v]);
        if crate::singles::claimed_by_single(d, i, v) {
            let j = choose|j: int| 0 <= j < d.len() && j != i && #[trigger] d[j] == seq![v];
            assert(values_of(d)[j] == v && values_of(d)[i] == v);
        }
        lemma_filter_single(v, p);
    }
    assert(e =~= d);
}

proof fn lemma_scan_row_idle(d: Seq<Seq<usize>>, tl: int, i: int, j: int, cl: Seq<Set<usize>>)
    requires
        all_single(d),
        distinct(values_of(d)),
        0 <= i < d.len(),
        j <= d.len(),
    ensures
        scan_row(d, tl, i, j, cl) == cl,
    decreases j,
{
    if j > 0 {
        lemma_scan_row_idle(d, tl, i, j - 1, cl);
        if crate::tuples::related(d, tl, i, j - 1) {
            assert(d[i].len() == 1 && d[j - 1].len() == 1);
            assert(d[i].contains(d[i][0]));
            assert(d[j - 1].contains(d[j - 1][0]));
            assert(values_of(d)[i] != values_of(d)[j - 1]);
        }
    }
}

proof fn lemma_scan_idle(d: Seq<Seq<usize>>, tl: int, i: int)
    requires
        all_single(d),
        distinct(values_of(d)),
        i <= d.len(),
    ensures
        scan(d, tl, i) == Seq::<Set<usize>>::empty(),
    decreases i,
{
    if i > 0 {
        lemma_scan_idle(d, tl, i - 1);
        lemma_scan_row_idle(d, tl, i - 1, d.len() as int, scan(d, tl, i - 1));
    }
}

/// Idempotence of the hidden-subset pass on one distinct candidate per symbol.
pub proof fn lemma_hidden_idle(d: Seq<Seq<usize>>, k: int)
    requires
        all_single(d),
        distinct(values_of(d)),
    ensures
        hidden_pass_from(d, k) == d,
    decreases k,
{
    if k >= 2 {
        lemma_scan_idle(d, k, d.len() as int);
        assert(hidden_round(d, k) == d);
        lemma_hidden_idle(d, k - 1);
    }
}

/// Sum over the first `m` terms but term `p` of count times value.
pub open spec fn others_sum(terms: Seq<(usize, usize)>, vals: Seq<usize>, p: int, m: int) -> int
    decreases m,
{
    if m <= 0 {
        0
    } else if m - 1 == p {
        others_sum(terms, vals, p, m - 1)
    } else {
        others_sum(terms, vals, p, m - 1) + terms[m - 1].1 * vals[terms[m - 1].0 as int]
    }
}

proof fn lemma_row_sum_split(terms: Seq<(usize, usize)>, vals: Seq<usize>, p: int, m: int)
    requires
        0 <= p < m,
    ensures
        row_sum(terms, vals, m) == others_sum(terms, vals, p, m) + terms[p].1 * vals[terms[p].0 as int],
    decreases m,
{
    if m - 1 > p {
        lemma_row_sum_split(terms, vals, p, m - 1);
    } else {
        lemma_row_sum_others(terms, vals, p, m - 1);
    }
}

proof fn lemma_row_sum_others(terms: Seq<(usize, usize)>, vals: Seq<usize>, p: int, m: int)
    requires
        m <= p,
    ensures
        row_sum(terms, vals, m) == others_sum(terms, vals, p, m),
    decreases m,
{
    if m > 0 {
        lemma_row_sum_others(terms, vals, p, m - 1);
    }
}

/// With one candidate per symbol, the greedy estimate is at most what the
/// other terms add.
proof fn lemma_estimate_single(d: Seq<Seq<usize>>, terms: Seq<(usize, usize)>, p: int, m: int)
    requires
        all_single(d),
        m <= terms.len(),
        forall|q: int| 0 <= q < terms.len() ==> ((#[trigger] terms[q]).0 as int) < d.len(),
    ensures
        crate::bounds::estimate(d, terms, p, m).0 <= others_sum(terms, values_of(d), p, m),
    decreases m,
{
    if m > 0 {
        lemma_estimate_single(d, terms, p, m - 1);
        if m - 1 != p {
            let s = terms[m - 1].0 as int;
            let f = terms[m - 1].1 as int;
            let v = d[s][0];
            assert(d[s].len() == 1);
            let taken = crate::bounds::estimate(d, terms, p, m - 1).1;
            assert(crate::bounds::first_free(d[s], taken, 1) == None::<usize>);
            assert(f * v >= 0) by (nonlinear_arith)
                requires
                    f >= 0,
                    v >= 0,
            ;
        }
    }
}

proof fn lemma_row_idle(d: Seq<Seq<usize>>, terms: Seq<(usize, usize)>, target: int, m: int)
    requires
        all_single(d),
        m <= terms.len(),
        forall|q: int| 0 <= q < terms.len() ==> ((#[trigger] terms[q]).0 as int) < d.len(),
        row_sum(terms, values_of(d), terms.len() as int) <= target,
    ensures
        tighten_row(d, terms, target, m) == d,
    decreases m,
{
    if m > 0 {
        lemma_row_idle(d, terms, target, m - 1);
        let p = m - 1;
        let (low, taken) = crate::bounds::estimate(d, terms, p, terms.len() as int);
        let s = terms[p].0 as int;
        let f = terms[p].1 as int;
        lemma_estimate_single(d, terms, p, terms.len() as int);
        lemma_row_sum_split(terms, values_of(d), p, terms.len() as int);
        let v = d[s][0];
        assert(d[s].len() == 1);
        assert(d[s] =~= seq![v]);
        lemma_filter_single(v, |w: usize| f * w + low <= target || taken.contains(w));
        assert(tighten_term(d, terms, target, p) =~= d);
    }
}

/// Every row's sum under `vals` stays within its target.
pub open spec fn within_targets(rows: Seq<RowView>, vals: Seq<usize>) -> bool {
    forall|r: int| 0 <= r < rows.len() ==> row_sum(#[trigger] rows[r].0, vals, rows[r].0.len() as int) <= rows[r].1
}

/// Idempotence of the bound-tightening pass: with one candidate per symbol
/// and every row's sum within its target, the pass changes nothing.
pub proof fn lemma_rows_idle(d: Seq<Seq<usize>>, rows: Seq<RowView>, m: int)
    requires
        all_single(d),
        m <= rows.len(),
        rows_fit(rows, d.len() as int),
        within_targets(rows, values_of(d)),
    ensures
        tighten_rows(d, rows, m) == d,
    decreases m,
{
    if m > 0 {
        lemma_rows_idle(d, rows, m - 1);
        let r = m - 1;
        assert(row_sum(rows[r].0, values_of(d), rows[r].0.len() as int) <= rows[r].1);
        assert forall|q: int| 0 <= q < rows[r].0.len() implies ((#[trigger] rows[r].0[q]).0 as int)
            < d.len() by {}
        lemma_row_idle(d, rows[r].0, rows[r].1, rows[r].0.len() as int);
    }
}

/// Soundness of a round past its bounds: values that solve the puzzle and
/// survive the bound-tightening pass survive the hidden-subset and the
/// naked-single pass of the same round.
pub proof fn lemma_round_sound(d: Seq<Seq<usize>>, rows: Seq<RowView>, sol: Seq<usize>)
    requires
        consistent(tighten_rows(d, rows, rows.len() as int), sol),
        distinct(sol),
    ensures
        consistent(round(d, rows), sol),
{
    let a = tighten_rows(d, rows, rows.len() as int);
    lemma_hidden_sound(a, a.len() - 2, sol);
    lemma_singles_sound(hidden_pass(a), sol);
}

/// When every symbol has one candidate and a solution survived, the single
/// candidates are that solution: distinct, and meeting every row it meets.
pub proof fn lemma_surviving_solution(d: Seq<Seq<usize>>, rows: Seq<RowView>, sol: Seq<usize>)
    requires
        all_single(d),
        consistent(d, sol),
        distinct(sol),
        satisfies(rows, sol),
    ensures
        values_of(d) == sol,
        solved(d, rows),
{
    assert forall|i: int| 0 <= i < d.len() implies #[trigger] values_of(d)[i] == sol[i] by {
        assert(d[i].contains(sol[i]));
        assert(d[i].len() == 1);
    }
    assert(values_of(d) =~= sol);
}

/// Idempotence: a solved store, one candidate per symbol with distinct values
/// that meet every row, is left unchanged by the bound-tightening, the
/// hidden-subset and the naked-single pass, and so by a whole round.
pub proof fn lemma_solved_is_fixpoint(d: Seq<Seq<usize>>, rows: Seq<RowView>)
    requires
        solved(d, rows),
        rows_fit(rows, d.len() as int),
    ensures
        tighten_rows(d, rows, rows.len() as int) == d,
        hidden_pass(d) == d,
        singles_pass(d) == d,
        round(d, rows) == d,
{
    assert forall|r: int| 0 <= r < rows.len() implies row_sum(#[trigger] rows[r].0, values_of(d), rows[r].0.len() as int) <= rows[r].1 by {}
    lemma_rows_idle(d, rows, rows.len() as int);
    lemma_hidden_idle(d, d.len() - 2);
    lemma_singles_idle(d);
}

} // verus!
