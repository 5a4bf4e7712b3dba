use crate::store::{has_value, strictly_sorted, DomainStore};
use vstd::prelude::*;

verus! {

/// One word of the puzzle: each distinct symbol of the word, by its position
/// in the store, with the number of times it occurs, and the word's target
/// sum. Terms come by decreasing count, ties by increasing position.
pub struct Row {
    pub terms: Vec<(usize, usize)>,
    pub target: u32,
}

/// Above any sum that can meet a `u32` target.
pub const SUM_CAP: u128 = 0x1_0000_0000_0000_0000;

/// A row as its terms and its target.
pub type RowView = (Seq<(usize, usize)>, int);

/// The rows as terms and targets.
pub open spec fn rows_view(rows: Seq<Row>) -> Seq<RowView> {
    Seq::new(rows.len(), |r: int| (rows[r].terms@, rows[r].target as int))
}

/// Every term names a symbol below `n`.
pub open spec fn rows_fit(rows: Seq<RowView>, n: int) -> bool {
    forall|r: int, q: int|
        0 <= r < rows.len() && 0 <= q < rows[r].0.len() ==> (#[trigger] rows[r].0[q]).0 < n
}

/// The first value of `dom`, from position `t` on, that is not in `taken`.
pub open spec fn first_free(dom: Seq<usize>, taken: Seq<usize>, t: int) -> Option<usize>
    decreases dom.len() - t,
{
    if t < 0 || t >= dom.len() {
        None
    } else if !taken.contains(dom[t]) {
        Some(dom[t])
    } else {
        first_free(dom, taken, t + 1)
    }
}

/// Greedy estimate of the least that the terms other than `p`, among the first `m`,
/// add at least: each in turn takes its smallest candidate that no earlier
/// one took. Gives the sum and the values taken.
pub open spec fn estimate(d: Seq<Seq<usize>>, terms: Seq<(usize, usize)>, p: int, m: int) -> (
    int,
    Seq<usize>,
)
    decreases m,
{
    if m <= 0 {
        (0, Seq::empty())
    } else {
        let prev = estimate(d, terms, p, m - 1);
        if m - 1 == p {
            prev
        } else {
            match first_free(d[terms[m - 1].0 as int], prev.1, 0) {
                Some(v) => (prev.0 + terms[m - 1].1 * v, prev.1.push(v)),
                None => prev,
            }
        }
    }
}

/// Bound on term `p` of a row: a candidate `v` stays when
/// `count * v` plus the estimate of the others stays within the target, or
/// when `v` is one of the values the estimate took.
pub open spec fn tighten_term(d: Seq<Seq<usize>>, terms: Seq<(usize, usize)>, target: int, p: int) -> Seq<
    Seq<usize>,
> {
    let (low, taken) = estimate(d, terms, p, terms.len() as int);
    let s = terms[p].0 as int;
    let f = terms[p].1 as int;
    d.update(s, d[s].filter(|v: usize| f * v + low <= target || taken.contains(v)))
}

/// The first `m` terms of a row bounded in turn.
pub open spec fn tighten_row(d: Seq<Seq<usize>>, terms: Seq<(usize, usize)>, target: int, m: int) -> Seq<
    Seq<usize>,
>
    decreases m,
{
    if m <= 0 {
        d
    } else {
        tighten_term(tighten_row(d, terms, target, m - 1), terms, target, m - 1)
    }
}

/// The first `m` rows bounded in turn.
pub open spec fn tighten_rows(d: Seq<Seq<usize>>, rows: Seq<RowView>, m: int) -> Seq<Seq<usize>>
    decreases m,
{
    if m <= 0 {
        d
    } else {
        let prev = tighten_rows(d, rows, m - 1);
        tighten_row(prev, rows[m - 1].0, rows[m - 1].1, rows[m - 1].0.len() as int)
    }
}

/// The smaller of `x` and `SUM_CAP`.
pub open spec fn capped(x: int) -> int {
    if x < SUM_CAP {
        x
    } else {
        SUM_CAP as int
    }
}

fn first_free_value(dom: &Vec<usize>, taken: &Vec<usize>) -> (r: Option<usize>)
    ensures
        r == first_free(dom@, taken@, 0),
{
    let mut t: usize = 0;
    while t < dom.len()
        invariant
            t <= dom@.len(),
            first_free(dom@, taken@, 0) == first_free(dom@, taken@, t as int),
        decreases dom.len() - t,
    {
        if !has_value(taken, dom[t]) {
            return Some(dom[t]);
        }
        t += 1;
    }
    None
}

/// The greedy estimate for term `p`, its sum capped at `SUM_CAP`.
fn estimate_others(candidates: &DomainStore, terms: &Vec<(usize, usize)>, p: usize) -> (r: (
    u128,
    Vec<usize>,
))
    requires
        candidates.wf(),
        forall|q: int| 0 <= q < terms@.len() ==> (#[trigger] terms@[q]).0 < candidates.symbols@.len(),
    ensures
        estimate(candidates.doms(), terms@, p as int, terms@.len() as int).0 >= 0,
        r.0 == capped(estimate(candidates.doms(), terms@, p as int, terms@.len() as int).0),
        r.1@ == estimate(candidates.doms(), terms@, p as int, terms@.len() as int).1,
{
    let ghost d = candidates.doms();
    let mut low: u128 = 0;
    let mut taken: Vec<usize> = Vec::new();
    let mut m: usize = 0;
    while m < terms.len()
        invariant
            m <= terms@.len(),
            d == candidates.doms(),
            candidates.wf(),
            forall|q: int| 0 <= q < terms@.len() ==> (#[trigger] terms@[q]).0 < candidates.symbols@.len(),
            estimate(d, terms@, p as int, m as int).0 >= 0,
            low == capped(estimate(d, terms@, p as int, m as int).0),
            taken@ == estimate(d, terms@, p as int, m as int).1,
        decreases terms.len() - m,
    {
        if m != p {
            let (s, f) = terms[m];
            assert(candidates.domains@[s as int]@ == d[s as int]);
            match first_free_value(&candidates.domains[s], &taken) {
                Some(v) => {
                    let ghost prev = estimate(d, terms@, p as int, m as int).0;
                    assert(0 <= f * v <= 0xffff_ffff_ffff_ffff * 0xffff_ffff_ffff_ffffnat)
                        by (nonlinear_arith)
                        requires
                            f <= 0xffff_ffff_ffff_ffff,
                            v <= 0xffff_ffff_ffff_ffff,
                    ;
                    let c: u128 = (f as u128) * (v as u128);
                    if low >= SUM_CAP - c.min(SUM_CAP) {
                        low = SUM_CAP;
                    } else {
                        low = low + c;
                    }
                    taken.push(v);
                },
                None => {},
            }
        }
        m += 1;
    }
    (low, taken)
}

/// The values `v` of `dom` with `f * v + low <= target`, or that are in
/// `taken`; `low_cap` is `low` capped at `SUM_CAP`.
fn keep_within(
    dom: &Vec<usize>,
    f: usize,
    low_cap: u128,
    Ghost(low): Ghost<int>,
    target: u32,
    taken: &Vec<usize>,
) -> (r: Vec<usize>)
    requires
        strictly_sorted(dom@),
        low >= 0,
        low_cap == capped(low),
    ensures
        strictly_sorted(r@),
        r@ == dom@.filter(|v: usize| f * v + low <= target || taken@.contains(v)),
{
    let ghost keep = |v: usize| f * v + low <= target || taken@.contains(v);
    let mut r: Vec<usize> = Vec::new();
    let mut k: usize = 0;
    while k < dom.len()
        invariant
            k <= dom@.len(),
            strictly_sorted(dom@),
            strictly_sorted(r@),
            low >= 0,
            low_cap == capped(low),
            keep == (|v: usize| f * v + low <= target || taken@.contains(v)),
            r@ == dom@.subrange(0, k as int).filter(keep),
            forall|m: int, q: int| 0 <= m < r@.len() && k <= q < dom@.len() ==> r@[m] < dom@[q],
        decreases dom.len() - k,
    {
        let v = dom[k];
        proof {
            assert(dom@.subrange(0, k + 1) == dom@.subrange(0, k as int).push(v));
            dom@.subrange(0, k as int).lemma_filter_push(v, keep);
        }
        assert(0 <= f * v <= 0xffff_ffff_ffff_ffff * 0xffff_ffff_ffff_ffffnat) by (nonlinear_arith)
            requires
                f <= 0xffff_ffff_ffff_ffff,
                v <= 0xffff_ffff_ffff_ffff,
        ;
        let c: u128 = (f as u128) * (v as u128);
        let fits = c + low_cap <= target as u128;
        if fits || has_value(taken, v) {
            r.push(v);
        }
        k += 1;
    }
    assert(dom@.subrange(0, dom@.len() as int) == dom@);
    r
}

/// Bounds the candidates of term `p` of a row, as `tighten_term` says.
fn tighten_one(candidates: &mut DomainStore, terms: &Vec<(usize, usize)>, target: u32, p: usize)
    requires
        old(candidates).wf(),
        p < terms@.len(),
        forall|q: int|
            0 <= q < terms@.len() ==> (#[trigger] terms@[q]).0 < old(candidates).symbols@.len(),
    ensures
        final(candidates).wf(),
        final(candidates).symbols@ == old(candidates).symbols@,
        final(candidates).doms() == tighten_term(old(candidates).doms(), terms@, target as int, p as int),
{
    let ghost d = candidates.doms();
    let (low_cap, taken) = estimate_others(candidates, terms, p);
    let ghost low = estimate(d, terms@, p as int, terms@.len() as int).0;
    let (s, f) = terms[p];
    assert(candidates.domains@[s as int]@ == d[s as int]);
    let kept = keep_within(&candidates.domains[s], f, low_cap, Ghost(low), target, &taken);
    candidates.domains.set(s, kept);
    assert(candidates.doms() =~= tighten_term(d, terms@, target as int, p as int));
}

/// The bound-tightening pass: for each row in turn, and each of its terms in
/// turn, a candidate `v` of the term's symbol stays only when `count * v`
/// plus the greedy estimate of the other terms stays within the row's target,
/// or when the estimate took `v`.
pub fn reduce_by_max_value(candidates: &mut DomainStore, rows: &[Row])
    requires
        old(candidates).wf(),
        rows_fit(rows_view(rows@), old(candidates).symbols@.len() as int),
    ensures
        final(candidates).wf(),
        final(candidates).symbols@ == old(candidates).symbols@,
        final(candidates).doms() == tighten_rows(
            old(candidates).doms(),
            rows_view(rows@),
            rows@.len() as int,
        ),
{
    let ghost d = candidates.doms();
    let mut r: usize = 0;
    while r < rows.len()
        invariant
            r <= rows@.len(),
            candidates.wf(),
            candidates.symbols@ == old(candidates).symbols@,
            rows_fit(rows_view(rows@), old(candidates).symbols@.len() as int),
            candidates.doms() == tighten_rows(d, rows_view(rows@), r as int),
        decreases rows.len() - r,
    {
        let row = &rows[r];
        let ghost start = candidates.doms();
        let mut p: usize = 0;
        while p < row.terms.len()
            invariant
                p <= row.terms@.len(),
                r < rows@.len(),
                *row == rows@[r as int],
                candidates.wf(),
                candidates.symbols@ == old(candidates).symbols@,
                rows_fit(rows_view(rows@), old(candidates).symbols@.len() as int),
                start == tighten_rows(d, rows_view(rows@), r as int),
                candidates.doms() == tighten_row(start, row.terms@, row.target as int, p as int),
            decreases row.terms.len() - p,
        {
            assert forall|q: int| 0 <= q < row.terms@.len() implies (#[trigger] row.terms@[q]).0
                < candidates.symbols@.len() by {
                assert(rows_view(rows@)[r as int].0[q].0 < old(candidates).symbols@.len());
            }
            tighten_one(candidates, &row.terms, row.target, p);
            p += 1;
        }
        assert(rows_view(rows@)[r as int] == (row.terms@, row.target as int));
        r += 1;
    }
}

} // verus!
