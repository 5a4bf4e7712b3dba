use crate::bounds::{reduce_by_max_value, rows_fit, rows_view, tighten_rows, Row, RowView, SUM_CAP, capped};
use crate::model::{build_row, in_words, row_terms, symbol_universe, universe, upper};
use crate::singles::{remove_singles, singles_pass};
use crate::store::{all_single, full_range, has_empty, initial_doms, strictly_sorted, DomainStore};
use crate::tuples::{hidden_pass, remove_hidden_tuples};
use vstd::prelude::*;

verus! {

/// Why the solver gave no assignment.
#[derive(Debug, PartialEq, Eq, Clone, Copy, Structural)]
pub enum SolveError {
    /// Propagation stopped with some symbol still holding several candidates.
    Unsolved,
    /// Some symbol lost every candidate, or the single candidates left do not
    /// form a solution: the puzzle is contradictory.
    Contradiction,
}

/// The rows of the puzzle, over the positions of `universe(input)`.
pub open spec fn puzzle_rows(input: Seq<(&str, u32)>) -> Seq<RowView> {
    Seq::new(input.len(), |w: int| (row_terms(universe(input), input[w].0@), input[w].1 as int))
}

/// One round of propagation: bounds from every row, then hidden tuples, then
/// naked singles.
pub open spec fn round(d: Seq<Seq<usize>>, rows: Seq<RowView>) -> Seq<Seq<usize>> {
    singles_pass(hidden_pass(tighten_rows(d, rows, rows.len() as int)))
}

/// Rounds until every symbol has one candidate, a round changes nothing, or
/// `fuel` rounds have run.
pub open spec fn settle(d: Seq<Seq<usize>>, rows: Seq<RowView>, fuel: nat) -> Seq<Seq<usize>>
    decreases fuel,
{
    if fuel == 0 || all_single(d) {
        d
    } else {
        let e = round(d, rows);
        if e == d {
            d
        } else {
            settle(e, rows, (fuel - 1) as nat)
        }
    }
}

/// The most rounds the solver runs for `n` symbols; every round before a
/// fixpoint removes a candidate, and there are `n * n` at the start.
pub open spec fn round_cap(n: nat) -> nat {
    if n < 0x1_0000 {
        n * n + 1
    } else {
        0xffff_ffff
    }
}

/// The candidate lists where propagation stops for `input`.
pub open spec fn outcome(input: Seq<(&str, u32)>) -> Seq<Seq<usize>> {
    let n = universe(input).len();
    settle(initial_doms(n), puzzle_rows(input), round_cap(n))
}

/// The single candidate of each symbol.
pub open spec fn values_of(d: Seq<Seq<usize>>) -> Seq<usize> {
    Seq::new(d.len(), |i: int| d[i][0])
}

/// No two symbols share a value.
pub open spec fn distinct(vals: Seq<usize>) -> bool {
    forall|i: int, j: int| 0 <= i < vals.len() && 0 <= j < vals.len() && i != j ==> vals[i] != vals[j]
}

/// Sum over the first `m` terms of count times value.
pub open spec fn row_sum(terms: Seq<(usize, usize)>, vals: Seq<usize>, m: int) -> int
    decreases m,
{
    if m <= 0 {
        0
    } else {
        row_sum(terms, vals, m - 1) + terms[m - 1].1 * vals[terms[m - 1].0 as int]
    }
}

/// Every row meets its target under `vals`.
pub open spec fn satisfies(rows: Seq<RowView>, vals: Seq<usize>) -> bool {
    forall|r: int| 0 <= r < rows.len() ==> row_sum(#[trigger] rows[r].0, vals, rows[r].0.len() as int) == rows[r].1
}

/// Every symbol has one candidate, and these values solve every row.
pub open spec fn solved(d: Seq<Seq<usize>>, rows: Seq<RowView>) -> bool {
    &&& all_single(d)
    &&& distinct(values_of(d))
    &&& satisfies(rows, values_of(d))
}

/// Each symbol with its value.
pub open spec fn assignment_of(syms: Seq<char>, d: Seq<Seq<usize>>) -> Seq<(char, usize)> {
    Seq::new(syms.len(), |i: int| (syms[i], d[i][0]))
}

/// Some entry of `a` has the value `v`.
pub open spec fn takes(a: Seq<(char, usize)>, v: usize) -> bool {
    exists|i: int| 0 <= i < a.len() && a[i].1 == v
}

/// The values of `a` are distinct and are exactly `1..=n`, `n` the number of
/// entries.
pub open spec fn is_bijection(a: Seq<(char, usize)>) -> bool {
    &&& forall|i: int| 0 <= i < a.len() ==> 1 <= #[trigger] a[i].1 <= a.len()
    &&& forall|i: int, j: int| 0 <= i < a.len() && 0 <= j < a.len() && i != j ==> #[trigger] a[i].1 != #[trigger] a[j].1
    &&& forall|v: usize| 1 <= v <= a.len() ==> #[trigger] takes(a, v)
}

/// Bijectivity: `n` distinct values in `1..=n` take every value of `1..=n`.
pub proof fn lemma_distinct_covers(vals: Seq<usize>)
    requires
        vals.len() <= usize::MAX,
        distinct(vals),
        forall|i: int| 0 <= i < vals.len() ==> 1 <= #[trigger] vals[i] <= vals.len(),
    ensures
        forall|v: usize| 1 <= v <= vals.len() ==> vals.contains(v),
{
    let n = vals.len();
    let range = full_range(n);
    assert forall|a: int, b: int| 0 <= a < b < range.len() implies range[a] < range[b] by {}
    assert(strictly_sorted(range));
    crate::tuples::lemma_sorted_len(range);
    assert(vals.no_duplicates());
    vals.unique_seq_to_set();
    assert forall|v: usize| vals.to_set().contains(v) implies range.to_set().contains(v) by {
        let i = choose|i: int| 0 <= i < n && vals[i] == v;
        assert(range[v - 1] == v);
    }
    vstd::set_lib::lemma_subset_equality(vals.to_set(), range.to_set());
    assert forall|v: usize| 1 <= v <= n implies vals.contains(v) by {
        assert(range[v - 1] == v);
        assert(range.to_set().contains(v));
    }
}

/// Whether the values are pairwise distinct.
fn values_distinct(vals: &Vec<usize>) -> (r: bool)
    ensures
        r == distinct(vals@),
{
    let mut i: usize = 0;
    while i < vals.len()
        invariant
            i <= vals@.len(),
            forall|a: int, b: int| 0 <= a < i && 0 <= b < vals@.len() && a != b ==> vals@[a] != vals@[b],
        decreases vals.len() - i,
    {
        let mut j: usize = 0;
        while j < vals.len()
            invariant
                j <= vals@.len(),
                i < vals@.len(),
                forall|a: int, b: int| 0 <= a < i && 0 <= b < vals@.len() && a != b ==> vals@[a] != vals@[b],
                forall|b: int| 0 <= b < j && b != i ==> vals@[i as int] != vals@[b],
            decreases vals.len() - j,
        {
            if j != i && vals[i] == vals[j] {
                return false;
            }
            j += 1;
        }
        i += 1;
    }
    true
}

/// Whether a row meets its target under `vals`.
fn row_met(row: &Row, vals: &Vec<usize>) -> (r: bool)
    requires
        forall|q: int| 0 <= q < row.terms@.len() ==> (#[trigger] row.terms@[q]).0 < vals@.len(),
    ensures
        r == (row_sum(row.terms@, vals@, row.terms@.len() as int) == row.target),
{
    let mut sum: u128 = 0;
    let mut q: usize = 0;
    while q < row.terms.len()
        invariant
            q <= row.terms@.len(),
            forall|q: int| 0 <= q < row.terms@.len() ==> (#[trigger] row.terms@[q]).0 < vals@.len(),
            row_sum(row.terms@, vals@, q as int) >= 0,
            sum == capped(row_sum(row.terms@, vals@, q as int)),
        decreases row.terms.len() - q,
    {
        let (s, f) = row.terms[q];
        let v = vals[s];
        assert(0 <= f * v <= 0xffff_ffff_ffff_ffff * 0xffff_ffff_ffff_ffffnat) by (nonlinear_arith)
            requires
                f <= 0xffff_ffff_ffff_ffff,
                v <= 0xffff_ffff_ffff_ffff,
        ;
        let c: u128 = (f as u128) * (v as u128);
        if sum >= SUM_CAP - c.min(SUM_CAP) {
            sum = SUM_CAP;
        } else {
            sum = sum + c;
        }
        q += 1;
    }
    sum == row.target as u128
}

/// Solves the puzzle given as words with their target sums. Symbols are the
/// distinct characters of the words, lower-case ASCII letters read as upper
/// case; each gets a distinct value in `1..=n`. Propagation runs rounds of
/// bound tightening, hidden tuples and naked singles until every symbol has
/// one candidate, a round changes nothing, or the round budget is spent.
/// Gives each symbol with its value, by increasing symbol, when those values
/// solve every word.
pub fn solve(input: &[(&str, u32)]) -> (r: Result<Vec<(char, usize)>, SolveError>)
    ensures
        match r {
            Ok(a) => solved(outcome(input@), puzzle_rows(input@)) && a@ == assignment_of(
                universe(input@),
                outcome(input@),
            ) && is_bijection(a@),
            Err(SolveError::Contradiction) => has_empty(outcome(input@)) || (all_single(
                outcome(input@),
            ) && !solved(outcome(input@), puzzle_rows(input@))),
            Err(SolveError::Unsolved) => !has_empty(outcome(input@)) && !all_single(
                outcome(input@),
            ),
        },
{
    let symbols = symbol_universe(input);
    let ghost syms = symbols@;
    let ghost prows = puzzle_rows(input@);
    let n = symbols.len();
    let mut rows: Vec<Row> = Vec::new();
    let mut w: usize = 0;
    while w < input.len()
        invariant
            w <= input@.len(),
            syms == symbols@,
            syms == universe(input@),
            prows == puzzle_rows(input@),
            crate::store::symbols_sorted(syms),
            forall|c: char| syms.contains(c) == in_words(input@, c),
            rows@.len() == w,
            forall|k: int| 0 <= k < w ==> #[trigger] rows_view(rows@)[k] == prows[k],
        decreases input.len() - w,
    {
        let (word, target) = input[w];
        assert forall|i: int| 0 <= i < word@.len() implies symbols@.contains(
            upper(#[trigger] word@[i]),
        ) by {
            assert(upper(input@[w as int].0@[i]) == upper(word@[i]));
            assert(in_words(input@, upper(word@[i])));
        }
        let row = build_row(&symbols, word, target);
        let ghost old_rows = rows@;
        rows.push(row);
        assert forall|k: int| 0 <= k < w + 1 implies #[trigger] rows_view(rows@)[k] == prows[k] by {
            if k < w {
                assert(rows@[k] == old_rows[k]);
                assert(rows_view(old_rows)[k] == prows[k]);
            }
        }
        w += 1;
    }
    assert(rows_view(rows@) =~= prows);
    proof {
        assert forall|r: int, q: int|
            0 <= r < prows.len() && 0 <= q < prows[r].0.len() implies (#[trigger] prows[r].0[q]).0
            < n by {
            crate::model::lemma_row_terms_fit(syms, input@[r].0@, q);
        }
    }
    let mut store = DomainStore::with_full_range(symbols);
    let cap: usize = if n < 0x1_0000 {
        assert(n * n <= 0xffff * 0xffff) by (nonlinear_arith)
            requires
                n < 0x1_0000,
        ;
        n * n + 1
    } else {
        0xffff_ffff
    };
    let mut fuel: usize = cap;
    let mut done = false;
    while fuel > 0 && !done && !store.all_single()
        invariant
            store.wf(),
            store.symbols@ == syms,
            syms.len() == n,
            syms == universe(input@),
            prows == rows_view(rows@),
            prows == puzzle_rows(input@),
            rows_fit(prows, n as int),
            outcome(input@) == if done {
                store.doms()
            } else {
                settle(store.doms(), prows, fuel as nat)
            },
        decreases fuel,
    {
        let before = store.copy_domains();
        let ghost d = store.doms();
        reduce_by_max_value(&mut store, rows.as_slice());
        remove_hidden_tuples(&mut store);
        remove_singles(&mut store);
        assert(store.doms() == round(d, prows));
        if store.same_domains(&before) {
            assert(Seq::new(before@.len(), |i: int| before@[i]@) =~= d);
            done = true;
        } else {
            assert(Seq::new(before@.len(), |i: int| before@[i]@) =~= d);
        }
        fuel -= 1;
    }
    let ghost fin = store.doms();
    assert(outcome(input@) == fin);
    proof {
        assert(crate::store::doms_sorted(initial_doms(n as nat))) by {
            assert forall|i: int| 0 <= i < n implies strictly_sorted(#[trigger] initial_doms(n as nat)[i]) by {}
        }
        crate::laws::lemma_settle_shrinks(initial_doms(n as nat), prows, round_cap(n as nat));
        assert forall|i: int, v: usize| 0 <= i < n && #[trigger] fin[i].contains(v) implies 1 <= v <= n by {
            assert(initial_doms(n as nat)[i].contains(v));
            let k = choose|k: int| 0 <= k < n && full_range(n as nat)[k] == v;
        }
    }
    if store.has_empty() {
        return Err(SolveError::Contradiction);
    }
    if !store.all_single() {
        return Err(SolveError::Unsolved);
    }
    let mut vals: Vec<usize> = Vec::new();
    let mut a: Vec<(char, usize)> = Vec::new();
    while vals.len() < n
        invariant
            vals@.len() <= n,
            a@.len() == vals@.len(),
            store.wf(),
            store.symbols@ == syms,
            syms.len() == n,
            fin == store.doms(),
            fin == outcome(input@),
            prows == puzzle_rows(input@),
            syms == universe(input@),
            all_single(fin),
            forall|i: int, v: usize| 0 <= i < n && #[trigger] fin[i].contains(v) ==> 1 <= v <= n,
            forall|i: int| 0 <= i < vals@.len() ==> #[trigger] vals@[i] == values_of(fin)[i],
            forall|i: int| 0 <= i < a@.len() ==> #[trigger] a@[i] == assignment_of(syms, fin)[i],
        decreases n - vals.len(),
    {
        let i = vals.len();
        assert(fin[i as int].len() == 1);
        let v = store.domains[i][0];
        vals.push(v);
        a.push((store.symbols[i], v));
    }
    assert(vals@ =~= values_of(fin));
    assert(a@ =~= assignment_of(syms, fin));
    if !values_distinct(&vals) {
        assert(!solved(fin, prows));
        return Err(SolveError::Contradiction);
    }
    proof {
        assert forall|i: int| 0 <= i < vals@.len() implies 1 <= #[trigger] vals@[i] <= vals@.len() by {
            assert(fin[i].len() == 1);
            assert(fin[i].contains(fin[i][0]));
        }
        lemma_distinct_covers(vals@);
        assert forall|v: usize| 1 <= v <= a@.len() implies #[trigger] takes(a@, v) by {
            assert(vals@.contains(v));
            let i = choose|i: int| 0 <= i < vals@.len() && vals@[i] == v;
            assert(a@[i].1 == v);
        }
        assert forall|i: int| 0 <= i < a@.len() implies 1 <= #[trigger] a@[i].1 <= a@.len() by {
            assert(vals@[i] == a@[i].1);
        }
        assert forall|i: int, j: int|
            0 <= i < a@.len() && 0 <= j < a@.len() && i != j implies #[trigger] a@[i].1
            != #[trigger] a@[j].1 by {
            assert(vals@[i] == a@[i].1 && vals@[j] == a@[j].1);
        }
    }
    let mut k: usize = 0;
    while k < rows.len()
        invariant
            k <= rows@.len(),
            prows == rows_view(rows@),
            rows_fit(prows, n as int),
            vals@ == values_of(fin),
            vals@.len() == n,
            fin == outcome(input@),
            all_single(fin),
            distinct(vals@),
            prows == puzzle_rows(input@),
            syms == universe(input@),
            a@ == assignment_of(syms, fin),
            is_bijection(a@),
            forall|r: int| 0 <= r < k ==> row_sum(#[trigger] prows[r].0, vals@, prows[r].0.len() as int) == prows[r].1,
        decreases rows.len() - k,
    {
        assert(prows[k as int] == (rows@[k as int].terms@, rows@[k as int].target as int));
        assert forall|q: int| 0 <= q < rows@[k as int].terms@.len() implies (
        #[trigger] rows@[k as int].terms@[q]).0 < vals@.len() by {
            assert(prows[k as int].0[q].0 < n);
        }
        if !row_met(&rows[k], &vals) {
            assert(!satisfies(prows, vals@));
            return Err(SolveError::Contradiction);
        }
        k += 1;
    }
    Ok(a)
}

} // verus!
