use crate::store::{lemma_push_contains, strictly_sorted, without_values, DomainStore};
use vstd::prelude::*;

verus! {

/// `v` is the only candidate left to some symbol other than the one at `i`.
pub open spec fn claimed_by_single(d: Seq<Seq<usize>>, i: int, v: usize) -> bool {
    exists|j: int| 0 <= j < d.len() && j != i && #[trigger] d[j] == seq![v]
}

/// The naked-single pass: every value that is the only candidate of one symbol
/// leaves the candidates of all the others. Symbols with one candidate are
/// taken from the lists as they were before the pass.
pub open spec fn singles_pass(d: Seq<Seq<usize>>) -> Seq<Seq<usize>> {
    Seq::new(d.len(), |i: int| d[i].filter(|v: usize| !claimed_by_single(d, i, v)))
}

/// Removes the value of every symbol with a single candidate from the
/// candidates of all other symbols.
pub fn remove_singles(candidates: &mut DomainStore)
    requires
        old(candidates).wf(),
    ensures
        final(candidates).wf(),
        final(candidates).symbols@ == old(candidates).symbols@,
        final(candidates).doms() == singles_pass(old(candidates).doms()),
{
    let ghost d = candidates.doms();
    let n = candidates.domains.len();
    let mut fresh: Vec<Vec<usize>> = Vec::new();
    let mut i: usize = 0;
    while i < n
        invariant
            i <= n,
            n == d.len(),
            d == candidates.doms(),
            candidates.wf(),
            *candidates == *old(candidates),
            fresh@.len() == i,
            forall|m: int|
                0 <= m < i ==> #[trigger] fresh@[m]@ == singles_pass(d)[m] && strictly_sorted(
                    fresh@[m]@,
                ),
        decreases n - i,
    {
        let mut gone: Vec<usize> = Vec::new();
        let mut j: usize = 0;
        while j < n
            invariant
                j <= n,
                i < n,
                n == d.len(),
                d == candidates.doms(),
                candidates.wf(),
                forall|w: usize|
                    gone@.contains(w) <==> exists|q: int|
                        0 <= q < j && q != i && #[trigger] d[q] == seq![w],
            decreases n - j,
        {
            let ghost before = gone@;
            if j != i && candidates.domains[j].len() == 1 {
                let v = candidates.domains[j][0];
                gone.push(v);
                assert(d[j as int] == seq![v]);
            }
            proof {
                assert forall|w: usize|
                    gone@.contains(w) <==> exists|q: int|
                        0 <= q < j + 1 && q != i && #[trigger] d[q] == seq![w] by {
                    if j != i && d[j as int].len() == 1 {
                        assert(d[j as int] == seq![d[j as int][0]]);
                        lemma_push_contains(before, d[j as int][0], w);
                    }
                    if exists|q: int| 0 <= q < j + 1 && q != i && #[trigger] d[q] == seq![w] {
                        let q = choose|q: int| 0 <= q < j + 1 && q != i && #[trigger] d[q] == seq![w];
                        if q < j {
                            assert(before.contains(w));
                        }
                    }
                }
            }
            j += 1;
        }
        proof {
            assert((|v: usize| !gone@.contains(v)) =~= (|v: usize|
                !claimed_by_single(d, i as int, v)));
            assert(d[i as int] == candidates.domains@[i as int]@);
        }
        let kept = without_values(&candidates.domains[i], &gone);
        fresh.push(kept);
        i += 1;
    }
    candidates.domains = fresh;
    assert(candidates.doms() =~= singles_pass(d));
}

} // verus!
