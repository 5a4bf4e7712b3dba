use vstd::prelude::*;

verus! {

/// A sequence of values in strictly increasing order.
pub open spec fn strictly_sorted(s: Seq<usize>) -> bool {
    forall|a: int, b: int| 0 <= a < b < s.len() ==> s[a] < s[b]
}

/// A sequence of symbols in strictly increasing code-point order.
pub open spec fn symbols_sorted(s: Seq<char>) -> bool {
    forall|a: int, b: int| 0 <= a < b < s.len() ==> s[a] < s[b]
}

/// Candidate values of every symbol. The symbol at position `i` of `symbols`
/// owns the candidate list `domains[i]`, kept in increasing order.
pub struct DomainStore {
    pub symbols: Vec<char>,
    pub domains: Vec<Vec<usize>>,
}

impl DomainStore {
    /// The candidate lists as mathematical sequences.
    pub open spec fn doms(&self) -> Seq<Seq<usize>> {
        Seq::new(self.domains@.len(), |i: int| self.domains@[i]@)
    }

    pub open spec fn wf(&self) -> bool {
        &&& symbols_sorted(self.symbols@)
        &&& self.domains@.len() == self.symbols@.len()
        &&& doms_sorted(self.doms())
    }

    /// Every symbol has each of `1..=n` as candidate, `n` the number of symbols.
    pub fn with_full_range(symbols: Vec<char>) -> (r: DomainStore)
        requires
            symbols_sorted(symbols@),
        ensures
            r.wf(),
            r.symbols@ == symbols@,
            r.doms() == initial_doms(symbols@.len()),
    {
        let n = symbols.len();
        let mut domains: Vec<Vec<usize>> = Vec::new();
        while domains.len() < n
            invariant
                domains@.len() <= n,
                forall|i: int| 0 <= i < domains@.len() ==> #[trigger] domains@[i]@ == full_range(n as nat),
            decreases n - domains.len(),
        {
            let mut range: Vec<usize> = Vec::new();
            while range.len() < n
                invariant
                    range@.len() <= n,
                    forall|k: int| 0 <= k < range@.len() ==> #[trigger] range@[k] == k + 1,
                decreases n - range.len(),
            {
                range.push(range.len() + 1);
            }
            assert(range@ =~= full_range(n as nat));
            domains.push(range);
        }
        let r = DomainStore { symbols, domains };
        assert(r.doms() =~= initial_doms(n as nat));
        r
    }

    /// Whether every symbol has exactly one candidate.
    pub fn all_single(&self) -> (r: bool)
        ensures
            r == all_single(self.doms()),
    {
        let mut i: usize = 0;
        while i < self.domains.len()
            invariant
                i <= self.domains@.len(),
                forall|m: int| 0 <= m < i ==> #[trigger] self.doms()[m].len() == 1,
            decreases self.domains.len() - i,
        {
            if self.domains[i].len() != 1 {
                assert(self.doms()[i as int].len() != 1);
                return false;
            }
            i += 1;
        }
        true
    }

    /// Whether some symbol has no candidate left.
    pub fn has_empty(&self) -> (r: bool)
        ensures
            r == has_empty(self.doms()),
    {
        let mut i: usize = 0;
        while i < self.domains.len()
            invariant
                i <= self.domains@.len(),
                forall|m: int| 0 <= m < i ==> #[trigger] self.doms()[m].len() != 0,
            decreases self.domains.len() - i,
        {
            if self.domains[i].len() == 0 {
                assert(self.doms()[i as int].len() == 0);
                return true;
            }
            i += 1;
        }
        false
    }

    /// A copy of the candidate lists.
    pub fn copy_domains(&self) -> (r: Vec<Vec<usize>>)
        ensures
            r@.len() == self.domains@.len(),
            forall|i: int| 0 <= i < r@.len() ==> #[trigger] r@[i]@ == self.doms()[i],
    {
        let mut r: Vec<Vec<usize>> = Vec::new();
        while r.len() < self.domains.len()
            invariant
                r@.len() <= self.domains@.len(),
                forall|i: int| 0 <= i < r@.len() ==> #[trigger] r@[i]@ == self.doms()[i],
            decreases self.domains.len() - r.len(),
        {
            let d = &self.domains[r.len()];
            let mut c: Vec<usize> = Vec::new();
            while c.len() < d.len()
                invariant
                    c@.len() <= d@.len(),
                    forall|k: int| 0 <= k < c@.len() ==> #[trigger] c@[k] == d@[k],
                decreases d.len() - c.len(),
            {
                c.push(d[c.len()]);
            }
            assert(c@ =~= d@);
            r.push(c);
        }
        r
    }

    /// Whether the candidate lists equal `other`.
    pub fn same_domains(&self, other: &Vec<Vec<usize>>) -> (r: bool)
        ensures
            r == (self.doms() == Seq::new(other@.len(), |i: int| other@[i]@)),
    {
        let ghost o = Seq::new(other@.len(), |i: int| other@[i]@);
        if self.domains.len() != other.len() {
            assert(self.doms().len() != o.len());
            return false;
        }
        let mut i: usize = 0;
        while i < other.len()
            invariant
                i <= other@.len(),
                other@.len() == self.domains@.len(),
                o == Seq::new(other@.len(), |i: int| other@[i]@),
                forall|m: int| 0 <= m < i ==> #[trigger] self.doms()[m] == o[m],
            decreases other.len() - i,
        {
            let a = &self.domains[i];
            let b = &other[i];
            if a.len() != b.len() {
                assert(self.doms()[i as int] != o[i as int]);
                return false;
            }
            let mut k: usize = 0;
            while k < a.len()
                invariant
                    k <= a@.len(),
                    a@.len() == b@.len(),
                    i < other@.len(),
                    other@.len() == self.domains@.len(),
                    *a == self.domains@[i as int],
                    *b == other@[i as int],
                    o == Seq::new(other@.len(), |i: int| other@[i]@),
                    forall|q: int| 0 <= q < k ==> a@[q] == b@[q],
                decreases a.len() - k,
            {
                if a[k] != b[k] {
                    assert(a@[k as int] != b@[k as int]);
                    assert(self.doms()[i as int] != o[i as int]);
                    return false;
                }
                k += 1;
            }
            assert(a@ =~= b@);
            assert(self.doms()[i as int] == o[i as int]);
            i += 1;
        }
        assert(self.doms() =~= o);
        true
    }

    /// Sets the candidates of `c` to the distinct values of `values`, adding
    /// `c` to the symbols when it is new.
    pub fn insert(&mut self, c: char, values: &[usize])
        requires
            old(self).wf(),
        ensures
            final(self).wf(),
            forall|x: char| final(self).symbols@.contains(x) == (old(self).symbols@.contains(x) || x == c),
            forall|j: int|
                0 <= j < final(self).symbols@.len() && final(self).symbols@[j] == c ==> (
                #[trigger] final(self).doms()[j]).to_set() == values@.to_set(),
            forall|j: int|
                0 <= j < final(self).symbols@.len() && final(self).symbols@[j] != c ==> exists|k: int|
                    0 <= k < old(self).symbols@.len() && #[trigger] old(self).symbols@[k]
                        == final(self).symbols@[j] && final(self).doms()[j] == old(self).doms()[k],
    {
        let mut dom: Vec<usize> = Vec::new();
        let mut k: usize = 0;
        while k < values.len()
            invariant
                k <= values@.len(),
                strictly_sorted(dom@),
                dom@.to_set() == values@.subrange(0, k as int).to_set(),
            decreases values.len() - k,
        {
            insert_sorted(&mut dom, values[k]);
            proof {
                assert(values@.subrange(0, k + 1) == values@.subrange(0, k as int).push(values@[k as int]));
                values@.subrange(0, k as int).lemma_push_to_set_commute(values@[k as int]);
            }
            k += 1;
        }
        assert(values@.subrange(0, values@.len() as int) == values@);
        let ghost old_syms = self.symbols@;
        let ghost old_doms = self.doms();
        assert(old_syms == old(self).symbols@);
        assert(old_doms == old(self).doms());
        let mut p: usize = 0;
        while p < self.symbols.len() && self.symbols[p] < c
            invariant
                p <= self.symbols@.len(),
                forall|m: int| 0 <= m < p ==> self.symbols@[m] < c,
            decreases self.symbols.len() - p,
        {
            p += 1;
        }
        if p < self.symbols.len() && self.symbols[p] == c {
            self.domains.set(p, dom);
            proof {
                assert forall|j: int| 0 <= j < self.symbols@.len() && self.symbols@[j] != c implies exists|k: int|
                    0 <= k < old_syms.len() && #[trigger] old_syms[k] == self.symbols@[j] && self.doms()[j] == old_doms[k] by {
                    assert(old_syms[j] == self.symbols@[j]);
                    assert(j != p);
                    assert(self.doms()[j] == old_doms[j]);
                }
                assert forall|j: int| 0 <= j < self.domains@.len() implies strictly_sorted(#[trigger] self.doms()[j]) by {
                    if j != p {
                        assert(self.doms()[j] == old_doms[j]);
                    }
                }
            }
        } else {
            self.symbols.insert(p, c);
            self.domains.insert(p, dom);
            proof {
                old_syms.insert_ensures(p as int, c);
                assert forall|a: int, b: int| 0 <= a < b < self.symbols@.len() implies self.symbols@[a] < self.symbols@[b] by {
                    if b < p {
                    } else if a > p {
                        assert(old_syms[a - 1] < old_syms[b - 1]);
                    } else if a == p {
                        assert(b - 1 >= p);
                        if b - 1 > p {
                            assert(old_syms[p as int] < old_syms[b - 1]);
                        }
                    } else if b == p {
                    } else {
                        assert(old_syms[a] < old_syms[b - 1]);
                    }
                }
                assert forall|x: char| self.symbols@.contains(x) == (old_syms.contains(x) || x == c) by {
                    if self.symbols@.contains(x) {
                        let m = choose|m: int| 0 <= m < self.symbols@.len() && self.symbols@[m] == x;
                        if m < p {
                            assert(old_syms[m] == x);
                        } else if m > p {
                            assert(old_syms[m - 1] == x);
                        }
                    }
                    if old_syms.contains(x) {
                        let m = choose|m: int| 0 <= m < old_syms.len() && old_syms[m] == x;
                        if m < p {
                            assert(self.symbols@[m] == x);
                        } else {
                            assert(self.symbols@[m + 1] == x);
                        }
                    }
                    if x == c {
                        assert(self.symbols@[p as int] == x);
                    }
                }
                assert forall|j: int| 0 <= j < self.symbols@.len() && self.symbols@[j] != c implies exists|k: int|
                    0 <= k < old_syms.len() && #[trigger] old_syms[k] == self.symbols@[j] && self.doms()[j] == old_doms[k] by {
                    if j < p {
                        assert(old_syms[j] == self.symbols@[j]);
                        assert(self.doms()[j] == old_doms[j]);
                    } else {
                        assert(j > p);
                        assert(old_syms[j - 1] == self.symbols@[j]);
                        assert(self.doms()[j] == old_doms[j - 1]);
                    }
                }
                assert forall|j: int| 0 <= j < self.domains@.len() implies strictly_sorted(#[trigger] self.doms()[j]) by {
                    if j < p {
                        assert(self.doms()[j] == old_doms[j]);
                    } else if j > p {
                        assert(self.doms()[j] == old_doms[j - 1]);
                    }
                }
            }
        }
    }

    /// A store with no symbols.
    pub fn new() -> (r: DomainStore)
        ensures
            r.wf(),
            r.symbols@.len() == 0,
    {
        DomainStore { symbols: Vec::new(), domains: Vec::new() }
    }
}

/// The values `1..=n` in increasing order.
pub open spec fn full_range(n: nat) -> Seq<usize> {
    Seq::new(n, |k: int| (k + 1) as usize)
}

/// `n` symbols, each with every value of `1..=n` as candidate.
pub open spec fn initial_doms(n: nat) -> Seq<Seq<usize>> {
    Seq::new(n, |i: int| full_range(n))
}

/// Every symbol has exactly one candidate.
pub open spec fn all_single(d: Seq<Seq<usize>>) -> bool {
    forall|i: int| 0 <= i < d.len() ==> #[trigger] d[i].len() == 1
}

/// Some symbol has no candidate left.
pub open spec fn has_empty(d: Seq<Seq<usize>>) -> bool {
    exists|i: int| 0 <= i < d.len() && #[trigger] d[i].len() == 0
}

/// Every candidate list is strictly increasing.
pub open spec fn doms_sorted(d: Seq<Seq<usize>>) -> bool {
    forall|i: int| 0 <= i < d.len() ==> strictly_sorted(#[trigger] d[i])
}

/// Whether `v` occurs in `s`.
pub fn has_value(s: &Vec<usize>, v: usize) -> (r: bool)
    ensures
        r == s@.contains(v),
{
    let mut k: usize = 0;
    while k < s.len()
        invariant
            k <= s.len(),
            forall|m: int| 0 <= m < k ==> s@[m] != v,
        decreases s.len() - k,
    {
        if s[k] == v {
            return true;
        }
        k += 1;
    }
    false
}

/// The values of `d` that do not occur in `gone`, in their order.
pub fn without_values(d: &Vec<usize>, gone: &Vec<usize>) -> (r: Vec<usize>)
    requires
        strictly_sorted(d@),
    ensures
        r@ == d@.filter(|v: usize| !gone@.contains(v)),
        strictly_sorted(r@),
{
    let ghost keep = |v: usize| !gone@.contains(v);
    let mut r: Vec<usize> = Vec::new();
    let mut k: usize = 0;
    while k < d.len()
        invariant
            k <= d.len(),
            strictly_sorted(d@),
            strictly_sorted(r@),
            keep == (|v: usize| !gone@.contains(v)),
            r@ == d@.subrange(0, k as int).filter(keep),
            forall|m: int, p: int| 0 <= m < r@.len() && k <= p < d@.len() ==> r@[m] < d@[p],
        decreases d.len() - k,
    {
        let v = d[k];
        proof {
            assert(d@.subrange(0, k + 1) == d@.subrange(0, k as int).push(v));
            d@.subrange(0, k as int).lemma_filter_push(v, keep);
        }
        let seen = has_value(gone, v);
        if !seen {
            r.push(v);
        }
        k += 1;
    }
    assert(d@.subrange(0, d@.len() as int) == d@);
    r
}

/// Adds `x` to an increasing list, keeping it increasing.
pub fn insert_sorted(v: &mut Vec<usize>, x: usize)
    requires
        strictly_sorted(old(v)@),
    ensures
        strictly_sorted(final(v)@),
        final(v)@.to_set() == old(v)@.to_set().insert(x),
        forall|w: usize| final(v)@.contains(w) ==> old(v)@.contains(w) || w == x,
{
    let mut p: usize = 0;
    while p < v.len() && v[p] < x
        invariant
            p <= v.len(),
            forall|m: int| 0 <= m < p ==> v@[m] < x,
        decreases v.len() - p,
    {
        p += 1;
    }
    if p < v.len() && v[p] == x {
        assert(v@.to_set() =~= v@.to_set().insert(x));
        return;
    }
    let ghost s = v@;
    v.insert(p, x);
    proof {
        s.insert_ensures(p as int, x);
        assert forall|w: usize| v@.contains(w) <==> s.contains(w) || w == x by {
            if v@.contains(w) {
                let m = choose|m: int| 0 <= m < v@.len() && v@[m] == w;
                if m < p {
                    assert(s[m] == w);
                } else if m > p {
                    assert(s[m - 1] == w);
                }
            }
            if s.contains(w) {
                let m = choose|m: int| 0 <= m < s.len() && s[m] == w;
                if m < p {
                    assert(v@[m] == w);
                } else {
                    assert(v@[m + 1] == w);
                }
            }
            if w == x {
                assert(v@[p as int] == w);
            }
        }
        assert(v@.to_set() =~= s.to_set().insert(x));
    }
}

/// Pushing `x` adds exactly `x` to what a sequence contains.
pub proof fn lemma_push_contains(s: Seq<usize>, x: usize, w: usize)
    ensures
        s.push(x).contains(w) == (s.contains(w) || w == x),
{
    if s.contains(w) {
        let r = choose|r: int| 0 <= r < s.len() && s[r] == w;
        assert(s.push(x)[r] == w);
    }
    if s.push(x).contains(w) {
        let r = choose|r: int| 0 <= r < s.len() + 1 && s.push(x)[r] == w;
        if r < s.len() {
            assert(s[r] == w);
        }
    }
    assert(s.push(x)[s.len() as int] == x);
}

} // verus!
