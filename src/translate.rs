use crate::model::{to_symbol, upper};
use vstd::prelude::*;

verus! {

/// Why a list of values could not be read back as symbols.
#[derive(Debug, PartialEq, Eq, Clone, Copy, Structural)]
pub enum TranslateError {
    /// No symbol has the value.
    Missing,
    /// More than one symbol has the value.
    Ambiguous,
}

/// The entries of `a` whose value is `v`.
pub open spec fn holders(a: Seq<(char, usize)>, v: usize) -> Seq<(char, usize)> {
    a.filter(value_is(v))
}

/// Whether an entry has the value `v`.
pub open spec fn value_is(v: usize) -> spec_fn((char, usize)) -> bool {
    |p: (char, usize)| p.1 == v
}

/// Exactly one entry of `a` has the value `v`.
pub open spec fn readable(a: Seq<(char, usize)>, v: usize) -> bool {
    holders(a, v).len() == 1
}

/// Relies on `String::push`: appends the character at the end.
#[verifier::external_body]
fn push_char(s: &mut String, c: char)
    ensures
        final(s)@ == old(s)@.push(c),
{
    s.push(c)
}

/// The entries of `a` with the value `v`, in order.
fn find_holders(a: &[(char, usize)], v: usize) -> (r: Vec<(char, usize)>)
    ensures
        r@ == holders(a@, v),
{
    let ghost pred = value_is(v);
    let mut r: Vec<(char, usize)> = Vec::new();
    let mut j: usize = 0;
    while j < a.len()
        invariant
            j <= a@.len(),
            pred == value_is(v),
            r@ == a@.subrange(0, j as int).filter(pred),
        decreases a.len() - j,
    {
        let e = a[j];
        proof {
            assert(a@.subrange(0, j + 1) == a@.subrange(0, j as int).push(e));
            a@.subrange(0, j as int).lemma_filter_push(e, pred);
        }
        if e.1 == v {
            r.push(e);
        }
        j += 1;
    }
    assert(a@.subrange(0, a@.len() as int) == a@);
    r
}

/// Reads each value of `query` back as the one symbol that holds it in
/// `assignment`, lower-case ASCII letters given in upper case. Fails at the first value that no symbol holds, or that more
/// than one symbol holds.
pub fn translate_into_symbols(assignment: &[(char, usize)], query: &[usize]) -> (r: Result<
    String,
    TranslateError,
>)
    ensures
        match r {
            Ok(s) => (forall|k: int| 0 <= k < query@.len() ==> readable(assignment@, #[trigger] query@[k]))
                && s@ == Seq::new(query@.len(), |k: int| upper(holders(assignment@, query@[k])[0].0)),
            Err(e) => exists|k: int|
                0 <= k < query@.len() && !readable(assignment@, #[trigger] query@[k]) && (forall|m: int|
                    0 <= m < k ==> readable(assignment@, #[trigger] query@[m])) && e == if holders(
                    assignment@,
                    query@[k],
                ).len() == 0 {
                    TranslateError::Missing
                } else {
                    TranslateError::Ambiguous
                },
        },
{
    let mut s = String::new();
    let mut k: usize = 0;
    while k < query.len()
        invariant
            k <= query@.len(),
            forall|m: int| 0 <= m < k ==> readable(assignment@, #[trigger] query@[m]),
            s@ == Seq::new(k as nat, |m: int| upper(holders(assignment@, query@[m])[0].0)),
        decreases query.len() - k,
    {
        let hits = find_holders(assignment, query[k]);
        if hits.len() == 0 {
            return Err(TranslateError::Missing);
        }
        if hits.len() > 1 {
            return Err(TranslateError::Ambiguous);
        }
        push_char(&mut s, to_symbol(hits[0].0));
        k += 1;
        assert(s@ =~= Seq::new(k as nat, |m: int| upper(holders(assignment@, query@[m])[0].0)));
    }
    Ok(s)
}

} // verus!
