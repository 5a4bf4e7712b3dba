use crate::bounds::Row;
use crate::store::symbols_sorted;
use vstd::prelude::*;
use vstd::string::*;

verus! {

/// A letter in upper case; every other character is its own symbol.
pub open spec fn upper(c: char) -> char {
    if 'a' <= c && c <= 'z' {
        ((c as u8) - 32u8) as char
    } else {
        c
    }
}

/// The symbol that a character of a word stands for.
pub fn to_symbol(c: char) -> (r: char)
    ensures
        r == upper(c),
{
    if 'a' <= c && c <= 'z' {
        ((c as u8) - 32) as char
    } else {
        c
    }
}

/// `c` is the symbol of some character of some word of `input`.
pub open spec fn in_words(input: Seq<(&str, u32)>, c: char) -> bool {
    exists|w: int, i: int|
        0 <= w < input.len() && 0 <= i < input[w].0@.len() && upper(#[trigger] input[w].0@[i]) == c
}

/// The symbols of the puzzle in increasing order.
pub open spec fn universe(input: Seq<(&str, u32)>) -> Seq<char> {
    choose|s: Seq<char>| symbols_sorted(s) && forall|c: char| s.contains(c) == in_words(input, c)
}

/// Two increasing lists of symbols with the same members are equal.
pub proof fn lemma_symbols_unique(a: Seq<char>, b: Seq<char>)
    requires
        symbols_sorted(a),
        symbols_sorted(b),
        forall|c: char| a.contains(c) == b.contains(c),
    ensures
        a == b,
    decreases a.len(),
{
    if a.len() == 0 {
        if b.len() > 0 {
            assert(b.contains(b[0]));
        }
    } else if b.len() == 0 {
        assert(a.contains(a[0]));
    } else {
        assert(a.contains(a[0]));
        assert(b.contains(b[0]));
        let j = choose|j: int| 0 <= j < b.len() && b[j] == a[0];
        let k = choose|k: int| 0 <= k < a.len() && a[k] == b[0];
        if j > 0 {
            assert(b[0] < b[j]);
            if k > 0 {
                assert(a[0] < a[k]);
            }
        }
        assert(a[0] == b[0]);
        let a1 = a.drop_first();
        let b1 = b.drop_first();
        assert forall|c: char| a1.contains(c) == b1.contains(c) by {
            if a1.contains(c) {
                let q = choose|q: int| 0 <= q < a1.len() && a1[q] == c;
                assert(a[q + 1] == c);
                assert(a[0] < a[q + 1]);
                assert(b.contains(c));
                let r = choose|r: int| 0 <= r < b.len() && b[r] == c;
                assert(r != 0);
                assert(b1[r - 1] == c);
            }
            if b1.contains(c) {
                let q = choose|q: int| 0 <= q < b1.len() && b1[q] == c;
                assert(b[q + 1] == c);
                assert(b[0] < b[q + 1]);
                assert(a.contains(c));
                let r = choose|r: int| 0 <= r < a.len() && a[r] == c;
                assert(r != 0);
                assert(a1[r - 1] == c);
            }
        }
        lemma_symbols_unique(a1, b1);
        assert(a =~= seq![a[0]] + a1);
        assert(b =~= seq![b[0]] + b1);
    }
}

/// Adds `c` to an increasing list of symbols, keeping it increasing.
fn insert_symbol(v: &mut Vec<char>, c: char)
    requires
        symbols_sorted(old(v)@),
    ensures
        symbols_sorted(final(v)@),
        forall|x: char| final(v)@.contains(x) == (old(v)@.contains(x) || x == c),
{
    let mut p: usize = 0;
    while p < v.len() && v[p] < c
        invariant
            p <= v.len(),
            forall|m: int| 0 <= m < p ==> v@[m] < c,
        decreases v.len() - p,
    {
        p += 1;
    }
    if p < v.len() && v[p] == c {
        return;
    }
    let ghost s = v@;
    v.insert(p, c);
    proof {
        s.insert_ensures(p as int, c);
        assert forall|w: char| v@.contains(w) == (s.contains(w) || w == c) by {
            if v@.contains(w) {
                let m = choose|m: int| 0 <= m < v@.len() && v@[m] == w;
                if m < p {
                    assert(s[m] == w);
                } else if m > p {
                    assert(s[m - 1] == w);
                }
            }
            if s.contains(w) {
                let m = choose|m: int| 0 <= m < s.len() && s[m] == w;
                if m < p {
                    assert(v@[m] == w);
                } else {
                    assert(v@[m + 1] == w);
                }
            }
            if w == c {
                assert(v@[p as int] == w);
            }
        }
    }
}

/// The distinct symbols of all words, in increasing order.
pub fn symbol_universe(input: &[(&str, u32)]) -> (r: Vec<char>)
    ensures
        r@ == universe(input@),
        symbols_sorted(r@),
        forall|c: char| r@.contains(c) == in_words(input@, c),
{
    let mut r: Vec<char> = Vec::new();
    let mut w: usize = 0;
    while w < input.len()
        invariant
            w <= input@.len(),
            symbols_sorted(r@),
            forall|c: char|
                r@.contains(c) == exists|x: int, i: int|
                    0 <= x < w && 0 <= i < input@[x].0@.len() && upper(#[trigger] input@[x].0@[i])
                        == c,
        decreases input.len() - w,
    {
        let word = input[w].0;
        let len = word.unicode_len();
        let mut i: usize = 0;
        while i < len
            invariant
                i <= len,
                w < input@.len(),
                word == input@[w as int].0,
                len == word@.len(),
                symbols_sorted(r@),
                forall|c: char|
                    r@.contains(c) == ((exists|x: int, j: int|
                        0 <= x < w && 0 <= j < input@[x].0@.len() && upper(
                            #[trigger] input@[x].0@[j],
                        ) == c) || exists|j: int| 0 <= j < i && upper(#[trigger] word@[j]) == c),
            decreases len - i,
        {
            let c = to_symbol(word.get_char(i));
            insert_symbol(&mut r, c);
            i += 1;
        }
        proof {
            assert forall|c: char|
                r@.contains(c) == exists|x: int, i: int|
                    0 <= x < w + 1 && 0 <= i < input@[x].0@.len() && upper(
                        #[trigger] input@[x].0@[i],
                    ) == c by {
                if exists|j: int| 0 <= j < len && upper(#[trigger] word@[j]) == c {
                    let j = choose|j: int| 0 <= j < len && upper(#[trigger] word@[j]) == c;
                    assert(upper(input@[w as int].0@[j]) == c);
                }
                if exists|x: int, i: int|
                    0 <= x < w + 1 && 0 <= i < input@[x].0@.len() && upper(
                        #[trigger] input@[x].0@[i],
                    ) == c {
                    let (x, i) = choose|x: int, i: int|
                        0 <= x < w + 1 && 0 <= i < input@[x].0@.len() && upper(
                            #[trigger] input@[x].0@[i],
                        ) == c;
                    if x == w {
                        assert(upper(word@[i]) == c);
                    }
                }
            }
        }
        w += 1;
    }
    proof {
        lemma_symbols_unique(r@, universe(input@));
    }
    r
}

/// How many characters of `word` stand for the symbol `c`.
pub open spec fn count_of(word: Seq<char>, c: char) -> nat {
    word.filter(|x: char| upper(x) == c).len()
}

/// The count of each symbol in `word`.
pub open spec fn counts_of(syms: Seq<char>, word: Seq<char>) -> Seq<nat> {
    Seq::new(syms.len(), |s: int| count_of(word, syms[s]))
}

/// Terms `(s, c)` for the positions `s` below `m` whose count is `c`, by
/// increasing position.
pub open spec fn with_count(counts: Seq<nat>, c: nat, m: int) -> Seq<(usize, usize)>
    decreases m,
{
    if m <= 0 {
        Seq::empty()
    } else if counts[m - 1] == c {
        with_count(counts, c, m - 1).push(((m - 1) as usize, c as usize))
    } else {
        with_count(counts, c, m - 1)
    }
}

/// Terms with counts from `hi` down to `lo + 1`, largest count first.
pub open spec fn descending(counts: Seq<nat>, hi: nat, lo: nat) -> Seq<(usize, usize)>
    decreases hi - lo,
{
    if lo >= hi {
        Seq::empty()
    } else {
        descending(counts, hi, lo + 1) + with_count(counts, (lo + 1) as nat, counts.len() as int)
    }
}

/// The terms of a word: each symbol that occurs in it with its count, by
/// decreasing count, ties by increasing position.
pub open spec fn row_terms(syms: Seq<char>, word: Seq<char>) -> Seq<(usize, usize)> {
    descending(counts_of(syms, word), word.len(), 0)
}

/// Terms name positions below the number of counts.
pub proof fn lemma_with_count_fit(counts: Seq<nat>, c: nat, m: int, q: int)
    requires
        0 <= m <= counts.len(),
        0 <= q < with_count(counts, c, m).len(),
    ensures
        (with_count(counts, c, m)[q].0 as int) < counts.len(),
    decreases m,
{
    if m > 0 {
        if counts[m - 1] == c && q == with_count(counts, c, m - 1).len() {
        } else {
            lemma_with_count_fit(counts, c, m - 1, q);
        }
    }
}

proof fn lemma_descending_fit(counts: Seq<nat>, hi: nat, lo: nat, q: int)
    requires
        0 <= q < descending(counts, hi, lo).len(),
    ensures
        (descending(counts, hi, lo)[q].0 as int) < counts.len(),
    decreases hi - lo,
{
    if lo < hi {
        let head = descending(counts, hi, lo + 1);
        if q < head.len() {
            lemma_descending_fit(counts, hi, lo + 1, q);
        } else {
            lemma_with_count_fit(counts, (lo + 1) as nat, counts.len() as int, q - head.len());
        }
    }
}

/// The terms of a word name positions of the symbol list.
pub proof fn lemma_row_terms_fit(syms: Seq<char>, word: Seq<char>, q: int)
    requires
        0 <= q < row_terms(syms, word).len(),
    ensures
        (row_terms(syms, word)[q].0 as int) < syms.len(),
{
    lemma_descending_fit(counts_of(syms, word), word.len(), 0, q);
}

/// Position of `c` in an increasing list of symbols that holds it.
pub fn slot_of(symbols: &Vec<char>, c: char) -> (r: usize)
    requires
        symbols@.contains(c),
    ensures
        r < symbols@.len(),
        symbols@[r as int] == c,
{
    let mut k: usize = 0;
    while k < symbols.len()
        invariant
            k <= symbols@.len(),
            symbols@.contains(c),
            forall|m: int| 0 <= m < k ==> symbols@[m] != c,
        decreases symbols.len() - k,
    {
        if symbols[k] == c {
            return k;
        }
        k += 1;
    }
    proof {
        let m = choose|m: int| 0 <= m < symbols@.len() && symbols@[m] == c;
        assert(false);
    }
    0
}

/// The row of a word: its terms, as `row_terms` gives them, and its target.
pub fn build_row(symbols: &Vec<char>, word: &str, target: u32) -> (r: Row)
    requires
        symbols_sorted(symbols@),
        forall|i: int| 0 <= i < word@.len() ==> symbols@.contains(upper(#[trigger] word@[i])),
    ensures
        r.terms@ == row_terms(symbols@, word@),
        r.target == target,
{
    let ghost syms = symbols@;
    let n = symbols.len();
    let len = word.unicode_len();
    let mut counts: Vec<usize> = Vec::new();
    while counts.len() < n
        invariant
            counts@.len() <= n,
            forall|s: int| 0 <= s < counts@.len() ==> counts@[s] == 0,
        decreases n - counts.len(),
    {
        counts.push(0);
    }
    let mut i: usize = 0;
    while i < len
        invariant
            i <= len,
            len == word@.len(),
            n == syms.len(),
            syms == symbols@,
            symbols_sorted(syms),
            counts@.len() == n,
            forall|i: int| 0 <= i < word@.len() ==> symbols@.contains(upper(#[trigger] word@[i])),
            forall|s: int|
                0 <= s < n ==> #[trigger] counts@[s] == count_of(word@.subrange(0, i as int), syms[s])
                    && counts@[s] <= i,
        decreases len - i,
    {
        let ch = word.get_char(i);
        let sym = to_symbol(ch);
        assert(symbols@.contains(upper(word@[i as int])));
        let k = slot_of(symbols, sym);
        proof {
            assert(word@.subrange(0, i + 1) == word@.subrange(0, i as int).push(ch));
            assert forall|s: int| 0 <= s < n implies count_of(word@.subrange(0, i + 1), syms[s])
                == count_of(word@.subrange(0, i as int), syms[s]) + if s == k {
                1int
            } else {
                0int
            } by {
                word@.subrange(0, i as int).lemma_filter_push(ch, |x: char| upper(x) == syms[s]);
                if s != k {
                    assert(syms[s] != syms[k as int]) by {
                        if s < k {
                            assert(syms[s] < syms[k as int]);
                        } else {
                            assert(syms[k as int] < syms[s]);
                        }
                    }
                }
            }
        }
        let cur = counts[k];
        counts.set(k, cur + 1);
        i += 1;
    }
    assert(word@.subrange(0, len as int) == word@);
    let ghost cs = counts_of(syms, word@);
    assert forall|s: int| 0 <= s < n implies #[trigger] counts@[s] == cs[s] by {}
    let mut terms: Vec<(usize, usize)> = Vec::new();
    let mut c: usize = len;
    while c > 0
        invariant
            c <= len,
            len == word@.len(),
            n == syms.len(),
            cs == counts_of(syms, word@),
            counts@.len() == n,
            forall|s: int| 0 <= s < n ==> #[trigger] counts@[s] == cs[s],
            terms@ == descending(cs, len as nat, c as nat),
        decreases c,
    {
        let ghost prefix = terms@;
        let mut s: usize = 0;
        while s < n
            invariant
                s <= n,
                0 < c <= len,
                n == syms.len(),
                cs.len() == n,
                counts@.len() == n,
                forall|s: int| 0 <= s < n ==> #[trigger] counts@[s] == cs[s],
                terms@ == prefix + with_count(cs, c as nat, s as int),
            decreases n - s,
        {
            if counts[s] == c {
                terms.push((s, c));
            }
            assert(with_count(cs, c as nat, s + 1) == if cs[s as int] == c {
                with_count(cs, c as nat, s as int).push((s, c))
            } else {
                with_count(cs, c as nat, s as int)
            });
            s += 1;
        }
        c -= 1;
    }
    Row { terms, target }
}

} // verus!
