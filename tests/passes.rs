use letter_sums::bounds::{reduce_by_max_value, Row};
use letter_sums::model::{build_row, symbol_universe};
use letter_sums::solver::{solve, SolveError};
use letter_sums::singles::remove_singles;
use letter_sums::store::DomainStore;
use letter_sums::tuples::remove_hidden_tuples;

fn store_of(entries: &[(char, &[usize])]) -> DomainStore {
    let mut s = DomainStore::new();
    for (c, values) in entries {
        s.insert(*c, values);
    }
    s
}

fn domains(s: &DomainStore) -> Vec<Vec<usize>> {
    s.domains.clone()
}

#[test]
fn insert_orders_symbols_and_values() {
    let s = store_of(&[('c', &[3, 1, 3]), ('a', &[2]), ('b', &[])]);
    assert_eq!(s.symbols, vec!['a', 'b', 'c']);
    assert_eq!(domains(&s), vec![vec![2], vec![], vec![1, 3]]);
    let mut t = s;
    t.insert('b', &[5, 4]);
    assert_eq!(domains(&t), vec![vec![2], vec![4, 5], vec![1, 3]]);
}

#[test]
fn singles_leave_other_symbols() {
    let mut s = store_of(&[('A', &[1]), ('B', &[1, 2]), ('C', &[1, 2, 3])]);
    remove_singles(&mut s);
    assert_eq!(domains(&s), vec![vec![1], vec![2], vec![2, 3]]);
}

#[test]
fn equal_singles_empty_each_other() {
    let mut s = store_of(&[('A', &[4]), ('B', &[4]), ('C', &[4, 5])]);
    remove_singles(&mut s);
    assert_eq!(domains(&s), vec![vec![], vec![], vec![5]]);
}

#[test]
fn hidden_pair_is_stripped() {
    let mut s = store_of(&[
        ('A', &[1, 2]),
        ('B', &[1, 2]),
        ('C', &[1, 2, 3, 4]),
        ('D', &[1, 2, 3, 4]),
    ]);
    remove_hidden_tuples(&mut s);
    assert_eq!(domains(&s), vec![vec![1, 2], vec![1, 2], vec![3, 4], vec![3, 4]]);
}

#[test]
fn hidden_triple_is_stripped() {
    let mut s = store_of(&[
        ('A', &[1, 2]),
        ('B', &[1]),
        ('C', &[1, 3]),
        ('D', &[1, 2, 3, 4, 5]),
        ('E', &[1, 2, 3, 4, 5]),
    ]);
    remove_hidden_tuples(&mut s);
    assert_eq!(
        domains(&s),
        vec![vec![1, 2], vec![1], vec![1, 3], vec![4, 5], vec![4, 5]]
    );
}

#[test]
fn cluster_with_wide_union_is_kept() {
    let full: &[usize] = &[1, 2, 3, 4, 5, 6];
    let mut s = store_of(&[
        ('A', &[1, 2, 3]),
        ('B', &[1]),
        ('C', &[1, 4, 5]),
        ('D', full),
        ('E', full),
        ('F', full),
    ]);
    let before = domains(&s);
    remove_hidden_tuples(&mut s);
    assert_eq!(domains(&s), before);
}

#[test]
fn bound_drops_values_too_large() {
    let mut s = store_of(&[('A', &[1, 2, 3]), ('B', &[1, 2, 3])]);
    let rows = vec![Row { terms: vec![(0, 2), (1, 1)], target: 5 }];
    reduce_by_max_value(&mut s, &rows);
    assert_eq!(domains(&s), vec![vec![1, 2], vec![1, 2, 3]]);
}

#[test]
fn bound_keeps_values_the_estimate_took() {
    let mut s = store_of(&[('A', &[2]), ('B', &[2, 5])]);
    let rows = vec![Row { terms: vec![(0, 1), (1, 1)], target: 3 }];
    reduce_by_max_value(&mut s, &rows);
    assert_eq!(domains(&s), vec![vec![2], vec![2]]);
}

#[test]
fn rows_count_letters_by_frequency() {
    let input = [("Banana", 10u32), ("nab", 7)];
    let symbols = symbol_universe(&input);
    assert_eq!(symbols, vec!['A', 'B', 'N']);
    let row = build_row(&symbols, "Banana", 10);
    assert_eq!(row.terms, vec![(0, 3), (2, 2), (1, 1)]);
    assert_eq!(row.target, 10);
    let row = build_row(&symbols, "nab", 7);
    assert_eq!(row.terms, vec![(0, 1), (1, 1), (2, 1)]);
}

#[test]
fn small_puzzle_solves() {
    let input = [("ab", 3u32), ("a", 1)];
    assert_eq!(solve(&input), Ok(vec![('A', 1), ('B', 2)]));
}

#[test]
fn empty_puzzle_solves_to_nothing() {
    let input: [(&str, u32); 0] = [];
    assert_eq!(solve(&input), Ok(vec![]));
}

#[test]
fn stuck_puzzle_is_unsolved() {
    let input = [("AB", 100u32)];
    assert_eq!(solve(&input), Err(SolveError::Unsolved));
}

#[test]
fn impossible_puzzle_is_contradiction() {
    let input = [("A", 5u32)];
    assert_eq!(solve(&input), Err(SolveError::Contradiction));
}

fn dance_words() -> Vec<(&'static str, u32)> {
    vec![
        ("BOOGIE", 58),
        ("BOSSANOVA", 66),
        ("CHACHACHA", 18),
        ("CHARLESTON", 76),
        ("FLAMENCO", 62),
        ("FOXTROTT", 102),
        ("JIVE", 69),
        ("LAMBADA", 29),
        ("MAMBO", 20),
        ("PASODOBLE", 63),
        ("QUICKSTEP", 118),
        ("ROCKNROLL", 88),
        ("RUMBA", 43),
        ("SAMBA", 18),
        ("SHIMMY", 59),
        ("SIRTAKI", 83),
        ("TANGO", 47),
        ("TWIST", 68),
        ("WALZER", 80),
    ]
}

fn dance_rows(symbols: &Vec<char>) -> Vec<Row> {
    dance_words()
        .iter()
        .map(|(w, t)| build_row(symbols, w, *t))
        .collect()
}

#[test]
fn solved_store_is_a_fixpoint() {
    let words = dance_words();
    let symbols = symbol_universe(&words);
    let rows = dance_rows(&symbols);
    let sol = solve(&words).unwrap();
    let mut s = DomainStore::new();
    for (c, v) in &sol {
        s.insert(*c, &[*v]);
    }
    let before = domains(&s);
    reduce_by_max_value(&mut s, &rows);
    assert_eq!(domains(&s), before);
    remove_hidden_tuples(&mut s);
    assert_eq!(domains(&s), before);
    remove_singles(&mut s);
    assert_eq!(domains(&s), before);
}

#[test]
fn a_round_only_shrinks() {
    let words = dance_words();
    let symbols = symbol_universe(&words);
    let rows = dance_rows(&symbols);
    let n = symbols.len();
    let mut s = DomainStore::with_full_range(symbols);
    for _ in 0..3 {
        let before = domains(&s);
        reduce_by_max_value(&mut s, &rows);
        remove_hidden_tuples(&mut s);
        remove_singles(&mut s);
        for (i, d) in domains(&s).iter().enumerate() {
            assert!(d.len() <= before[i].len());
            assert!(d.iter().all(|v| before[i].contains(v) && *v >= 1 && *v <= n));
        }
    }
}

#[test]
fn planted_solution_survives_every_round() {
    let words = dance_words();
    let symbols = symbol_universe(&words);
    let rows = dance_rows(&symbols);
    let planted = [
        1, 5, 2, 9, 10, 18, 15, 3, 16, 23, 17, 8, 4, 13, 6, 11, 24, 14, 7, 12, 19, 20, 21, 22, 25,
        26,
    ];
    let mut s = DomainStore::with_full_range(symbols);
    for _ in 0..30 {
        reduce_by_max_value(&mut s, &rows);
        remove_hidden_tuples(&mut s);
        remove_singles(&mut s);
        for (i, d) in domains(&s).iter().enumerate() {
            assert!(d.contains(&planted[i]));
        }
    }
}

#[test]
fn bound_leaves_singles_within_target() {
    let mut s = store_of(&[('A', &[1]), ('B', &[2])]);
    let rows = vec![Row { terms: vec![(0, 1), (1, 1)], target: 10 }];
    reduce_by_max_value(&mut s, &rows);
    assert_eq!(domains(&s), vec![vec![1], vec![2]]);
}
