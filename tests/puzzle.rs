use letter_sums::solver::{solve, SolveError};
use letter_sums::store::DomainStore;
use letter_sums::translate::{translate_into_symbols, TranslateError};
use letter_sums::tuples::get_real_subsets;

fn dance_words() -> Vec<(&'static str, u32)> {
    vec![
        ("BOOGIE", 58),
        ("BOSSANOVA", 66),
        ("CHACHACHA", 18),
        ("CHARLESTON", 76),
        ("FLAMENCO", 62),
        ("FOXTROTT", 102),
        ("JIVE", 69),
        ("LAMBADA", 29),
        ("MAMBO", 20),
        ("PASODOBLE", 63),
        ("QUICKSTEP", 118),
        ("ROCKNROLL", 88),
        ("RUMBA", 43),
        ("SAMBA", 18),
        ("SHIMMY", 59),
        ("SIRTAKI", 83),
        ("TANGO", 47),
        ("TWIST", 68),
        ("WALZER", 80),
    ]
}

#[test]
fn puzzle1() {
    let input = dance_words();
    let solution = [9, 16, 7, 2, 6, 18, 6, 22];

    let sol = solve(&input).unwrap();
    let sol_string = translate_into_symbols(&sol, &solution).unwrap();
    assert_eq!(sol_string, "DISCOFOX");

    let sol_exp = vec![
        ('A', 1),
        ('B', 5),
        ('C', 2),
        ('D', 9),
        ('E', 10),
        ('F', 18),
        ('G', 15),
        ('H', 3),
        ('I', 16),
        ('J', 23),
        ('K', 17),
        ('L', 8),
        ('M', 4),
        ('N', 13),
        ('O', 6),
        ('P', 11),
        ('Q', 24),
        ('R', 14),
        ('S', 7),
        ('T', 12),
        ('U', 19),
        ('V', 20),
        ('W', 21),
        ('X', 22),
        ('Y', 25),
        ('Z', 26),
    ];
    assert_eq!(sol, sol_exp);
}

#[test]
fn realsubset() {
    let mut candidates = DomainStore::new();
    let tuple_len = 3;

    candidates.insert('e', &[2, 6, 7, 8, 9]);
    candidates.insert('a', &[4, 5, 6]);
    candidates.insert('g', &[9]);
    candidates.insert('b', &[4, 6]);
    candidates.insert('c', &[4, 5, 6]);
    candidates.insert('d', &[1, 2, 3]);
    candidates.insert('f', &[2, 4, 7, 8, 9]);

    let res = get_real_subsets(&candidates, tuple_len);
    assert_eq!(res, vec![vec!['a', 'b', 'c']]);
}

#[test]
fn realsubset2() {
    let mut candidates = DomainStore::new();
    let tuple_len = 2;

    candidates.insert('B', &[5]);
    candidates.insert('C', &[2, 3]);
    candidates.insert('D', &[8, 9]);
    candidates.insert('E', &[8, 9, 10, 11]);
    candidates.insert('F', &[8, 9, 10, 11, 12, 13, 14, 15, 16]);
    candidates.insert(
        'K',
        &[8, 9, 10, 11, 12, 13, 14, 15, 16, 17, 18, 19, 20],
    );
    candidates.insert('L', &[8, 9]);
    candidates.insert('M', &[4]);
    candidates.insert('H', &[2, 3]);

    let res = get_real_subsets(&candidates, tuple_len);
    assert_eq!(res, vec![vec!['C', 'H'], vec!['D', 'L']]);
}

#[test]
fn puzzle_second_query() {
    // Under the solved assignment (D=9, I=16, S=7, C=2, O=6, L=8, X=22) this
    // query reads DISCOLIOX.
    let sol = solve(&dance_words()).unwrap();
    let query = [9, 16, 7, 2, 6, 8, 16, 6, 22];
    assert_eq!(translate_into_symbols(&sol, &query).unwrap(), "DISCOLIOX");
}

#[test]
fn puzzle_query_foxtrott() {
    let sol = solve(&dance_words()).unwrap();
    let query = [18, 6, 22, 12, 14, 6, 12, 12];
    assert_eq!(translate_into_symbols(&sol, &query).unwrap(), "FOXTROTT");
}

#[test]
fn translate_missing_and_ambiguous() {
    let assignment = vec![('A', 1), ('B', 2), ('C', 2)];
    assert_eq!(translate_into_symbols(&assignment, &[1, 3]), Err(TranslateError::Missing));
    assert_eq!(translate_into_symbols(&assignment, &[2, 3]), Err(TranslateError::Ambiguous));
    assert_eq!(translate_into_symbols(&assignment, &[1, 1]).unwrap(), "AA");
    assert_eq!(translate_into_symbols(&assignment, &[]).unwrap(), "");
}

#[test]
fn translate_gives_upper_case() {
    let assignment = vec![('a', 1), ('B', 2)];
    assert_eq!(translate_into_symbols(&assignment, &[1, 2, 1]).unwrap(), "ABA");
}
