use twenty_five::table::build_allowed_table;
use twenty_five::words::load_words;

fn word_list(raw: &[&str]) -> Vec<(usize, String)> {
    let lines: Vec<String> = raw.iter().map(|line| line.to_string()).collect();
    load_words(&lines).0
}

#[test]
fn table_of_no_words_is_empty() {
    let table: Vec<Vec<bool>> = build_allowed_table(&Vec::new());
    assert!(table.is_empty());
}

#[test]
fn table_of_one_word_holds_false() {
    assert_eq!(build_allowed_table(&word_list(&["fjord"])), vec![vec![false]]);
}

#[test]
fn table_entries_for_three_words() {
    let words = word_list(&["fjord", "gucks", "forks"]);
    let table = build_allowed_table(&words);
    assert_eq!(
        table,
        vec![
            vec![false, true, false],
            vec![false, false, false],
            vec![false, false, false],
        ]
    );
}

#[test]
fn table_is_square_and_strictly_upper_triangular() {
    let words = word_list(&["fjord", "gucks", "nymph", "vibex", "waltz", "stare", "blitz"]);
    let table = build_allowed_table(&words);
    assert_eq!(table.len(), words.len());
    for i in 0..words.len() {
        assert_eq!(table[i].len(), words.len());
        for j in 0..words.len() {
            let expected: bool = i < j && words[i].0 & words[j].0 == 0;
            assert_eq!(table[i][j], expected);
            if i >= j {
                assert!(!table[i][j]);
            }
        }
    }
}

#[test]
fn table_reads_masks_only() {
    let words: Vec<(usize, String)> = vec![
        (0b0011, String::new()),
        (0b1100, String::new()),
        (0b0110, String::new()),
        (0, String::new()),
    ];
    assert_eq!(
        build_allowed_table(&words),
        vec![
            vec![false, true, false, true],
            vec![false, false, false, true],
            vec![false, false, false, true],
            vec![false, false, false, false],
        ]
    );
}
