use twenty_five::mask::encode_word;
use twenty_five::search::{candidates_after, find_solutions, narrow, Solution};
use twenty_five::table::build_allowed_table;
use twenty_five::words::load_words;

fn word_list(raw: &[&str]) -> Vec<(usize, String)> {
    let lines: Vec<String> = raw.iter().map(|line| line.to_string()).collect();
    load_words(&lines).0
}

fn solve(raw: &[&str]) -> Vec<Solution> {
    find_solutions(&build_allowed_table(&word_list(raw)))
}

fn masks_table(masks: &[usize]) -> Vec<Vec<bool>> {
    let words: Vec<(usize, String)> = masks.iter().map(|mask| (*mask, String::new())).collect();
    build_allowed_table(&words)
}

/// Every strictly increasing five-tuple, tested pair by pair.
fn brute_force(table: &Vec<Vec<bool>>) -> Vec<Solution> {
    let n: usize = table.len();
    let mut all: Vec<Solution> = Vec::new();
    for a in 0..n {
        for b in (a + 1)..n {
            for c in (b + 1)..n {
                for d in (c + 1)..n {
                    for e in (d + 1)..n {
                        let picks: [usize; 5] = [a, b, c, d, e];
                        let mut good: bool = true;
                        for i in 0..5 {
                            for j in (i + 1)..5 {
                                good = good && table[picks[i]][picks[j]];
                            }
                        }
                        if good {
                            all.push((a, b, c, d, e));
                        }
                    }
                }
            }
        }
    }
    all
}

#[test]
fn candidates_after_lists_allowed_later_indices() {
    let table = masks_table(&[0b0001, 0b0010, 0b0011, 0b0100, 0b1001, 0b1000]);
    let mut out: Vec<usize> = vec![99, 98];
    candidates_after(&table, 0, &mut out);
    assert_eq!(out, vec![1, 3, 5]);
    candidates_after(&table, 2, &mut out);
    assert_eq!(out, vec![3, 5]);
    candidates_after(&table, 5, &mut out);
    assert!(out.is_empty());
}

#[test]
fn narrow_filters_the_previous_candidates() {
    let table = masks_table(&[0b0001, 0b0010, 0b0011, 0b0100, 0b1001, 0b1000]);
    let mut first: Vec<usize> = Vec::new();
    candidates_after(&table, 0, &mut first);
    let mut second: Vec<usize> = vec![7];
    narrow(&first, &table, 1, &mut second);
    assert_eq!(second, vec![3, 5]);
    narrow(&first, &table, 3, &mut second);
    assert_eq!(second, vec![5]);
    narrow(&first, &table, 5, &mut second);
    assert!(second.is_empty());
    narrow(&Vec::new(), &table, 0, &mut second);
    assert!(second.is_empty());
}

#[test]
fn narrow_keeps_order_and_repeats_of_its_input() {
    let table = masks_table(&[0b0001, 0b0010, 0b0100, 0b1000]);
    let mut out: Vec<usize> = Vec::new();
    narrow(&vec![3, 0, 2, 2, 1, 3], &table, 1, &mut out);
    assert_eq!(out, vec![3, 2, 2, 3]);
}

#[test]
fn five_disjoint_words_give_one_solution() {
    assert_eq!(solve(&["fjord", "gucks", "nymph", "vibex", "waltz"]), vec![(0, 1, 2, 3, 4)]);
}

#[test]
fn listed_five_give_one_solution_if_pairwise_disjoint() {
    let raw: [&str; 5] = ["nymph", "glory", "vodka", "waltz", "squib"];
    let words = word_list(&raw);
    assert_eq!(words.len(), 5);
    let mut disjoint: bool = true;
    for i in 0..5 {
        for j in (i + 1)..5 {
            disjoint = disjoint && words[i].0 & words[j].0 == 0;
        }
    }
    let expected: Vec<Solution> = if disjoint { vec![(0, 1, 2, 3, 4)] } else { Vec::new() };
    assert_eq!(solve(&raw), expected);
    assert!(!disjoint);
}

#[test]
fn four_disjoint_words_give_no_solution() {
    assert_eq!(solve(&["fjord", "gucks", "nymph", "vibex"]), Vec::new());
}

#[test]
fn fewer_than_five_words_give_no_solution() {
    assert!(solve(&[]).is_empty());
    assert!(solve(&["fjord"]).is_empty());
    assert!(solve(&["fjord", "gucks", "nymph"]).is_empty());
    assert!(find_solutions(&Vec::new()).is_empty());
    assert!(find_solutions(&masks_table(&[1, 2, 4, 8])).is_empty());
}

#[test]
fn input_order_fixes_the_indices() {
    assert_eq!(
        solve(&["stare", "waltz", "vibex", "hello", "nymph", "gucks", "tears", "fjord"]),
        vec![(1, 2, 3, 4, 5)]
    );
}

#[test]
fn words_sharing_a_letter_never_meet() {
    let raw: [&str; 9] =
        ["fjord", "gucks", "nymph", "vibex", "waltz", "chunk", "fjeld", "waqfs", "vozhd"];
    let words = word_list(&raw);
    let found = solve(&raw);
    assert!(!found.is_empty());
    for (a, b, c, d, e) in found {
        let picks: [usize; 5] = [a, b, c, d, e];
        for i in 0..5 {
            for j in (i + 1)..5 {
                assert_eq!(words[picks[i]].0 & words[picks[j]].0, 0);
                for letter in words[picks[i]].1.chars() {
                    assert!(!words[picks[j]].1.contains(letter));
                }
            }
        }
    }
    assert_eq!(encode_word("chunk").map(|mask| mask & words[1].0 != 0), Some(true));
}

#[test]
fn solutions_are_increasing_allowed_and_listed_once() {
    let masks: Vec<usize> = vec![
        0b0000_0001,
        0b0000_0010,
        0b0000_0100,
        0b0000_1000,
        0b0001_0000,
        0b0010_0000,
        0b0100_0000,
        0b0000_0011,
        0b1000_0000,
        0b0011_0000,
    ];
    let table = masks_table(&masks);
    let found = find_solutions(&table);
    for (i, &(a, b, c, d, e)) in found.iter().enumerate() {
        assert!(a < b && b < c && c < d && d < e && e < masks.len());
        let picks: [usize; 5] = [a, b, c, d, e];
        for p in 0..5 {
            for q in (p + 1)..5 {
                assert!(table[picks[p]][picks[q]]);
            }
        }
        for later in found.iter().skip(i + 1) {
            assert!((a, b, c, d, e) < *later);
        }
    }
    assert_eq!(found, brute_force(&table));
    // 56 of single bits only, 15 with each of the two double masks, 4 with both
    assert_eq!(found.len(), 90);
}

#[test]
fn eight_disjoint_masks_give_all_fifty_six_choices() {
    let masks: Vec<usize> = (0..8).map(|bit| 1usize << bit).collect();
    let found = find_solutions(&masks_table(&masks));
    assert_eq!(found.len(), 56);
    assert_eq!(found[0], (0, 1, 2, 3, 4));
    assert_eq!(found[1], (0, 1, 2, 3, 5));
    assert_eq!(found[55], (3, 4, 5, 6, 7));
}

#[test]
fn search_reads_the_table_as_given() {
    let n: usize = 6;
    let mut table: Vec<Vec<bool>> = vec![vec![true; n]; n];
    assert_eq!(find_solutions(&table).len(), 6);
    table[0][1] = false;
    assert_eq!(
        find_solutions(&table),
        vec![(0, 2, 3, 4, 5), (1, 2, 3, 4, 5)]
    );
    assert_eq!(find_solutions(&table), brute_force(&table));
    let none: Vec<Vec<bool>> = vec![vec![false; n]; n];
    assert!(find_solutions(&none).is_empty());
}
