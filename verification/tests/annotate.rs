use twenty_five::annotate::anagrams_of;
use twenty_five::search::find_solutions;
use twenty_five::table::build_allowed_table;
use twenty_five::words::load_words;

fn lines(raw: &[&str]) -> Vec<String> {
    raw.iter().map(|line| line.to_string()).collect()
}

#[test]
fn anagram_of_a_chosen_word_is_listed() {
    let (words, anagrams) =
        load_words(&lines(&["waltz", "fjord", "gucks", "nymph", "vibex", "lawtz", "stare", "tears"]));
    let word_texts: Vec<&str> = words.iter().map(|word| word.1.as_str()).collect();
    assert_eq!(word_texts, vec!["waltz", "fjord", "gucks", "nymph", "vibex", "stare"]);
    let anagram_texts: Vec<&str> = anagrams.iter().map(|word| word.1.as_str()).collect();
    assert_eq!(anagram_texts, vec!["lawtz", "tears"]);
    let found = find_solutions(&build_allowed_table(&words));
    assert_eq!(found, vec![(0, 1, 2, 3, 4)]);
    assert_eq!(anagrams_of(&words, &anagrams, found[0]), vec![(words[0].0, "lawtz".to_string())]);
}

#[test]
fn stare_and_tears_are_word_and_anagram() {
    let (words, anagrams) = load_words(&lines(&["stare", "tears"]));
    assert_eq!(words.len(), 1);
    assert_eq!(words[0].1, "stare");
    assert_eq!(anagrams.len(), 1);
    assert_eq!(anagrams[0].1, "tears");
    assert_eq!(anagrams[0].0, words[0].0);
    let (words, anagrams) = load_words(&lines(&["tears", "stare"]));
    assert_eq!(words[0].1, "tears");
    assert_eq!(anagrams[0].1, "stare");
}

#[test]
fn annotation_follows_the_anagram_list_order() {
    let words: Vec<(usize, String)> = vec![
        (1, "a".to_string()),
        (2, "b".to_string()),
        (4, "c".to_string()),
        (8, "d".to_string()),
        (16, "e".to_string()),
        (32, "f".to_string()),
    ];
    let anagrams: Vec<(usize, String)> = vec![
        (16, "e2".to_string()),
        (32, "f2".to_string()),
        (1, "a2".to_string()),
        (16, "e3".to_string()),
        (64, "g2".to_string()),
        (2, "b2".to_string()),
    ];
    assert_eq!(
        anagrams_of(&words, &anagrams, (0, 1, 2, 3, 4)),
        vec![
            (16, "e2".to_string()),
            (1, "a2".to_string()),
            (16, "e3".to_string()),
            (2, "b2".to_string()),
        ]
    );
    assert_eq!(
        anagrams_of(&words, &anagrams, (1, 2, 3, 4, 5)),
        vec![
            (16, "e2".to_string()),
            (32, "f2".to_string()),
            (16, "e3".to_string()),
            (2, "b2".to_string()),
        ]
    );
}

#[test]
fn solution_without_anagrams_has_empty_annotation() {
    let (words, anagrams) = load_words(&lines(&["fjord", "gucks", "nymph", "vibex", "waltz", "stare", "tears"]));
    let empty: Vec<(usize, String)> = Vec::new();
    assert_eq!(anagrams_of(&words, &anagrams, (0, 1, 2, 3, 4)), empty);
    assert_eq!(anagrams_of(&words, &Vec::new(), (0, 1, 2, 3, 4)), empty);
}
