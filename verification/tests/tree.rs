use anagram_solver::dictionary::load_all_words;
use anagram_solver::settings::{ConfigError, Settings};
use anagram_solver::tree::{build_anagram_trees, build_anagram_trees_recursive, AnagramObject};
use std::collections::HashMap;

fn strings(words: &[&str]) -> Vec<String> {
    words.iter().map(|w| w.to_string()).collect()
}

fn symbols(text: &str) -> Vec<char> {
    text.chars().collect()
}

fn show(nodes: &[AnagramObject]) -> String {
    nodes.iter().map(|n| n.to_string()).collect()
}

fn balms_pool() -> HashMap<u8, Vec<String>> {
    let lines = strings(&["balms", "lamb", "sob", "hello", "planet"]);
    load_all_words(&lines, &symbols("balms_____"), &vec![4, 5, 6])
}

fn abc_settings() -> Settings {
    Settings {
        letters: symbols("abc"),
        minimum_number_of_words: 1,
        maximum_number_of_words: 2,
        minimum_word_length: 1,
        maximum_word_length: 3,
    }
}

fn abc_pool() -> HashMap<u8, Vec<String>> {
    let lines = strings(&["a", "bc", "cab", "ab", "c", "zz"]);
    load_all_words(&lines, &symbols("abc"), &vec![1, 2, 3])
}

#[test]
fn leaf_is_shown_as_word_and_comma() {
    let leaf = AnagramObject { string: String::from("cab"), value: None };
    assert_eq!(leaf.to_string(), "cab,");
}

#[test]
fn inner_node_is_shown_with_its_children_in_brackets() {
    let tree = AnagramObject {
        string: String::from("a"),
        value: Some(vec![
            AnagramObject { string: String::from("b"), value: None },
            AnagramObject {
                string: String::from("c"),
                value: Some(vec![AnagramObject { string: String::from("d"), value: None }]),
            },
        ]),
    };
    assert_eq!(tree.to_string(), "a:[b,c:[d,],],");
    let empty = AnagramObject { string: String::from("e"), value: Some(Vec::new()) };
    assert_eq!(empty.to_string(), "e:[],");
}

#[test]
fn clone_copies_the_whole_tree() {
    let tree = AnagramObject {
        string: String::from("a"),
        value: Some(vec![
            AnagramObject { string: String::from("b"), value: None },
            AnagramObject {
                string: String::from("c"),
                value: Some(vec![AnagramObject { string: String::from("d"), value: None }]),
            },
        ]),
    };
    assert_eq!(tree.clone().to_string(), "a:[b,c:[d,],],");
}

#[test]
fn two_slots_of_five() {
    let mut slots = vec![5, 5];
    let found = build_anagram_trees_recursive(symbols("balms_____"), &mut slots, &balms_pool());
    assert_eq!(show(&found.unwrap()), "balms:[balms,hello,],hello:[balms,],");
    assert_eq!(slots, vec![5]);
}

#[test]
fn first_length_is_the_first_slot() {
    let mut slots = vec![1, 2];
    let found = build_anagram_trees_recursive(symbols("abc"), &mut slots, &abc_pool());
    assert_eq!(show(&found.unwrap()), "a:[bc,],c:[ab,],");
    assert_eq!(slots, vec![2]);
    let mut slots = vec![2, 1];
    let found = build_anagram_trees_recursive(symbols("abc"), &mut slots, &abc_pool());
    assert_eq!(show(&found.unwrap()), "bc:[a,],ab:[c,],");
    assert_eq!(slots, vec![1]);
}

#[test]
fn word_that_cannot_be_continued_is_no_node() {
    let mut slots = vec![4, 6];
    assert!(build_anagram_trees_recursive(symbols("balms_____"), &mut slots, &balms_pool())
        .is_none());
    assert_eq!(slots, vec![6]);
    let mut slots = vec![6, 4];
    assert!(build_anagram_trees_recursive(symbols("balms_____"), &mut slots, &balms_pool())
        .is_none());
}

#[test]
fn last_slot_gives_leaves() {
    let mut slots = vec![3];
    let found = build_anagram_trees_recursive(symbols("abc"), &mut slots, &abc_pool()).unwrap();
    assert_eq!(found.len(), 1);
    assert_eq!(found[0].string, "cab");
    assert!(found[0].value.is_none());
    assert!(slots.is_empty());
}

#[test]
fn length_without_a_bucket_gives_nothing() {
    let mut slots = vec![7];
    assert!(build_anagram_trees_recursive(symbols("abc"), &mut slots, &abc_pool()).is_none());
    let mut slots = vec![1, 7];
    assert!(build_anagram_trees_recursive(symbols("abc"), &mut slots, &abc_pool()).is_none());
    let mut slots = vec![1];
    assert!(build_anagram_trees_recursive(symbols("abc"), &mut slots, &HashMap::new()).is_none());
}

#[test]
fn candidates_are_tested_against_the_letters_that_are_left() {
    let mut slots = vec![1];
    let found = build_anagram_trees_recursive(symbols("c"), &mut slots, &abc_pool()).unwrap();
    assert_eq!(show(&found), "c,");
}

#[test]
fn three_slots_deep() {
    let lines = strings(&["a", "b", "c"]);
    let pool = load_all_words(&lines, &symbols("ab_"), &vec![1]);
    let mut slots = vec![1, 1, 1];
    let found = build_anagram_trees_recursive(symbols("ab_"), &mut slots, &pool).unwrap();
    assert_eq!(
        show(&found),
        "a:[a:[b,],b:[a,b,c,],c:[b,],],b:[a:[a,b,c,],b:[a,],c:[a,],],c:[a:[b,],b:[a,],],"
    );
}

#[test]
fn forest_has_one_group_for_each_partition_with_a_tree() {
    let partitions = vec![vec![1, 2], vec![1, 1, 1], vec![2, 1], vec![3]];
    let forest = build_anagram_trees(&abc_settings(), &abc_pool(), &partitions).unwrap();
    let shown: Vec<String> = forest.iter().map(|group| show(group)).collect();
    assert_eq!(shown, strings(&["a:[bc,],c:[ab,],", "bc:[a,],ab:[c,],", "cab,"]));
}

#[test]
fn forest_starts_each_partition_from_all_the_letters() {
    let partitions = vec![vec![3], vec![3]];
    let forest = build_anagram_trees(&abc_settings(), &abc_pool(), &partitions).unwrap();
    let shown: Vec<String> = forest.iter().map(|group| show(group)).collect();
    assert_eq!(shown, strings(&["cab,", "cab,"]));
}

#[test]
fn empty_forest_is_a_config_error() {
    let partitions = vec![vec![4, 6], vec![6, 4]];
    let settings = Settings {
        letters: symbols("balms_____"),
        minimum_number_of_words: 1,
        maximum_number_of_words: 2,
        minimum_word_length: 4,
        maximum_word_length: 6,
    };
    let built = build_anagram_trees(&settings, &balms_pool(), &partitions);
    assert_eq!(built.err(), Some(ConfigError::NoAnagram));
    let built = build_anagram_trees(&settings, &balms_pool(), &Vec::new());
    assert_eq!(built.err(), Some(ConfigError::NoAnagram));
}
