use anagram_solver::dictionary::{load_all_words, load_word};
use std::collections::HashMap;

fn strings(words: &[&str]) -> Vec<String> {
    words.iter().map(|w| w.to_string()).collect()
}

fn symbols(text: &str) -> Vec<char> {
    text.chars().collect()
}

#[test]
fn words_are_bucketed_by_length_in_line_order() {
    let lines = strings(&["balms", "lamb", "sob", "hello", "planet", "balm"]);
    let pool = load_all_words(&lines, &symbols("balms_____"), &vec![4, 5, 6]);
    assert_eq!(pool.len(), 3);
    assert_eq!(pool[&4], strings(&["lamb", "balm"]));
    assert_eq!(pool[&5], strings(&["balms", "hello"]));
    assert_eq!(pool[&6], strings(&["planet"]));
}

#[test]
fn repeated_lines_are_repeated_candidates() {
    let lines = strings(&["ab", "ba", "ab"]);
    let pool = load_all_words(&lines, &symbols("ab"), &vec![2]);
    assert_eq!(pool[&2], strings(&["ab", "ba", "ab"]));
}

#[test]
fn words_of_other_lengths_are_left_out() {
    let lines = strings(&["a", "ab", "abc", ""]);
    let pool = load_all_words(&lines, &symbols("abc"), &vec![2]);
    assert_eq!(pool.len(), 1);
    assert_eq!(pool[&2], strings(&["ab"]));
}

#[test]
fn words_that_the_letters_do_not_allow_are_left_out() {
    let lines = strings(&["abcd", "abzz", "zzzz", "dcba"]);
    let pool = load_all_words(&lines, &symbols("abcd_"), &vec![4]);
    assert_eq!(pool[&4], strings(&["abcd", "dcba"]));
}

#[test]
fn each_word_is_tested_against_all_the_letters() {
    let lines = strings(&["ab", "ab", "ba"]);
    let letters = symbols("ab");
    let pool = load_all_words(&lines, &letters, &vec![2]);
    assert_eq!(pool[&2].len(), 3);
    assert_eq!(letters, symbols("ab"));
}

#[test]
fn pooled_words_have_the_bucket_length_and_fit_the_letters() {
    let lines = strings(&["tea", "eat", "at", "ta", "a", "tee", "xyz", "tae"]);
    let letters = symbols("tea");
    let pool = load_all_words(&lines, &letters, &vec![1, 2, 3]);
    for (length, words) in &pool {
        for word in words {
            assert_eq!(word.chars().count(), *length as usize);
            assert!(word.chars().all(|c| letters.contains(&c)));
            assert!(lines.contains(word));
        }
    }
    assert_eq!(pool[&3], strings(&["tea", "eat", "tae"]));
    assert_eq!(pool[&2], strings(&["at", "ta"]));
    assert_eq!(pool[&1], strings(&["a"]));
}

#[test]
fn no_bucket_without_a_candidate() {
    let pool = load_all_words(&strings(&["zz", "q"]), &symbols("ab"), &vec![1, 2]);
    assert!(pool.is_empty());
    let pool = load_all_words(&Vec::new(), &symbols("ab"), &vec![1, 2]);
    assert!(pool.is_empty());
}

#[test]
fn length_counts_characters() {
    let lines = strings(&["né", "nez"]);
    let pool = load_all_words(&lines, &symbols("né_"), &vec![2]);
    assert_eq!(pool[&2], strings(&["né"]));
    let pool = load_all_words(&lines, &symbols("né__"), &vec![3]);
    assert_eq!(pool[&3], strings(&["nez"]));
    assert!(!pool.contains_key(&2));
}

#[test]
fn word_with_more_characters_than_a_length_can_say_is_left_out() {
    let long = "a".repeat(260);
    let letters = vec!['_'; 255];
    let pool = load_all_words(&vec![long], &letters, &vec![4, 255]);
    assert!(pool.is_empty());
    let pool = load_all_words(&vec!["a".repeat(255)], &letters, &vec![4, 255]);
    assert_eq!(pool[&255].len(), 1);
}

#[test]
fn one_word_at_a_time() {
    let letters = symbols("ab_");
    let lengths: Vec<u8> = vec![2, 3];
    let mut pool: HashMap<u8, Vec<String>> = HashMap::new();
    load_word(&mut pool, &letters, &lengths, String::from("ab"));
    load_word(&mut pool, &letters, &lengths, String::from("abcd"));
    load_word(&mut pool, &letters, &lengths, String::from("zz"));
    load_word(&mut pool, &letters, &lengths, String::from("bza"));
    load_word(&mut pool, &letters, &lengths, String::from("za"));
    assert_eq!(pool.len(), 2);
    assert_eq!(pool[&2], strings(&["ab", "za"]));
    assert_eq!(pool[&3], strings(&["bza"]));
}
