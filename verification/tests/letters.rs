use anagram_solver::letters::{first_position, last_position, take_letter, validity_letters};
use anagram_solver::settings::WILDCARD;

fn symbols(text: &str) -> Vec<char> {
    text.chars().collect()
}

#[test]
fn wildcard_is_the_underscore() {
    assert_eq!(WILDCARD, '_');
}

#[test]
fn exact_letters_are_spent_before_wildcards() {
    let mut letters = symbols("a_b");
    assert!(validity_letters(&mut letters, &String::from("ab")));
    assert_eq!(letters, symbols("_"));
}

#[test]
fn first_of_equal_letters_leaves() {
    let mut letters = symbols("xaya");
    assert!(take_letter(&mut letters, 'a'));
    assert_eq!(letters, symbols("xya"));
}

#[test]
fn last_wildcard_leaves_for_an_unknown_letter() {
    let mut letters = symbols("_a_b");
    assert!(validity_letters(&mut letters, &String::from("x")));
    assert_eq!(letters, symbols("_ab"));
}

#[test]
fn underscore_in_a_word_takes_the_first_wildcard() {
    let mut letters = symbols("a_b_");
    assert!(validity_letters(&mut letters, &String::from("_")));
    assert_eq!(letters, symbols("ab_"));
}

#[test]
fn failure_leaves_the_letters_as_spent_so_far() {
    let mut letters = symbols("ab");
    assert!(!validity_letters(&mut letters, &String::from("axb")));
    assert_eq!(letters, symbols("b"));
}

#[test]
fn word_longer_than_wildcards_plus_matching_letters_is_rejected() {
    let mut letters = symbols("abc_");
    assert!(!validity_letters(&mut letters, &String::from("add")));
    let mut letters = symbols("abc_");
    assert!(validity_letters(&mut letters, &String::from("adc")));
    assert_eq!(letters, symbols("b"));
}

#[test]
fn word_longer_than_all_letters_is_rejected() {
    let mut letters = symbols("___");
    assert!(!validity_letters(&mut letters, &String::from("abcd")));
    assert_eq!(letters, Vec::<char>::new());
}

#[test]
fn repeated_letter_needs_a_symbol_each_time() {
    let mut letters = symbols("lo_");
    assert!(validity_letters(&mut letters, &String::from("lol")));
    assert_eq!(letters, Vec::<char>::new());
    let mut letters = symbols("lo");
    assert!(!validity_letters(&mut letters, &String::from("lol")));
}

#[test]
fn empty_word_spends_nothing() {
    let mut letters = symbols("ab_");
    assert!(validity_letters(&mut letters, &String::new()));
    assert_eq!(letters, symbols("ab_"));
    let mut none: Vec<char> = Vec::new();
    assert!(validity_letters(&mut none, &String::new()));
    assert!(!validity_letters(&mut none, &String::from("a")));
}

#[test]
fn characters_are_whole_symbols() {
    let mut letters = symbols("é_ü");
    assert!(validity_letters(&mut letters, &String::from("üé")));
    assert_eq!(letters, symbols("_"));
}

#[test]
fn take_letter_without_any_symbol_left() {
    let mut letters = symbols("abc");
    assert!(!take_letter(&mut letters, 'x'));
    assert_eq!(letters, symbols("abc"));
}

#[test]
fn positions_of_first_and_last() {
    let letters = symbols("_ab_a");
    assert_eq!(first_position(&letters, 'a'), Some(1));
    assert_eq!(last_position(&letters, 'a'), Some(4));
    assert_eq!(first_position(&letters, '_'), Some(0));
    assert_eq!(last_position(&letters, '_'), Some(3));
    assert_eq!(first_position(&letters, 'z'), None);
    assert_eq!(last_position(&letters, 'z'), None);
    assert_eq!(first_position(&Vec::new(), 'a'), None);
}
