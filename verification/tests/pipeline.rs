use anagram_solver::partition::find_valid_permuations_of_word_lengths;
use anagram_solver::pipeline::solve;
use anagram_solver::settings::{ConfigError, Settings};

fn strings(words: &[&str]) -> Vec<String> {
    words.iter().map(|w| w.to_string()).collect()
}

fn puzzle() -> Settings {
    Settings {
        letters: vec!['b', 'a', 'l', 'm', 's', '_', '_', '_', '_', '_'],
        minimum_number_of_words: 1,
        maximum_number_of_words: 2,
        minimum_word_length: 4,
        maximum_word_length: 6,
    }
}

fn abc() -> Settings {
    Settings {
        letters: vec!['a', 'b', 'c'],
        minimum_number_of_words: 1,
        maximum_number_of_words: 2,
        minimum_word_length: 1,
        maximum_word_length: 3,
    }
}

#[test]
fn five_letter_word_alone_is_no_solution() {
    let lines = strings(&["balms", "lamb", "sob", "hello", "planet"]);
    let found = solve(&puzzle(), &lines, &String::from(" ")).unwrap();
    assert_eq!(found, strings(&["balms balms", "balms hello", "hello balms"]));
    assert!(!found.contains(&String::from("balms")));
}

#[test]
fn solutions_come_partition_by_partition() {
    let lines = strings(&["a", "bc", "cab", "ab", "c", "zz"]);
    let found = solve(&abc(), &lines, &String::from(" ")).unwrap();
    assert_eq!(found, strings(&["a bc", "c ab", "bc a", "ab c", "cab"]));
}

#[test]
fn two_runs_give_the_same_solutions_in_the_same_order() {
    let lines = strings(&["balms", "lamb", "sob", "hello", "planet", "balm", "psalms", "blames"]);
    let first = solve(&puzzle(), &lines, &String::from(" "));
    let second = solve(&puzzle(), &lines, &String::from(" "));
    assert!(first.is_ok());
    assert_eq!(first, second);
}

#[test]
fn every_solution_splits_into_dictionary_words_of_an_accepted_partition() {
    let lines = strings(&["balms", "lamb", "sob", "hello", "planet", "balm", "psalms", "blames"]);
    let partitions = find_valid_permuations_of_word_lengths(&puzzle()).unwrap();
    let found = solve(&puzzle(), &lines, &String::from(" ")).unwrap();
    assert!(!found.is_empty());
    for solution in &found {
        let words: Vec<&str> = solution.split(' ').collect();
        let lengths: Vec<u8> = words.iter().map(|w| w.chars().count() as u8).collect();
        assert!(partitions.contains(&lengths));
        assert!(words.iter().all(|w| lines.contains(&w.to_string())));
        assert_eq!(lengths.iter().map(|&l| l as usize).sum::<usize>(), 10);
    }
}

#[test]
fn every_solution_spends_the_letters() {
    let lines = strings(&["a", "bc", "cab", "ab", "c", "zz", "b", "ca", "abc", "bca"]);
    let found = solve(&abc(), &lines, &String::from(" ")).unwrap();
    for solution in &found {
        let mut spent: Vec<char> = solution.chars().filter(|c| *c != ' ').collect();
        spent.sort();
        assert_eq!(spent, vec!['a', 'b', 'c']);
    }
    assert_eq!(
        found,
        strings(&["a bc", "c ab", "b ca", "bc a", "ab c", "ca b", "cab", "abc", "bca"])
    );
}

#[test]
fn no_word_in_the_dictionary_fits() {
    let lines = strings(&["sob", "a", "thirteenchars"]);
    assert_eq!(solve(&puzzle(), &lines, &String::from(" ")), Err(ConfigError::NoAnagram));
    assert_eq!(solve(&puzzle(), &Vec::new(), &String::from(" ")), Err(ConfigError::NoAnagram));
}

#[test]
fn bounds_that_no_partition_meets_fail_before_the_dictionary() {
    let mut settings = puzzle();
    settings.minimum_word_length = 11;
    settings.maximum_word_length = 12;
    let lines = strings(&["balms", "hello"]);
    assert_eq!(
        solve(&settings, &lines, &String::from(" ")),
        Err(ConfigError::NoLengthPermutation)
    );
}
