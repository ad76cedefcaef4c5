use anagram_solver::partition::{
    find_valid_permuations_of_word_lengths, find_valid_permuations_of_word_lengths_recurser,
};
use anagram_solver::settings::{ConfigError, Settings};

fn bounds(letters: usize, words: (u8, u8), lengths: (u8, u8)) -> Settings {
    Settings {
        letters: vec!['_'; letters],
        minimum_number_of_words: words.0,
        maximum_number_of_words: words.1,
        minimum_word_length: lengths.0,
        maximum_word_length: lengths.1,
    }
}

#[test]
fn ten_letters_in_one_or_two_words_of_four_to_six() {
    let found = find_valid_permuations_of_word_lengths(&bounds(10, (1, 2), (4, 6)));
    assert_eq!(found, Ok(vec![vec![4, 6], vec![5, 5], vec![6, 4]]));
}

#[test]
fn accepted_partitions_sum_to_the_letter_count_within_all_bounds() {
    let settings = bounds(12, (2, 4), (2, 5));
    let found = find_valid_permuations_of_word_lengths(&settings).unwrap();
    assert!(!found.is_empty());
    for partition in &found {
        assert_eq!(partition.iter().map(|&l| l as usize).sum::<usize>(), 12);
        assert!(partition.iter().all(|&l| (2..=5).contains(&l)));
        assert!((2..=4).contains(&partition.len()));
    }
    assert!(found.contains(&vec![5, 2, 5]));
    assert!(found.contains(&vec![3, 3, 3, 3]));
    assert!(!found.contains(&vec![2, 2, 2, 2, 2, 2]));
}

#[test]
fn recurser_lists_every_order_smallest_first_length_first() {
    let settings = bounds(0, (0, 0), (1, 2));
    assert_eq!(
        find_valid_permuations_of_word_lengths_recurser(&settings, 3),
        Some(vec![vec![1, 1, 1], vec![1, 2], vec![2, 1]])
    );
    assert_eq!(
        find_valid_permuations_of_word_lengths_recurser(&settings, 4),
        Some(vec![vec![1, 1, 1, 1], vec![1, 1, 2], vec![1, 2, 1], vec![2, 1, 1], vec![2, 2]])
    );
}

#[test]
fn recurser_ignores_the_bounds_on_the_number_of_words() {
    let settings = bounds(3, (7, 9), (1, 3));
    assert_eq!(
        find_valid_permuations_of_word_lengths_recurser(&settings, 3),
        Some(vec![vec![1, 1, 1], vec![1, 2], vec![2, 1], vec![3]])
    );
}

#[test]
fn recurser_finds_nothing_below_the_shortest_word() {
    let settings = bounds(0, (1, 9), (3, 5));
    assert_eq!(find_valid_permuations_of_word_lengths_recurser(&settings, 2), None);
    assert_eq!(find_valid_permuations_of_word_lengths_recurser(&settings, 0), None);
    assert_eq!(find_valid_permuations_of_word_lengths_recurser(&settings, 3), Some(vec![vec![3]]));
}

#[test]
fn recurser_skips_totals_that_leave_too_little() {
    let settings = bounds(0, (1, 9), (3, 4));
    assert_eq!(find_valid_permuations_of_word_lengths_recurser(&settings, 5), None);
    assert_eq!(
        find_valid_permuations_of_word_lengths_recurser(&settings, 7),
        Some(vec![vec![3, 4], vec![4, 3]])
    );
}

#[test]
fn word_count_is_filtered_after_the_lengths() {
    let found = find_valid_permuations_of_word_lengths(&bounds(3, (2, 2), (1, 3)));
    assert_eq!(found, Ok(vec![vec![1, 2], vec![2, 1]]));
    let found = find_valid_permuations_of_word_lengths(&bounds(3, (1, 2), (1, 3)));
    assert_eq!(found, Ok(vec![vec![1, 2], vec![2, 1], vec![3]]));
}

#[test]
fn shortest_word_longer_than_all_letters_is_a_config_error() {
    let found = find_valid_permuations_of_word_lengths(&bounds(3, (1, 5), (4, 6)));
    assert_eq!(found, Err(ConfigError::NoLengthPermutation));
}

#[test]
fn no_letters_is_a_config_error() {
    let found = find_valid_permuations_of_word_lengths(&bounds(0, (0, 5), (1, 6)));
    assert_eq!(found, Err(ConfigError::NoLengthPermutation));
}

#[test]
fn word_count_that_no_partition_has_is_a_config_error() {
    let found = find_valid_permuations_of_word_lengths(&bounds(10, (1, 1), (4, 6)));
    assert_eq!(found, Err(ConfigError::NoLengthPermutation));
    let found = find_valid_permuations_of_word_lengths(&bounds(10, (3, 2), (1, 10)));
    assert_eq!(found, Err(ConfigError::NoLengthPermutation));
}

#[test]
fn longest_word_shorter_than_shortest_is_a_config_error() {
    let found = find_valid_permuations_of_word_lengths(&bounds(6, (1, 6), (4, 3)));
    assert_eq!(found, Err(ConfigError::NoLengthPermutation));
}

#[test]
fn largest_letter_count_and_word_length() {
    let found = find_valid_permuations_of_word_lengths(&bounds(255, (1, 1), (255, 255)));
    assert_eq!(found, Ok(vec![vec![255]]));
    let found = find_valid_permuations_of_word_lengths(&bounds(255, (1, 2), (127, 255)));
    assert_eq!(found, Ok(vec![vec![127, 128], vec![128, 127], vec![255]]));
}

#[test]
fn config_error_exits_with_the_config_status() {
    assert_eq!(ConfigError::NoLengthPermutation.exit_code(), 78);
    assert_eq!(ConfigError::NoAnagram.exit_code(), exitcode::CONFIG);
}

#[test]
fn config_error_messages() {
    assert_eq!(
        ConfigError::NoLengthPermutation.message(),
        "Unable to find any valid length permutations givin word size requirements."
    );
    assert_eq!(
        ConfigError::NoAnagram.message(),
        "Unable to find any valid anagrams givin requirements."
    );
}

#[test]
fn settings_are_well_formed_with_a_positive_word_length_and_few_letters() {
    assert!(bounds(10, (1, 2), (4, 6)).is_well_formed());
    assert!(bounds(255, (0, 0), (1, 0)).is_well_formed());
    assert!(bounds(0, (1, 2), (1, 6)).is_well_formed());
    assert!(!bounds(10, (1, 2), (0, 6)).is_well_formed());
    assert!(!bounds(256, (1, 2), (4, 6)).is_well_formed());
}
