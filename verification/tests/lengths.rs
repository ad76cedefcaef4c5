use anagram_solver::lengths::{find_valid_word_lengths, validity_length};

#[test]
fn needed_lengths_are_distinct_and_ascending() {
    let partitions = vec![vec![6, 4], vec![5, 5], vec![4, 6]];
    assert_eq!(find_valid_word_lengths(&partitions), vec![4, 5, 6]);
}

#[test]
fn needed_lengths_of_unsorted_partitions() {
    let partitions = vec![vec![9, 1, 200], vec![], vec![3, 9, 3], vec![0, 255]];
    assert_eq!(find_valid_word_lengths(&partitions), vec![0, 1, 3, 9, 200, 255]);
}

#[test]
fn needed_lengths_of_nothing() {
    assert_eq!(find_valid_word_lengths(&Vec::new()), Vec::<u8>::new());
    assert_eq!(find_valid_word_lengths(&vec![vec![], vec![]]), Vec::<u8>::new());
}

#[test]
fn length_is_valid_only_if_listed() {
    let lengths = vec![4, 5, 6];
    assert!(validity_length(&lengths, 4));
    assert!(validity_length(&lengths, 6));
    assert!(!validity_length(&lengths, 3));
    assert!(!validity_length(&lengths, 7));
    assert!(!validity_length(&Vec::new(), 0));
}
