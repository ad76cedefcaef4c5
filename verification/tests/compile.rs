use anagram_solver::compile::{compile_anagram_solutions, compile_anagram_solutions_recursive};
use anagram_solver::tree::AnagramObject;

fn strings(words: &[&str]) -> Vec<String> {
    words.iter().map(|w| w.to_string()).collect()
}

fn leaf(word: &str) -> AnagramObject {
    AnagramObject { string: String::from(word), value: None }
}

fn inner(word: &str, below: Vec<AnagramObject>) -> AnagramObject {
    AnagramObject { string: String::from(word), value: Some(below) }
}

#[test]
fn leaf_without_a_prefix_is_its_word() {
    let found = compile_anagram_solutions_recursive(None, &leaf("cab"), &String::from(" "));
    assert_eq!(found, strings(&["cab"]));
}

#[test]
fn leaf_after_a_prefix_follows_the_separator() {
    let found = compile_anagram_solutions_recursive(
        Some(String::from("a bc")),
        &leaf("d"),
        &String::from(" "),
    );
    assert_eq!(found, strings(&["a bc d"]));
}

#[test]
fn empty_prefix_takes_no_separator() {
    let found = compile_anagram_solutions_recursive(
        Some(String::new()),
        &inner("a", vec![leaf("b")]),
        &String::from("-"),
    );
    assert_eq!(found, strings(&["a-b"]));
}

#[test]
fn paths_come_depth_first_and_left_to_right() {
    let tree = inner(
        "a",
        vec![inner("b", vec![leaf("c"), leaf("d")]), leaf("e"), inner("f", vec![leaf("g")])],
    );
    let found = compile_anagram_solutions_recursive(None, &tree, &String::from(" "));
    assert_eq!(found, strings(&["a b c", "a b d", "a e", "a f g"]));
}

#[test]
fn separator_may_be_longer_or_empty() {
    let tree = inner("ab", vec![leaf("cd"), leaf("ef")]);
    let found = compile_anagram_solutions_recursive(None, &tree, &String::from(", "));
    assert_eq!(found, strings(&["ab, cd", "ab, ef"]));
    let found = compile_anagram_solutions_recursive(None, &tree, &String::new());
    assert_eq!(found, strings(&["abcd", "abef"]));
}

#[test]
fn inner_node_without_children_has_no_solution() {
    let found = compile_anagram_solutions_recursive(None, &inner("a", Vec::new()), &String::from(" "));
    assert!(found.is_empty());
}

#[test]
fn forest_is_compiled_group_by_group() {
    let forest = vec![
        vec![inner("a", vec![leaf("bc")]), inner("c", vec![leaf("ab")])],
        vec![inner("bc", vec![leaf("a")]), inner("ab", vec![leaf("c")])],
        vec![leaf("cab")],
    ];
    let found = compile_anagram_solutions(forest, &String::from("-"));
    assert_eq!(found, strings(&["a-bc", "c-ab", "bc-a", "ab-c", "cab"]));
}

#[test]
fn nothing_is_ranked_or_deduplicated() {
    let forest = vec![vec![leaf("b"), leaf("a"), leaf("b")], Vec::new(), vec![leaf("a")]];
    let found = compile_anagram_solutions(forest, &String::from(" "));
    assert_eq!(found, strings(&["b", "a", "b", "a"]));
    assert!(compile_anagram_solutions(Vec::new(), &String::from(" ")).is_empty());
}
