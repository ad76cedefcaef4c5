//! The whole search, from the letters and a dictionary to the solutions.

use crate::compile::{
    all_solutions, compile_anagram_solutions, join, lemma_all_solutions_holds,
    lemma_all_solutions_index, lemma_path_is_solution, lemma_solution_among,
    lemma_solution_among_holds, lemma_solution_is_path,
};
use crate::dictionary::{
    candidate_of_length, candidates, lemma_pool_words_are_candidates, load_all_words, pool_of,
    word_views,
};
use crate::lengths::{find_valid_word_lengths, lengths_in, mentions};
use crate::letters::{
    lemma_each_word_is_feasible, lemma_feasible_word_takes_its_length, letter_feasible,
    letters_after,
};
use crate::partition::{
    accepted_partitions, find_valid_permuations_of_word_lengths, lemma_accepted_partitions_valid,
    total_of,
};
use crate::settings::{ConfigError, Settings};
use crate::tree::{
    branches, build_anagram_trees, forest, lemma_filled_slots_are_a_path, lemma_forest_group,
    lemma_forest_holds, lemma_path_fills_slots, Tree,
};
use vstd::prelude::*;

verus! {

/// The pool that a run works with: the dictionary words of a length that an
/// accepted sequence of lengths asks for, as far as the letters allow them.
pub open spec fn run_pool(settings: Settings, lines: Seq<Seq<char>>) -> Map<u8, Seq<Seq<char>>> {
    pool_of(lines, settings.letters@, lengths_in(accepted_partitions(settings)))
}

/// The forest that a run builds.
pub open spec fn run_forest(settings: Settings, lines: Seq<Seq<char>>) -> Seq<Seq<Tree>> {
    forest(settings.letters@, accepted_partitions(settings), run_pool(settings, lines))
}

/// What a run comes to: the solutions in the order in which the search finds
/// them, or the reason why there is none.
pub open spec fn anagrams(settings: Settings, lines: Seq<Seq<char>>, separator: Seq<char>) -> Result<
    Seq<Seq<char>>,
    ConfigError,
> {
    if accepted_partitions(settings).len() == 0 {
        Err(ConfigError::NoLengthPermutation)
    } else if run_forest(settings, lines).len() == 0 {
        Err(ConfigError::NoAnagram)
    } else {
        Ok(all_solutions(run_forest(settings, lines), separator))
    }
}

/// The outcome of a run as a mathematical value.
pub open spec fn outcome_view(outcome: Result<Vec<String>, ConfigError>) -> Result<
    Seq<Seq<char>>,
    ConfigError,
> {
    match outcome {
        Ok(list) => Ok(word_views(list@)),
        Err(e) => Err(e),
    }
}

/// Whether `outcome` is what a run on these letters, bounds, dictionary and
/// separator comes to.
pub open spec fn is_outcome(
    settings: Settings,
    lines: Seq<Seq<char>>,
    separator: Seq<char>,
    outcome: Result<Vec<String>, ConfigError>,
) -> bool {
    outcome_view(outcome) == anagrams(settings, lines, separator)
}

/// Finds every way to spend all the letters of `settings` on words of the
/// dictionary `lines`, within the bounds of `settings`, and writes each as its
/// words joined by `separator`.
pub fn solve(settings: &Settings, lines: &Vec<String>, separator: &String) -> (outcome: Result<
    Vec<String>,
    ConfigError,
>)
    requires
        settings.well_formed(),
    ensures
        is_outcome(*settings, word_views(lines@), separator@, outcome),
{
    let valid_length_permutations = match find_valid_permuations_of_word_lengths(settings) {
        Ok(list) => list,
        Err(e) => {
            return Err(e);
        },
    };
    let valid_word_lengths = find_valid_word_lengths(&valid_length_permutations);
    let possible_words = load_all_words(lines, &settings.letters, &valid_word_lengths);
    let anagram_trees = match build_anagram_trees(
        settings,
        &possible_words,
        &valid_length_permutations,
    ) {
        Ok(groups) => groups,
        Err(e) => {
            return Err(e);
        },
    };
    Ok(compile_anagram_solutions(anagram_trees, separator))
}

/// Two runs on the same letters, bounds, dictionary and separator come to
/// the same outcome: the same solutions in the same order, or the same error.
pub proof fn lemma_runs_agree(
    first_settings: Settings,
    second_settings: Settings,
    lines: Seq<Seq<char>>,
    separator: Seq<char>,
    first: Result<Vec<String>, ConfigError>,
    second: Result<Vec<String>, ConfigError>,
)
    requires
        first_settings.letters@ == second_settings.letters@,
        first_settings.minimum_number_of_words == second_settings.minimum_number_of_words,
        first_settings.maximum_number_of_words == second_settings.maximum_number_of_words,
        first_settings.minimum_word_length == second_settings.minimum_word_length,
        first_settings.maximum_word_length == second_settings.maximum_word_length,
        is_outcome(first_settings, lines, separator, first),
        is_outcome(second_settings, lines, separator, second),
    ensures
        outcome_view(first) == outcome_view(second),
{
}

/// Whether the words have the lengths `lengths`, one after the other.
pub open spec fn has_lengths(words: Seq<Seq<char>>, lengths: Seq<u8>) -> bool {
    &&& words.len() == lengths.len()
    &&& forall|i: int| 0 <= i < words.len() ==> (#[trigger] words[i]).len() == lengths[i]
}

/// Words of the lengths `lengths` have together as many characters as the
/// lengths sum to.
pub proof fn lemma_flatten_len(words: Seq<Seq<char>>, lengths: Seq<u8>)
    requires
        has_lengths(words, lengths),
    ensures
        words.flatten().len() == total_of(lengths),
    decreases words.len(),
{
    if words.len() > 0 {
        assert forall|i: int| 0 <= i < words.drop_first().len() implies (
        #[trigger] words.drop_first()[i]).len() == lengths.drop_first()[i] by {
            assert(words.drop_first()[i] == words[i + 1]);
        }
        lemma_flatten_len(words.drop_first(), lengths.drop_first());
    }
}

/// Whether the words are a way to spend all the letters of `settings` on
/// lines of the dictionary `lines`, with the word lengths `lengths`: the
/// lengths are an accepted sequence of word lengths and those of the words,
/// each word is a line of the dictionary, and the words written one after the
/// other take every letter.
pub open spec fn is_spelling(
    settings: Settings,
    lines: Seq<Seq<char>>,
    lengths: Seq<u8>,
    words: Seq<Seq<char>>,
) -> bool {
    &&& accepted_partitions(settings).contains(lengths)
    &&& has_lengths(words, lengths)
    &&& forall|i: int| 0 <= i < words.len() ==> lines.contains(#[trigger] words[i])
    &&& letter_feasible(settings.letters@, words.flatten())
    &&& letters_after(settings.letters@, words.flatten()).len() == 0
}

/// Every solution of a run is a sequence of words joined by the separator,
/// where the words are lines of the dictionary, their lengths are an accepted
/// sequence of word lengths, and written one after the other they take every
/// letter. The proof gives the lengths and the words.
pub proof fn lemma_solution_is_spelled(
    settings: Settings,
    lines: Seq<Seq<char>>,
    separator: Seq<char>,
    k: int,
) -> (found: (Seq<u8>, Seq<Seq<char>>))
    requires
        settings.well_formed(),
        anagrams(settings, lines, separator) is Ok,
        0 <= k < anagrams(settings, lines, separator)->Ok_0.len(),
    ensures
        anagrams(settings, lines, separator)->Ok_0[k] == join(found.1, separator),
        is_spelling(settings, lines, found.0, found.1),
{
    let letters = settings.letters@;
    let partitions = accepted_partitions(settings);
    let needed = lengths_in(partitions);
    let pool = run_pool(settings, lines);
    let groups = run_forest(settings, lines);
    let in_group = lemma_all_solutions_index(groups, separator, k);
    let i = lemma_forest_group(letters, partitions, pool, in_group.0);
    let slots = partitions[i];
    let trees = groups[in_group.0];
    let in_tree = lemma_solution_among(trees, Seq::empty(), separator, in_group.1);
    let words = lemma_solution_is_path(trees[in_tree.0], Seq::empty(), separator, in_tree.1);
    lemma_path_fills_slots(letters, slots, pool, in_tree.0, words);
    assert forall|j: int| 0 <= j < words.len() implies (#[trigger] words[j]).len() == slots[j]
        && lines.contains(words[j]) by {
        let offered = candidates(pool, slots[j]);
        let at = choose|at: int| 0 <= at < offered.len() && offered[at] == words[j];
        lemma_pool_words_are_candidates(lines, letters, needed, slots[j], at);
    }
    lemma_accepted_partitions_valid(settings, i);
    lemma_flatten_len(words, slots);
    lemma_feasible_word_takes_its_length(letters, words.flatten());
    (slots, words)
}

/// Every way to spend all the letters is a solution of the run: where words
/// are lines of the dictionary, their lengths are an accepted sequence of word
/// lengths, and written one after the other they take every letter, the run
/// succeeds and the words joined by the separator are among its solutions.
/// The proof gives the place of the solution.
pub proof fn lemma_spelling_is_found(
    settings: Settings,
    lines: Seq<Seq<char>>,
    separator: Seq<char>,
    lengths: Seq<u8>,
    words: Seq<Seq<char>>,
) -> (k: int)
    requires
        settings.well_formed(),
        is_spelling(settings, lines, lengths, words),
    ensures
        anagrams(settings, lines, separator) is Ok,
        0 <= k < anagrams(settings, lines, separator)->Ok_0.len(),
        anagrams(settings, lines, separator)->Ok_0[k] == join(words, separator),
{
    let letters = settings.letters@;
    let partitions = accepted_partitions(settings);
    let needed = lengths_in(partitions);
    let pool = run_pool(settings, lines);
    let groups = run_forest(settings, lines);
    let i = choose|i: int| 0 <= i < partitions.len() && partitions[i] == lengths;
    lemma_accepted_partitions_valid(settings, i);
    assert forall|j: int| 0 <= j < words.len() implies candidates(pool, lengths[j]).contains(
        #[trigger] words[j],
    ) by {
        let word = words[j];
        let keep = candidate_of_length(letters, needed, lengths[j]);
        lemma_each_word_is_feasible(letters, words, j);
        assert(partitions[i][j] == lengths[j]);
        assert(mentions(partitions, lengths[j]));
        assert(keep(word));
        let at = choose|at: int| 0 <= at < lines.len() && lines[at] == word;
        lines.lemma_filter_contains(keep, at);
        assert(lines.filter(keep).len() > 0);
    }
    let in_trees = lemma_filled_slots_are_a_path(letters, lengths, pool, words);
    let trees = branches(letters, lengths, pool);
    let g = lemma_forest_holds(letters, partitions, pool, i);
    let in_tree = lemma_path_is_solution(trees[in_trees], Seq::empty(), separator, words);
    let in_group = lemma_solution_among_holds(trees, Seq::empty(), separator, in_trees, in_tree);
    lemma_all_solutions_holds(groups, separator, g, in_group)
}

} // verus!
