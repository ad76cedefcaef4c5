//! The candidate pool: the dictionary words that the search may use, by
//! length.

use crate::lengths::validity_length;
use crate::letters::{copy_letters, letter_feasible, validity_letters};
use std::collections::HashMap;
use vstd::prelude::*;

verus! {

broadcast use vstd::std_specs::hash::group_hash_axioms;

/// The words of a list of strings.
pub open spec fn word_views(words: Seq<String>) -> Seq<Seq<char>> {
    words.map_values(|word: String| word@)
}

/// The candidate pool as a mathematical map from a word length to the words
/// of that length, in the order in which they were found.
pub open spec fn pool_view(pool: Map<u8, Vec<String>>) -> Map<u8, Seq<Seq<char>>> {
    pool.map_values(|words: Vec<String>| word_views(words@))
}

/// The candidates of one length; none where the pool has no such bucket.
pub open spec fn candidates(pool: Map<u8, Seq<Seq<char>>>, length: u8) -> Seq<Seq<char>> {
    if pool.contains_key(length) {
        pool[length]
    } else {
        Seq::empty()
    }
}

/// Whether a dictionary word becomes a candidate: its number of characters
/// is one of the lengths asked for, and it can be written with all the
/// letters.
pub open spec fn is_candidate(letters: Seq<char>, needed: Set<u8>, word: Seq<char>) -> bool {
    &&& word.len() <= u8::MAX
    &&& needed.contains(word.len() as u8)
    &&& letter_feasible(letters, word)
}

/// The test for the candidates of one length.
pub open spec fn candidate_of_length(letters: Seq<char>, needed: Set<u8>, length: u8) -> spec_fn(
    Seq<char>,
) -> bool {
    |word: Seq<char>| word.len() == length && is_candidate(letters, needed, word)
}

/// The pool that the lines of a dictionary give: under each length the
/// candidates of that length, in the order of the lines and as often as they
/// occur; no bucket for a length without candidates.
pub open spec fn pool_of(lines: Seq<Seq<char>>, letters: Seq<char>, needed: Set<u8>) -> Map<
    u8,
    Seq<Seq<char>>,
> {
    Map::new(
        |length: u8| lines.filter(candidate_of_length(letters, needed, length)).len() > 0,
        |length: u8| lines.filter(candidate_of_length(letters, needed, length)),
    )
}

/// The pool with `word` added at the end of the bucket of its length.
pub open spec fn with_candidate(pool: Map<u8, Seq<Seq<char>>>, word: Seq<char>) -> Map<
    u8,
    Seq<Seq<char>>,
> {
    pool.insert(word.len() as u8, candidates(pool, word.len() as u8).push(word))
}

/// One more line changes the pool by at most that line.
pub proof fn lemma_pool_of_push(
    lines: Seq<Seq<char>>,
    letters: Seq<char>,
    needed: Set<u8>,
    word: Seq<char>,
)
    ensures
        pool_of(lines.push(word), letters, needed) == if is_candidate(letters, needed, word) {
            with_candidate(pool_of(lines, letters, needed), word)
        } else {
            pool_of(lines, letters, needed)
        },
{
    reveal(Seq::filter);
    let before = pool_of(lines, letters, needed);
    let after = pool_of(lines.push(word), letters, needed);
    let expected = if is_candidate(letters, needed, word) {
        with_candidate(before, word)
    } else {
        before
    };
    assert(lines.push(word).drop_last() == lines);
    assert forall|length: u8|
        lines.push(word).filter(candidate_of_length(letters, needed, length)) == if word.len()
            == length && is_candidate(letters, needed, word) {
            lines.filter(candidate_of_length(letters, needed, length)).push(word)
        } else {
            lines.filter(candidate_of_length(letters, needed, length))
        } by {
        assert(lines.push(word).last() == word);
    }
    if is_candidate(letters, needed, word) {
        let own = word.len() as u8;
        let bucket = lines.filter(candidate_of_length(letters, needed, own));
        assert(candidates(before, own) =~= bucket);
        assert(after.contains_key(own) && after[own] == bucket.push(word));
    }
    assert forall|length: u8| after.contains_key(length) <==> expected.contains_key(length) by {
        let kept = lines.filter(candidate_of_length(letters, needed, length));
        assert(lines.push(word).filter(candidate_of_length(letters, needed, length)) == if word.len()
            == length && is_candidate(letters, needed, word) {
            kept.push(word)
        } else {
            kept
        });
    }
    assert forall|length: u8| after.contains_key(length) implies after[length]
        == expected[length] by {
        let kept = lines.filter(candidate_of_length(letters, needed, length));
        assert(lines.push(word).filter(candidate_of_length(letters, needed, length)) == if word.len()
            == length && is_candidate(letters, needed, word) {
            kept.push(word)
        } else {
            kept
        });
    }
    assert(after =~= expected);
}

/// Considers one line of the dictionary: the word is first tested by its
/// length, then against a fresh copy of the letters, and a word that passes
/// both goes to the end of the bucket of its length.
pub fn load_word(
    pool: &mut HashMap<u8, Vec<String>>,
    letters: &Vec<char>,
    valid_word_lengths: &Vec<u8>,
    word: String,
)
    ensures
        pool_view(final(pool)@) == if is_candidate(letters@, valid_word_lengths@.to_set(), word@) {
            with_candidate(pool_view(old(pool)@), word@)
        } else {
            pool_view(old(pool)@)
        },
{
    let count = word.as_str().unicode_len();
    if count > 255 {
        return ;
    }
    let index: u8 = count as u8;
    if !validity_length(valid_word_lengths, index) {
        return ;
    }
    let mut fresh = copy_letters(letters);
    if !validity_letters(&mut fresh, &word) {
        return ;
    }
    let ghost before = pool_view(pool@);
    let ghost text = word@;
    match pool.remove(&index) {
        Some(valid_vec) => {
            let mut valid_vec = valid_vec;
            let ghost bucket = word_views(valid_vec@);
            valid_vec.push(word);
            assert(word_views(valid_vec@) == bucket.push(text));
            pool.insert(index, valid_vec);
        },
        None => {
            let mut vc: Vec<String> = Vec::new();
            vc.push(word);
            assert(word_views(vc@) == Seq::<Seq<char>>::empty().push(text));
            pool.insert(index, vc);
        },
    }
    assert(pool_view(pool@) =~= with_candidate(before, text));
}

/// Builds the candidate pool from the lines of a dictionary, one word a
/// line: see [`load_word`].
pub fn load_all_words(
    lines: &Vec<String>,
    letters: &Vec<char>,
    valid_word_lengths: &Vec<u8>,
) -> (pool: HashMap<u8, Vec<String>>)
    ensures
        pool_view(pool@) == pool_of(word_views(lines@), letters@, valid_word_lengths@.to_set()),
        forall|length: u8, k: int|
            pool@.contains_key(length) && 0 <= k < pool@[length]@.len() ==> {
                let word = (#[trigger] pool@[length]@[k])@;
                &&& word.len() == length
                &&& valid_word_lengths@.contains(length)
                &&& letter_feasible(letters@, word)
                &&& word_views(lines@).contains(word)
            },
{
    let mut hashmap: HashMap<u8, Vec<String>> = HashMap::new();
    let ghost words = word_views(lines@);
    let mut i: usize = 0;
    proof {
        reveal(Seq::filter);
        assert(words.take(0) =~= Seq::<Seq<char>>::empty());
        assert(pool_view(hashmap@) =~= pool_of(words.take(0), letters@, valid_word_lengths@.to_set()));
    }
    while i < lines.len()
        invariant
            i <= lines@.len(),
            words == word_views(lines@),
            pool_view(hashmap@) == pool_of(words.take(i as int), letters@, valid_word_lengths@.to_set()),
        decreases lines@.len() - i,
    {
        let word = lines[i].clone();
        proof {
            assert(words.take(i + 1) == words.take(i as int).push(word@));
            lemma_pool_of_push(words.take(i as int), letters@, valid_word_lengths@.to_set(), word@);
        }
        load_word(&mut hashmap, letters, valid_word_lengths, word);
        i += 1;
    }
    proof {
        assert(words.take(lines@.len() as int) == words);
        assert forall|length: u8, k: int|
            hashmap@.contains_key(length) && 0 <= k < hashmap@[length]@.len() implies {
            let word = (#[trigger] hashmap@[length]@[k])@;
            &&& word.len() == length
            &&& valid_word_lengths@.contains(length)
            &&& letter_feasible(letters@, word)
            &&& words.contains(word)
        } by {
            let bucket = candidates(pool_view(hashmap@), length);
            assert(bucket == word_views(hashmap@[length]@));
            assert(bucket[k] == hashmap@[length]@[k]@);
            lemma_pool_words_are_candidates(words, letters@, valid_word_lengths@.to_set(), length, k);
        }
    }
    hashmap
}

/// Every word in a bucket of the pool is a line of the dictionary, has the
/// number of characters that the bucket stands for, which is one of the
/// lengths asked for, and can be written with all the letters.
pub proof fn lemma_pool_words_are_candidates(
    lines: Seq<Seq<char>>,
    letters: Seq<char>,
    needed: Set<u8>,
    length: u8,
    k: int,
)
    requires
        0 <= k < candidates(pool_of(lines, letters, needed), length).len(),
    ensures
        ({
            let word = candidates(pool_of(lines, letters, needed), length)[k];
            &&& word.len() == length
            &&& needed.contains(length)
            &&& letter_feasible(letters, word)
            &&& lines.contains(word)
        }),
{
    let keep = candidate_of_length(letters, needed, length);
    let bucket = lines.filter(keep);
    assert(candidates(pool_of(lines, letters, needed), length) == bucket);
    let word = bucket[k];
    lines.lemma_filter_pred(keep, k);
    assert(bucket.contains(word));
    lines.lemma_filter_contains_rev(keep, word);
}

} // verus!
