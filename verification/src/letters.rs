//! Spending letters on a word: the rule by which a word is tested against the
//! letters that are still available.

use crate::settings::WILDCARD;
use vstd::multiset::Multiset;
use vstd::prelude::*;
use vstd::seq_lib::{to_multiset_contains, to_multiset_remove};

verus! {

/// What is left of `letters` once one symbol has been spent on the character
/// `c`: the first symbol equal to `c` leaves, or, if there is none, the last
/// wildcard. `None` if neither is left.
pub open spec fn spend_letter(letters: Seq<char>, c: char) -> Option<Seq<char>> {
    match letters.index_of_first(c) {
        Some(i) => Some(letters.remove(i)),
        None => match letters.index_of_last(WILDCARD) {
            Some(i) => Some(letters.remove(i)),
            None => None,
        },
    }
}

/// Spends letters on the characters of `word` in order. The second component
/// says whether every character found a symbol; the first is what is left of
/// the letters, at the end or at the first character that found none.
pub open spec fn spend_word(letters: Seq<char>, word: Seq<char>) -> (Seq<char>, bool)
    decreases word.len(),
{
    if word.len() == 0 {
        (letters, true)
    } else {
        match spend_letter(letters, word[0]) {
            Some(rest) => spend_word(rest, word.drop_first()),
            None => (letters, false),
        }
    }
}

/// Whether `word` can be written with `letters`.
pub open spec fn letter_feasible(letters: Seq<char>, word: Seq<char>) -> bool {
    spend_word(letters, word).1
}

/// The letters that are left after `word` has been written with `letters`.
pub open spec fn letters_after(letters: Seq<char>, word: Seq<char>) -> Seq<char> {
    spend_word(letters, word).0
}

/// The position of the first symbol equal to `c`.
pub fn first_position(letters: &Vec<char>, c: char) -> (found: Option<usize>)
    ensures
        match found {
            Some(i) => i < letters@.len() && letters@.index_of_first(c) == Some(i as int),
            None => letters@.index_of_first(c) is None,
        },
{
    let mut i: usize = 0;
    while i < letters.len()
        invariant
            i <= letters@.len(),
            forall|j: int| 0 <= j < i ==> letters@[j] != c,
        decreases letters@.len() - i,
    {
        if letters[i] == c {
            proof {
                letters@.index_of_first_ensures(c);
            }
            return Some(i);
        }
        i += 1;
    }
    proof {
        letters@.index_of_first_ensures(c);
    }
    None
}

/// The position of the last symbol equal to `c`.
pub fn last_position(letters: &Vec<char>, c: char) -> (found: Option<usize>)
    ensures
        match found {
            Some(i) => i < letters@.len() && letters@.index_of_last(c) == Some(i as int),
            None => letters@.index_of_last(c) is None,
        },
{
    let mut i: usize = letters.len();
    while i > 0
        invariant
            i <= letters@.len(),
            forall|j: int| i <= j < letters@.len() ==> letters@[j] != c,
        decreases i,
    {
        i -= 1;
        if letters[i] == c {
            proof {
                letters@.index_of_last_ensures(c);
            }
            return Some(i);
        }
    }
    proof {
        letters@.index_of_last_ensures(c);
    }
    None
}

/// Spends one symbol of `letters` on the character `c`.
pub fn take_letter(letters: &mut Vec<char>, c: char) -> (taken: bool)
    ensures
        match spend_letter(old(letters)@, c) {
            Some(rest) => taken && final(letters)@ == rest,
            None => !taken && final(letters)@ == old(letters)@,
        },
{
    match first_position(letters, c) {
        Some(position) => {
            letters.remove(position);
            true
        },
        None => match last_position(letters, WILDCARD) {
            Some(position) => {
                letters.remove(position);
                true
            },
            None => false,
        },
    }
}

/// A fresh copy of the letters, for a test that spends them.
pub fn copy_letters(letters: &Vec<char>) -> (copy: Vec<char>)
    ensures
        copy@ == letters@,
{
    let copy = letters.clone();
    assert(copy@ =~= letters@);
    copy
}

/// Tests whether `word` can be written with `letters`, spending them on the
/// way: each character takes the first symbol equal to it, or else the last
/// wildcard. At the first character that finds neither, the test fails and
/// `letters` stays as it then is.
pub fn validity_letters(letters: &mut Vec<char>, word: &String) -> (valid: bool)
    ensures
        valid == letter_feasible(old(letters)@, word@),
        final(letters)@ == letters_after(old(letters)@, word@),
{
    let chars = word.as_str().chars();
    assert(word@.skip(0) == word@);
    for letter in it: chars
        invariant
            it.seq() == word@,
            spend_word(old(letters)@, word@) == spend_word(letters@, word@.skip(it.index())),
    {
        proof {
            let k = it.index();
            assert(word@.skip(k)[0] == letter);
            assert(word@.skip(k).drop_first() == word@.skip(k + 1));
        }
        if !take_letter(letters, letter) {
            return false;
        }
    }
    proof {
        assert(word@.skip(word@.len() as int) =~= Seq::<char>::empty());
    }
    true
}

/// The symbol that leaves for a character is the character itself or a
/// wildcard, and exactly one symbol leaves.
pub proof fn lemma_spend_letter_takes_one(letters: Seq<char>, c: char) -> (at: int)
    requires
        spend_letter(letters, c) is Some,
    ensures
        0 <= at < letters.len(),
        letters[at] == c || letters[at] == WILDCARD,
        spend_letter(letters, c) == Some(letters.remove(at)),
        letters.remove(at).len() == letters.len() - 1,
{
    letters.index_of_first_ensures(c);
    letters.index_of_last_ensures(WILDCARD);
    match letters.index_of_first(c) {
        Some(i) => i,
        None => letters.index_of_last(WILDCARD)->0,
    }
}

/// A word that can be written takes as many letters as it has characters.
pub proof fn lemma_feasible_word_takes_its_length(letters: Seq<char>, word: Seq<char>)
    requires
        letter_feasible(letters, word),
    ensures
        letters_after(letters, word).len() == letters.len() - word.len(),
        word.len() <= letters.len(),
    decreases word.len(),
{
    if word.len() > 0 {
        let at = lemma_spend_letter_takes_one(letters, word[0]);
        lemma_feasible_word_takes_its_length(letters.remove(at), word.drop_first());
    }
}

/// Writing two words one after the other is writing them as one word.
pub proof fn lemma_spend_word_concat(letters: Seq<char>, first: Seq<char>, second: Seq<char>)
    ensures
        spend_word(letters, first + second) == if letter_feasible(letters, first) {
            spend_word(letters_after(letters, first), second)
        } else {
            spend_word(letters, first)
        },
    decreases first.len(),
{
    if first.len() == 0 {
        assert(first + second =~= second);
    } else {
        assert((first + second)[0] == first[0]);
        assert((first + second).drop_first() =~= first.drop_first() + second);
        match spend_letter(letters, first[0]) {
            Some(rest) => {
                lemma_spend_word_concat(rest, first.drop_first(), second);
            },
            None => {},
        }
    }
}

/// The test for the symbols that can serve a character of `word`: the
/// wildcard, and the characters of `word` themselves.
pub open spec fn serves(word: Seq<char>) -> spec_fn(char) -> bool {
    |symbol: char| symbol == WILDCARD || word.contains(symbol)
}

/// The number of letters that can serve a character of `word`: the wildcards
/// and the letters that occur in `word`.
pub open spec fn usable_letters(letters: Seq<char>, word: Seq<char>) -> nat {
    letters.filter(serves(word)).len()
}

/// Taking one element out of a sequence takes it out of what a test keeps of
/// the sequence, if the test keeps it.
proof fn lemma_filter_remove(s: Seq<char>, keep: spec_fn(char) -> bool, at: int)
    requires
        0 <= at < s.len(),
    ensures
        s.remove(at).filter(keep).len() == s.filter(keep).len() - if keep(s[at]) {
            1int
        } else {
            0int
        },
    decreases s.len(),
{
    reveal(Seq::filter);
    if at == s.len() - 1 {
        assert(s.remove(at) =~= s.drop_last());
    } else {
        let shorter = s.remove(at);
        assert(shorter.last() == s.last());
        assert(shorter.drop_last() =~= s.drop_last().remove(at));
        lemma_filter_remove(s.drop_last(), keep, at);
    }
}

/// Writing some characters of `word` takes as many of the letters that can
/// serve `word`.
proof fn lemma_feasible_part_is_served(letters: Seq<char>, part: Seq<char>, word: Seq<char>)
    requires
        forall|i: int| 0 <= i < part.len() ==> word.contains(#[trigger] part[i]),
        letter_feasible(letters, part),
    ensures
        part.len() <= usable_letters(letters, word),
    decreases part.len(),
{
    if part.len() > 0 {
        let at = lemma_spend_letter_takes_one(letters, part[0]);
        let rest = letters.remove(at);
        assert(word.contains(part[0]));
        assert(serves(word)(letters[at]));
        lemma_filter_remove(letters, serves(word), at);
        assert forall|i: int| 0 <= i < part.drop_first().len() implies word.contains(
            #[trigger] part.drop_first()[i],
        ) by {
            assert(part.drop_first()[i] == part[i + 1]);
        }
        lemma_feasible_part_is_served(rest, part.drop_first(), word);
    }
}

/// A word with more characters than there are wildcards and letters that
/// occur in it cannot be written.
pub proof fn lemma_long_word_is_rejected(letters: Seq<char>, word: Seq<char>)
    requires
        word.len() > usable_letters(letters, word),
    ensures
        !letter_feasible(letters, word),
{
    if letter_feasible(letters, word) {
        lemma_feasible_part_is_served(letters, word, word);
    }
}

/// [`spend_letter`] on letters of which only the number of each symbol is
/// known.
pub open spec fn spend_from_bag(bag: Multiset<char>, c: char) -> Option<Multiset<char>> {
    if bag.count(c) > 0 {
        Some(bag.remove(c))
    } else if bag.count(WILDCARD) > 0 {
        Some(bag.remove(WILDCARD))
    } else {
        None
    }
}

/// [`letter_feasible`] on letters of which only the number of each symbol is
/// known.
pub open spec fn bag_feasible(bag: Multiset<char>, word: Seq<char>) -> bool
    decreases word.len(),
{
    if word.len() == 0 {
        true
    } else {
        match spend_from_bag(bag, word[0]) {
            Some(rest) => bag_feasible(rest, word.drop_first()),
            None => false,
        }
    }
}

/// Whether a word can be written depends on how often each symbol occurs
/// among the letters, not on their order.
pub proof fn lemma_feasibility_ignores_order(letters: Seq<char>, word: Seq<char>)
    ensures
        letter_feasible(letters, word) == bag_feasible(letters.to_multiset(), word),
    decreases word.len(),
{
    if word.len() > 0 {
        let c = word[0];
        letters.index_of_first_ensures(c);
        letters.index_of_last_ensures(WILDCARD);
        to_multiset_contains(letters, c);
        to_multiset_contains(letters, WILDCARD);
        let found = match letters.index_of_first(c) {
            Some(at) => Some(at),
            None => letters.index_of_last(WILDCARD),
        };
        match found {
            Some(at) => {
                to_multiset_remove(letters, at);
                lemma_feasibility_ignores_order(letters.remove(at), word.drop_first());
            },
            None => {},
        }
    }
}

/// A word that can be written can still be written with one more symbol
/// among the letters.
pub proof fn lemma_bag_feasible_with_more(bag: Multiset<char>, extra: char, word: Seq<char>)
    requires
        bag_feasible(bag, word),
    ensures
        bag_feasible(bag.insert(extra), word),
    decreases word.len(),
{
    if word.len() > 0 {
        let c = word[0];
        let more = bag.insert(extra);
        let tail = word.drop_first();
        if bag.count(c) > 0 {
            assert(more.remove(c) =~= bag.remove(c).insert(extra));
            lemma_bag_feasible_with_more(bag.remove(c), extra, tail);
        } else if extra == c {
            assert(more.remove(c) =~= bag);
            assert(bag.remove(WILDCARD).insert(WILDCARD) =~= bag);
            lemma_bag_feasible_with_more(bag.remove(WILDCARD), WILDCARD, tail);
        } else {
            assert(more.count(c) == 0);
            assert(more.remove(WILDCARD) =~= bag.remove(WILDCARD).insert(extra));
            lemma_bag_feasible_with_more(bag.remove(WILDCARD), extra, tail);
        }
    }
}

/// A word that can be written without one of the letters can be written
/// with all of them.
pub proof fn lemma_feasible_with_more(letters: Seq<char>, at: int, word: Seq<char>)
    requires
        0 <= at < letters.len(),
        letter_feasible(letters.remove(at), word),
    ensures
        letter_feasible(letters, word),
{
    let bag = letters.to_multiset();
    lemma_feasibility_ignores_order(letters.remove(at), word);
    lemma_feasibility_ignores_order(letters, word);
    to_multiset_remove(letters, at);
    to_multiset_contains(letters, letters[at]);
    assert(letters.contains(letters[at]));
    assert(bag.remove(letters[at]).insert(letters[at]) =~= bag);
    lemma_bag_feasible_with_more(bag.remove(letters[at]), letters[at], word);
}

/// A word that can be written with what another word leaves can be written
/// with all the letters.
pub proof fn lemma_feasible_after_is_feasible(
    letters: Seq<char>,
    first: Seq<char>,
    second: Seq<char>,
)
    requires
        letter_feasible(letters, first),
        letter_feasible(letters_after(letters, first), second),
    ensures
        letter_feasible(letters, second),
    decreases first.len(),
{
    if first.len() > 0 {
        let at = lemma_spend_letter_takes_one(letters, first[0]);
        lemma_feasible_after_is_feasible(letters.remove(at), first.drop_first(), second);
        lemma_feasible_with_more(letters, at, second);
    }
}

/// Where words can be written one after the other, each of them can be
/// written alone with all the letters.
pub proof fn lemma_each_word_is_feasible(letters: Seq<char>, words: Seq<Seq<char>>, k: int)
    requires
        0 <= k < words.len(),
        letter_feasible(letters, words.flatten()),
    ensures
        letter_feasible(letters, words[k]),
    decreases words.len(),
{
    let first = words[0];
    let rest = words.drop_first();
    assert(words.flatten() == first + rest.flatten());
    lemma_spend_word_concat(letters, first, rest.flatten());
    if k > 0 {
        lemma_each_word_is_feasible(letters_after(letters, first), rest, k - 1);
        assert(rest[k - 1] == words[k]);
        lemma_feasible_after_is_feasible(letters, first, words[k]);
    }
}

} // verus!
