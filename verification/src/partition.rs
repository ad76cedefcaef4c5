//! The sequences of word lengths that spend all the letters.

use crate::settings::{ConfigError, Settings};
use vstd::prelude::*;

verus! {

/// The sequences of word lengths as mathematical sequences.
pub open spec fn partition_views(partitions: Seq<Vec<u8>>) -> Seq<Seq<u8>> {
    partitions.map_values(|partition: Vec<u8>| partition@)
}

/// The sum of a sequence of word lengths.
pub open spec fn total_of(lengths: Seq<u8>) -> int
    decreases lengths.len(),
{
    if lengths.len() == 0 {
        0
    } else {
        lengths[0] + total_of(lengths.drop_first())
    }
}

/// Each sequence of `sequences` with `first` put in front.
pub open spec fn prepend_each(first: u8, sequences: Seq<Seq<u8>>) -> Seq<Seq<u8>> {
    sequences.map_values(|lengths: Seq<u8>| seq![first] + lengths)
}

/// All the sequences of word lengths between `min_len` and `max_len` that sum
/// to `total`: those that start with the smallest length come first, and among
/// those that start alike, the order is that of what follows the first length.
pub open spec fn length_sequences(min_len: u8, max_len: u8, total: u8) -> Seq<Seq<u8>>
    decreases total, 2int, 0int,
{
    let reach = if max_len < total {
        max_len
    } else {
        total
    };
    sequences_below(min_len, max_len, total, reach + 1)
}

/// The sequences of [`length_sequences`] whose first length is less than
/// `bound`.
pub open spec fn sequences_below(min_len: u8, max_len: u8, total: u8, bound: int) -> Seq<Seq<u8>>
    decreases total, 1int, bound - min_len,
{
    if bound <= min_len {
        Seq::empty()
    } else {
        sequences_below(min_len, max_len, total, bound - 1) + sequences_starting_with(
            min_len,
            max_len,
            total,
            (bound - 1) as u8,
        )
    }
}

/// The sequences of [`length_sequences`] whose first length is `first`.
pub open spec fn sequences_starting_with(min_len: u8, max_len: u8, total: u8, first: u8) -> Seq<
    Seq<u8>,
>
    decreases total, 0int, 0int,
{
    if first == total {
        seq![seq![total]]
    } else if 0 < first < total {
        prepend_each(first, length_sequences(min_len, max_len, (total - first) as u8))
    } else {
        Seq::empty()
    }
}

/// The test on the number of words of a sequence of word lengths.
pub open spec fn word_count_within(min_words: u8, max_words: u8) -> spec_fn(Seq<u8>) -> bool {
    |lengths: Seq<u8>| min_words <= lengths.len() <= max_words
}

/// The sequences of word lengths that a run accepts: those of
/// [`length_sequences`] for all the letters, as far as their number of words is
/// within the bounds.
pub open spec fn accepted_partitions(settings: Settings) -> Seq<Seq<u8>> {
    length_sequences(
        settings.minimum_word_length,
        settings.maximum_word_length,
        settings.letters@.len() as u8,
    ).filter(word_count_within(settings.minimum_number_of_words, settings.maximum_number_of_words))
}

/// Lists the sequences of word lengths within the bounds on a word's length
/// that sum to `leftover_length`. The number of words is not looked at here.
/// Returns `None` where there is no such sequence.
pub fn find_valid_permuations_of_word_lengths_recurser(
    settings: &Settings,
    leftover_length: u8,
) -> (found: Option<Vec<Vec<u8>>>)
    requires
        settings.minimum_word_length >= 1,
    ensures
        match found {
            Some(list) => list@.len() > 0 && partition_views(list@) == length_sequences(
                settings.minimum_word_length,
                settings.maximum_word_length,
                leftover_length,
            ),
            None => length_sequences(
                settings.minimum_word_length,
                settings.maximum_word_length,
                leftover_length,
            ).len() == 0,
        },
    decreases leftover_length,
{
    let min_len = settings.minimum_word_length;
    let max_len = settings.maximum_word_length;
    let mut results: Vec<Vec<u8>> = Vec::new();
    let reach: u8 = if max_len < leftover_length {
        max_len
    } else {
        leftover_length
    };
    let mut next: u16 = min_len as u16;
    assert(partition_views(results@) =~= Seq::<Seq<u8>>::empty());
    while next <= reach as u16
        invariant
            min_len == settings.minimum_word_length,
            max_len == settings.maximum_word_length,
            min_len >= 1,
            reach <= leftover_length,
            next == min_len || min_len <= next <= reach + 1,
            partition_views(results@) == sequences_below(
                min_len,
                max_len,
                leftover_length,
                next as int,
            ),
        decreases reach + 1 - next,
    {
        let i: u8 = next as u8;
        let ghost before = partition_views(results@);
        let ghost step = sequences_starting_with(min_len, max_len, leftover_length, i);
        if leftover_length == i {
            let mut single_letter: Vec<u8> = Vec::new();
            single_letter.push(leftover_length);
            results.push(single_letter);
            assert(partition_views(results@) == before + step);
        } else {
            let sub_results = find_valid_permuations_of_word_lengths_recurser(
                settings,
                leftover_length - i,
            );
            match sub_results {
                Some(s) => {
                    let ghost tails = partition_views(s@);
                    let mut j: usize = 0;
                    while j < s.len()
                        invariant
                            j <= s@.len(),
                            tails == partition_views(s@),
                            partition_views(results@) == before + prepend_each(
                                i,
                                tails.take(j as int),
                            ),
                        decreases s@.len() - j,
                    {
                        let inner_vec = &s[j];
                        let mut temp_vec: Vec<u8> = Vec::new();
                        temp_vec.push(i);
                        let mut k: usize = 0;
                        while k < inner_vec.len()
                            invariant
                                k <= inner_vec@.len(),
                                temp_vec@ == seq![i] + inner_vec@.take(k as int),
                            decreases inner_vec@.len() - k,
                        {
                            temp_vec.push(inner_vec[k]);
                            k += 1;
                        }
                        assert(inner_vec@.take(inner_vec@.len() as int) == inner_vec@);
                        let ghost sofar = partition_views(results@);
                        results.push(temp_vec);
                        proof {
                            assert(partition_views(results@) == sofar.push(temp_vec@));
                            assert(prepend_each(i, tails.take(j + 1)) == prepend_each(
                                i,
                                tails.take(j as int),
                            ).push(seq![i] + tails[j as int]));
                        }
                        j += 1;
                    }
                    assert(tails.take(s@.len() as int) == tails);
                },
                None => {
                    assert(step == Seq::<Seq<u8>>::empty());
                    assert(partition_views(results@) == before + step);
                },
            }
        }
        next += 1;
    }
    if results.is_empty() {
        assert(partition_views(results@) =~= Seq::<Seq<u8>>::empty());
        None
    } else {
        Some(results)
    }
}

/// Lists the sequences of word lengths that spend all the letters within the
/// four bounds. Without any such sequence the run has failed.
pub fn find_valid_permuations_of_word_lengths(settings: &Settings) -> (found: Result<
    Vec<Vec<u8>>,
    ConfigError,
>)
    requires
        settings.well_formed(),
    ensures
        match found {
            Ok(list) => list@.len() > 0 && partition_views(list@) == accepted_partitions(*settings),
            Err(e) => e == ConfigError::NoLengthPermutation && accepted_partitions(*settings).len()
                == 0,
        },
        settings.minimum_word_length > settings.letters@.len() ==> found is Err,
        found matches Ok(list) ==> forall|k: int|
            0 <= k < list@.len() ==> is_accepted_partition((#[trigger] list@[k])@, *settings),
{
    proof {
        if settings.minimum_word_length > settings.letters@.len() {
            lemma_no_partition_of_too_few_letters(*settings);
        }
    }
    let total: u8 = settings.letters.len() as u8;
    let ghost keep = word_count_within(
        settings.minimum_number_of_words,
        settings.maximum_number_of_words,
    );
    match find_valid_permuations_of_word_lengths_recurser(settings, total) {
        Some(s) => {
            let ghost all = partition_views(s@);
            let mut results: Vec<Vec<u8>> = Vec::new();
            let mut i: usize = 0;
            proof {
                reveal(Seq::filter);
                assert(all.take(0) =~= Seq::<Seq<u8>>::empty());
                assert(partition_views(results@) =~= Seq::<Seq<u8>>::empty());
            }
            while i < s.len()
                invariant
                    i <= s@.len(),
                    all == partition_views(s@),
                    keep == word_count_within(
                        settings.minimum_number_of_words,
                        settings.maximum_number_of_words,
                    ),
                    partition_views(results@) == all.take(i as int).filter(keep),
                decreases s@.len() - i,
            {
                let permutation = &s[i];
                proof {
                    reveal(Seq::filter);
                    assert(all.take(i + 1).drop_last() == all.take(i as int));
                    assert(all.take(i + 1).last() == permutation@);
                }
                if permutation.len() >= settings.minimum_number_of_words as usize
                    && permutation.len() <= settings.maximum_number_of_words as usize {
                    let mut copy: Vec<u8> = Vec::new();
                    let mut k: usize = 0;
                    while k < permutation.len()
                        invariant
                            k <= permutation@.len(),
                            copy@ == permutation@.take(k as int),
                        decreases permutation@.len() - k,
                    {
                        copy.push(permutation[k]);
                        k += 1;
                    }
                    assert(permutation@.take(permutation@.len() as int) == permutation@);
                    let ghost before = partition_views(results@);
                    results.push(copy);
                    assert(partition_views(results@) == before.push(permutation@));
                }
                i += 1;
            }
            assert(all.take(s@.len() as int) == all);
            if results.is_empty() {
                assert(partition_views(results@) =~= Seq::<Seq<u8>>::empty());
                Err(ConfigError::NoLengthPermutation)
            } else {
                assert forall|k: int| 0 <= k < results@.len() implies is_accepted_partition(
                    (#[trigger] results@[k])@,
                    *settings,
                ) by {
                    assert(partition_views(results@) == accepted_partitions(*settings));
                    assert(partition_views(results@)[k] == results@[k]@);
                    lemma_accepted_partitions_valid(*settings, k);
                }
                Ok(results)
            }
        },
        None => {
            proof {
                reveal(Seq::filter);
            }
            Err(ConfigError::NoLengthPermutation)
        },
    }
}

/// Whether `lengths` is a sequence of word lengths between `min_len` and
/// `max_len` that sum to `total`.
pub open spec fn is_length_sequence(lengths: Seq<u8>, min_len: u8, max_len: u8, total: int) -> bool {
    &&& lengths.len() >= 1
    &&& total_of(lengths) == total
    &&& forall|j: int| 0 <= j < lengths.len() ==> min_len <= #[trigger] lengths[j] <= max_len
}

/// Every sequence that starts with `first` and goes on as a sequence listed
/// for what `first` leaves is a sequence for `total`.
proof fn lemma_starting_with_sound(min_len: u8, max_len: u8, total: u8, first: u8, k: int)
    requires
        min_len >= 1,
        min_len <= first <= max_len,
        0 <= k < sequences_starting_with(min_len, max_len, total, first).len(),
    ensures
        is_length_sequence(
            sequences_starting_with(min_len, max_len, total, first)[k],
            min_len,
            max_len,
            total as int,
        ),
    decreases total, 0int, 0int,
{
    let lengths = sequences_starting_with(min_len, max_len, total, first)[k];
    if first == total {
        assert(lengths == seq![total]);
        assert(lengths.drop_first() =~= Seq::<u8>::empty());
        assert(total_of(lengths) == total) by {
            reveal_with_fuel(total_of, 2);
        }
    } else {
        let rest = (total - first) as u8;
        let tail = length_sequences(min_len, max_len, rest)[k];
        lemma_length_sequences_sound(min_len, max_len, rest, k);
        assert(lengths == seq![first] + tail);
        assert(lengths.drop_first() =~= tail);
        assert forall|j: int| 0 <= j < lengths.len() implies min_len <= #[trigger] lengths[j]
            <= max_len by {
            if j > 0 {
                assert(lengths[j] == tail[j - 1]);
            }
        }
    }
}

/// Every sequence listed with a first length below `bound` is a sequence for
/// `total`.
proof fn lemma_below_sound(min_len: u8, max_len: u8, total: u8, bound: int, k: int)
    requires
        min_len >= 1,
        bound <= max_len + 1,
        0 <= k < sequences_below(min_len, max_len, total, bound).len(),
    ensures
        is_length_sequence(
            sequences_below(min_len, max_len, total, bound)[k],
            min_len,
            max_len,
            total as int,
        ),
    decreases total, 1int, bound - min_len,
{
    if bound > min_len {
        let earlier = sequences_below(min_len, max_len, total, bound - 1);
        if k < earlier.len() {
            lemma_below_sound(min_len, max_len, total, bound - 1, k);
        } else {
            lemma_starting_with_sound(
                min_len,
                max_len,
                total,
                (bound - 1) as u8,
                k - earlier.len(),
            );
        }
    }
}

/// Every sequence of [`length_sequences`] sums to `total`, is not empty, and
/// holds only lengths between `min_len` and `max_len`.
pub proof fn lemma_length_sequences_sound(min_len: u8, max_len: u8, total: u8, k: int)
    requires
        min_len >= 1,
        0 <= k < length_sequences(min_len, max_len, total).len(),
    ensures
        is_length_sequence(
            length_sequences(min_len, max_len, total)[k],
            min_len,
            max_len,
            total as int,
        ),
    decreases total, 2int, 0int,
{
    let reach = if max_len < total {
        max_len
    } else {
        total
    };
    lemma_below_sound(min_len, max_len, total, reach + 1, k);
}

/// Whether `lengths` is a sequence of word lengths that meets the four bounds
/// of `settings` and spends all its letters.
pub open spec fn is_accepted_partition(lengths: Seq<u8>, settings: Settings) -> bool {
    &&& is_length_sequence(
        lengths,
        settings.minimum_word_length,
        settings.maximum_word_length,
        settings.letters@.len() as int,
    )
    &&& settings.minimum_number_of_words <= lengths.len() <= settings.maximum_number_of_words
}

/// Every accepted sequence of word lengths sums to the number of letters,
/// holds only lengths within the bounds on a word's length, and has a number
/// of words within the bounds on that number.
pub proof fn lemma_accepted_partitions_valid(settings: Settings, k: int)
    requires
        settings.well_formed(),
        0 <= k < accepted_partitions(settings).len(),
    ensures
        is_accepted_partition(accepted_partitions(settings)[k], settings),
{
    let all = length_sequences(
        settings.minimum_word_length,
        settings.maximum_word_length,
        settings.letters@.len() as u8,
    );
    let keep = word_count_within(
        settings.minimum_number_of_words,
        settings.maximum_number_of_words,
    );
    let lengths = all.filter(keep)[k];
    all.lemma_filter_pred(keep, k);
    assert(all.filter(keep).contains(lengths));
    all.lemma_filter_contains_rev(keep, lengths);
    let at = choose|at: int| 0 <= at < all.len() && all[at] == lengths;
    lemma_length_sequences_sound(
        settings.minimum_word_length,
        settings.maximum_word_length,
        settings.letters@.len() as u8,
        at,
    );
}

/// A sum of word lengths is not negative.
pub proof fn lemma_total_of_bounds(lengths: Seq<u8>)
    ensures
        total_of(lengths) >= 0,
    decreases lengths.len(),
{
    if lengths.len() > 0 {
        lemma_total_of_bounds(lengths.drop_first());
    }
}

/// A sequence listed under its first length is listed under every bound
/// above that length.
proof fn lemma_below_complete(
    min_len: u8,
    max_len: u8,
    total: u8,
    bound: int,
    first: u8,
    lengths: Seq<u8>,
)
    requires
        min_len <= first < bound,
        sequences_starting_with(min_len, max_len, total, first).contains(lengths),
    ensures
        sequences_below(min_len, max_len, total, bound).contains(lengths),
    decreases bound - min_len,
{
    let earlier = sequences_below(min_len, max_len, total, bound - 1);
    let last = sequences_starting_with(min_len, max_len, total, (bound - 1) as u8);
    if first == bound - 1 {
        let at = choose|at: int| 0 <= at < last.len() && last[at] == lengths;
        assert((earlier + last)[earlier.len() + at] == lengths);
    } else {
        lemma_below_complete(min_len, max_len, total, bound - 1, first, lengths);
        let at = choose|at: int| 0 <= at < earlier.len() && earlier[at] == lengths;
        assert((earlier + last)[at] == lengths);
    }
}

/// Every sequence of word lengths between `min_len` and `max_len` that sums
/// to `total` is one of [`length_sequences`].
pub proof fn lemma_length_sequences_complete(min_len: u8, max_len: u8, total: u8, lengths: Seq<u8>)
    requires
        min_len >= 1,
        is_length_sequence(lengths, min_len, max_len, total as int),
    ensures
        length_sequences(min_len, max_len, total).contains(lengths),
    decreases lengths.len(),
{
    let first = lengths[0];
    let tail = lengths.drop_first();
    lemma_total_of_bounds(tail);
    let listed = sequences_starting_with(min_len, max_len, total, first);
    if lengths.len() == 1 {
        assert(tail =~= Seq::<u8>::empty());
        assert(total_of(tail) == 0);
        assert(lengths =~= seq![total]);
        assert(listed[0] == lengths);
    } else {
        assert forall|j: int| 0 <= j < tail.len() implies min_len <= #[trigger] tail[j]
            <= max_len by {
            assert(tail[j] == lengths[j + 1]);
        }
        assert(tail[0] >= 1);
        lemma_total_of_bounds(tail.drop_first());
        let rest = (total - first) as u8;
        lemma_length_sequences_complete(min_len, max_len, rest, tail);
        let tails = length_sequences(min_len, max_len, rest);
        let at = choose|at: int| 0 <= at < tails.len() && tails[at] == tail;
        assert(listed[at] == seq![first] + tail);
        assert(seq![first] + tail =~= lengths);
    }
    let reach = if max_len < total {
        max_len
    } else {
        total
    };
    lemma_below_complete(min_len, max_len, total, reach + 1, first, lengths);
}

/// The accepted sequences of word lengths are exactly the sequences that
/// spend all the letters within the four bounds.
pub proof fn lemma_accepted_partitions_exact(settings: Settings, lengths: Seq<u8>)
    requires
        settings.well_formed(),
    ensures
        accepted_partitions(settings).contains(lengths) <==> is_accepted_partition(
            lengths,
            settings,
        ),
{
    let all = length_sequences(
        settings.minimum_word_length,
        settings.maximum_word_length,
        settings.letters@.len() as u8,
    );
    let keep = word_count_within(
        settings.minimum_number_of_words,
        settings.maximum_number_of_words,
    );
    if accepted_partitions(settings).contains(lengths) {
        let k = choose|k: int|
            0 <= k < accepted_partitions(settings).len() && accepted_partitions(settings)[k]
                == lengths;
        lemma_accepted_partitions_valid(settings, k);
    }
    if is_accepted_partition(lengths, settings) {
        lemma_length_sequences_complete(
            settings.minimum_word_length,
            settings.maximum_word_length,
            settings.letters@.len() as u8,
            lengths,
        );
        let at = choose|at: int| 0 <= at < all.len() && all[at] == lengths;
        all.lemma_filter_contains(keep, at);
    }
}

/// Where the shortest word allowed is longer than all the letters together,
/// no sequence of word lengths is accepted.
pub proof fn lemma_no_partition_of_too_few_letters(settings: Settings)
    requires
        settings.well_formed(),
        settings.minimum_word_length > settings.letters@.len(),
    ensures
        accepted_partitions(settings).len() == 0,
{
    reveal(Seq::filter);
}

/// Whether `a` comes before `b` in the order of a dictionary: at the first
/// place where the two differ `a` has the smaller length, or `a` ends there
/// and `b` goes on.
pub open spec fn comes_before(a: Seq<u8>, b: Seq<u8>) -> bool
    decreases a.len(),
{
    if b.len() == 0 {
        false
    } else if a.len() == 0 {
        true
    } else if a[0] != b[0] {
        a[0] < b[0]
    } else {
        comes_before(a.drop_first(), b.drop_first())
    }
}

/// No sequence comes before itself.
pub proof fn lemma_nothing_comes_before_itself(a: Seq<u8>)
    ensures
        !comes_before(a, a),
    decreases a.len(),
{
    if a.len() > 0 {
        lemma_nothing_comes_before_itself(a.drop_first());
    }
}

/// A sequence listed under a first length starts with that length.
proof fn lemma_starting_with_first(min_len: u8, max_len: u8, total: u8, first: u8, k: int)
    requires
        0 <= k < sequences_starting_with(min_len, max_len, total, first).len(),
    ensures
        sequences_starting_with(min_len, max_len, total, first)[k].len() >= 1,
        sequences_starting_with(min_len, max_len, total, first)[k][0] == first,
{
}

/// A sequence listed under a bound starts with a length below the bound.
proof fn lemma_below_first(min_len: u8, max_len: u8, total: u8, bound: int, k: int)
    requires
        bound <= 256,
        0 <= k < sequences_below(min_len, max_len, total, bound).len(),
    ensures
        sequences_below(min_len, max_len, total, bound)[k].len() >= 1,
        min_len <= sequences_below(min_len, max_len, total, bound)[k][0] < bound,
    decreases bound - min_len,
{
    if bound > min_len {
        let earlier = sequences_below(min_len, max_len, total, bound - 1);
        if k < earlier.len() {
            lemma_below_first(min_len, max_len, total, bound - 1, k);
        } else {
            lemma_starting_with_first(
                min_len,
                max_len,
                total,
                (bound - 1) as u8,
                k - earlier.len(),
            );
        }
    }
}

/// The sequences listed under one first length are in ascending order.
proof fn lemma_starting_with_ascending(
    min_len: u8,
    max_len: u8,
    total: u8,
    first: u8,
    i: int,
    j: int,
)
    requires
        min_len >= 1,
        0 <= i < j < sequences_starting_with(min_len, max_len, total, first).len(),
    ensures
        comes_before(
            sequences_starting_with(min_len, max_len, total, first)[i],
            sequences_starting_with(min_len, max_len, total, first)[j],
        ),
    decreases total, 0int, 0int,
{
    if 0 < first < total {
        let rest = (total - first) as u8;
        let tails = length_sequences(min_len, max_len, rest);
        lemma_length_sequences_ascending(min_len, max_len, rest, i, j);
        assert((seq![first] + tails[i]).drop_first() =~= tails[i]);
        assert((seq![first] + tails[j]).drop_first() =~= tails[j]);
    }
}

/// The sequences listed under a bound are in ascending order.
proof fn lemma_below_ascending(min_len: u8, max_len: u8, total: u8, bound: int, i: int, j: int)
    requires
        min_len >= 1,
        bound <= 256,
        0 <= i < j < sequences_below(min_len, max_len, total, bound).len(),
    ensures
        comes_before(
            sequences_below(min_len, max_len, total, bound)[i],
            sequences_below(min_len, max_len, total, bound)[j],
        ),
    decreases total, 1int, bound - min_len,
{
    if bound > min_len {
        let earlier = sequences_below(min_len, max_len, total, bound - 1);
        let first = (bound - 1) as u8;
        if j < earlier.len() {
            lemma_below_ascending(min_len, max_len, total, bound - 1, i, j);
        } else if i < earlier.len() {
            lemma_below_first(min_len, max_len, total, bound - 1, i);
            lemma_starting_with_first(min_len, max_len, total, first, j - earlier.len());
        } else {
            lemma_starting_with_ascending(
                min_len,
                max_len,
                total,
                first,
                i - earlier.len(),
                j - earlier.len(),
            );
        }
    }
}

/// The sequences of [`length_sequences`] are in ascending order, so none
/// occurs twice.
pub proof fn lemma_length_sequences_ascending(min_len: u8, max_len: u8, total: u8, i: int, j: int)
    requires
        min_len >= 1,
        0 <= i < j < length_sequences(min_len, max_len, total).len(),
    ensures
        comes_before(
            length_sequences(min_len, max_len, total)[i],
            length_sequences(min_len, max_len, total)[j],
        ),
    decreases total, 2int, 0int,
{
    let reach = if max_len < total {
        max_len
    } else {
        total
    };
    lemma_below_ascending(min_len, max_len, total, reach + 1, i, j);
}

/// Whether each sequence of the list comes before those after it.
pub open spec fn ascending(list: Seq<Seq<u8>>) -> bool {
    forall|i: int, j: int| 0 <= i < j < list.len() ==> comes_before(list[i], list[j])
}

/// What a test keeps of an ascending list is ascending.
proof fn lemma_filter_ascending(list: Seq<Seq<u8>>, keep: spec_fn(Seq<u8>) -> bool)
    requires
        ascending(list),
    ensures
        ascending(list.filter(keep)),
    decreases list.len(),
{
    reveal(Seq::filter);
    if list.len() > 0 {
        let shorter = list.drop_last();
        assert forall|i: int, j: int| 0 <= i < j < shorter.len() implies comes_before(
            shorter[i],
            shorter[j],
        ) by {
            assert(shorter[i] == list[i] && shorter[j] == list[j]);
        }
        lemma_filter_ascending(shorter, keep);
        let kept = shorter.filter(keep);
        assert forall|i: int, j: int| 0 <= i < j < list.filter(keep).len() implies comes_before(
            list.filter(keep)[i],
            list.filter(keep)[j],
        ) by {
            if j == kept.len() {
                assert(kept.contains(kept[i]));
                shorter.lemma_filter_contains_rev(keep, kept[i]);
                let at = choose|at: int| 0 <= at < shorter.len() && shorter[at] == kept[i];
                assert(shorter[at] == list[at]);
            }
        }
    }
}

/// The accepted sequences of word lengths are in ascending order: the one
/// that is smaller at the first place where two differ comes first. So none
/// occurs twice.
pub proof fn lemma_accepted_partitions_ascending(settings: Settings)
    requires
        settings.well_formed(),
    ensures
        ascending(accepted_partitions(settings)),
{
    let all = length_sequences(
        settings.minimum_word_length,
        settings.maximum_word_length,
        settings.letters@.len() as u8,
    );
    assert forall|i: int, j: int| 0 <= i < j < all.len() implies comes_before(all[i], all[j]) by {
        lemma_length_sequences_ascending(
            settings.minimum_word_length,
            settings.maximum_word_length,
            settings.letters@.len() as u8,
            i,
            j,
        );
    }
    lemma_filter_ascending(
        all,
        word_count_within(settings.minimum_number_of_words, settings.maximum_number_of_words),
    );
}

} // verus!
