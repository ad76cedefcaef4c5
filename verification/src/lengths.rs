//! The word lengths that the accepted sequences of lengths ask for.

use crate::partition::partition_views;
use vstd::prelude::*;

verus! {

/// Whether `length` occurs in one of the sequences.
pub open spec fn mentions(partitions: Seq<Seq<u8>>, length: u8) -> bool {
    exists|i: int, j: int|
        0 <= i < partitions.len() && 0 <= j < partitions[i].len() && #[trigger] partitions[i][j]
            == length
}

/// The lengths that occur in the sequences.
pub open spec fn lengths_in(partitions: Seq<Seq<u8>>) -> Set<u8> {
    Set::new(|length: u8| mentions(partitions, length))
}

/// Whether `length` occurs in one of the first `rows` sequences, or among the
/// first `columns` lengths of the sequence after them.
pub open spec fn mentions_before(
    partitions: Seq<Seq<u8>>,
    rows: int,
    columns: int,
    length: u8,
) -> bool {
    exists|i: int, j: int|
        0 <= i < partitions.len() && 0 <= j < partitions[i].len() && (i < rows || (i == rows && j
            < columns)) && #[trigger] partitions[i][j] == length
}

/// Whether each length is less than the one after it.
pub open spec fn strictly_ascending(lengths: Seq<u8>) -> bool {
    forall|i: int, j: int| 0 <= i < j < lengths.len() ==> lengths[i] < lengths[j]
}

/// Puts `value` at its place in an ascending list, unless it is there.
fn insert_length(lengths: &mut Vec<u8>, value: u8)
    requires
        strictly_ascending(old(lengths)@),
    ensures
        strictly_ascending(final(lengths)@),
        forall|x: u8|
            final(lengths)@.contains(x) <==> (old(lengths)@.contains(x) || x == value),
{
    let mut place: usize = 0;
    while place < lengths.len() && lengths[place] < value
        invariant
            place <= lengths@.len(),
            lengths@ == old(lengths)@,
            forall|j: int| 0 <= j < place ==> lengths@[j] < value,
        decreases lengths@.len() - place,
    {
        place += 1;
    }
    if place < lengths.len() && lengths[place] == value {
        assert(lengths@.contains(value));
    } else {
        let ghost before = lengths@;
        lengths.insert(place, value);
        proof {
            let after = lengths@;
            before.insert_ensures(place as int, value);
            assert forall|x: u8| after.contains(x) <==> (before.contains(x) || x == value) by {
                if after.contains(x) {
                    let k = choose|k: int| 0 <= k < after.len() && after[k] == x;
                    if k < place {
                        assert(before[k] == x);
                    } else if k > place {
                        assert(before[k - 1] == x);
                    }
                }
                if before.contains(x) {
                    let k = choose|k: int| 0 <= k < before.len() && before[k] == x;
                    if k < place {
                        assert(after[k] == x);
                    } else {
                        assert(after[k + 1] == x);
                    }
                }
                if x == value {
                    assert(after[place as int] == x);
                }
            }
            assert forall|i: int, j: int| 0 <= i < j < after.len() implies after[i] < after[j] by {
                if j < place {
                    assert(after[i] == before[i] && after[j] == before[j]);
                } else if j == place {
                    assert(after[i] == before[i]);
                } else if i < place {
                    assert(after[i] == before[i] && after[j] == before[j - 1]);
                    assert(before[place as int] <= before[j - 1]);
                } else if i == place {
                    assert(after[j] == before[j - 1]);
                    assert(before[place as int] <= before[j - 1]);
                } else {
                    assert(after[i] == before[i - 1] && after[j] == before[j - 1]);
                }
            }
        }
    }
}

/// Lists, in ascending order and each once, the word lengths that occur in
/// the sequences.
pub fn find_valid_word_lengths(length_permuations: &Vec<Vec<u8>>) -> (lengths: Vec<u8>)
    ensures
        strictly_ascending(lengths@),
        lengths@.to_set() == lengths_in(partition_views(length_permuations@)),
{
    let ghost partitions = partition_views(length_permuations@);
    let mut valid_word_lengths: Vec<u8> = Vec::new();
    let mut i: usize = 0;
    while i < length_permuations.len()
        invariant
            i <= length_permuations@.len(),
            partitions == partition_views(length_permuations@),
            strictly_ascending(valid_word_lengths@),
            forall|length: u8|
                valid_word_lengths@.contains(length) <==> mentions_before(
                    partitions,
                    i as int,
                    0,
                    length,
                ),
        decreases length_permuations@.len() - i,
    {
        let permuation = &length_permuations[i];
        let mut j: usize = 0;
        while j < permuation.len()
            invariant
                i < length_permuations@.len(),
                j <= permuation@.len(),
                partitions == partition_views(length_permuations@),
                permuation@ == partitions[i as int],
                strictly_ascending(valid_word_lengths@),
                forall|length: u8|
                    valid_word_lengths@.contains(length) <==> mentions_before(
                        partitions,
                        i as int,
                        j as int,
                        length,
                    ),
            decreases permuation@.len() - j,
        {
            let value = permuation[j];
            let ghost before = valid_word_lengths@;
            insert_length(&mut valid_word_lengths, value);
            proof {
                assert forall|length: u8|
                    valid_word_lengths@.contains(length) <==> mentions_before(
                        partitions,
                        i as int,
                        j + 1,
                        length,
                    ) by {
                    if mentions_before(partitions, i as int, j as int, length) {
                        let (a, b) = choose|a: int, b: int|
                            0 <= a < partitions.len() && 0 <= b < partitions[a].len() && (a < i
                                || (a == i && b < j)) && #[trigger] partitions[a][b] == length;
                        assert(partitions[a][b] == length);
                    }
                    if length == value {
                        assert(partitions[i as int][j as int] == length);
                    }
                    if mentions_before(partitions, i as int, j + 1, length) {
                        let (a, b) = choose|a: int, b: int|
                            0 <= a < partitions.len() && 0 <= b < partitions[a].len() && (a < i
                                || (a == i && b < j + 1)) && #[trigger] partitions[a][b] == length;
                        if a == i && b == j {
                            assert(length == value);
                        } else {
                            assert(partitions[a][b] == length);
                            assert(mentions_before(partitions, i as int, j as int, length));
                        }
                    }
                }
            }
            j += 1;
        }
        proof {
            assert forall|length: u8|
                mentions_before(partitions, i as int, permuation@.len() as int, length)
                    <==> mentions_before(partitions, i + 1, 0, length) by {
                if mentions_before(partitions, i as int, permuation@.len() as int, length) {
                    let (a, b) = choose|a: int, b: int|
                        0 <= a < partitions.len() && 0 <= b < partitions[a].len() && (a < i || (a
                            == i && b < permuation@.len())) && #[trigger] partitions[a][b]
                            == length;
                    assert(partitions[a][b] == length);
                }
                if mentions_before(partitions, i + 1, 0, length) {
                    let (a, b) = choose|a: int, b: int|
                        0 <= a < partitions.len() && 0 <= b < partitions[a].len() && (a < i + 1
                            || (a == i + 1 && b < 0)) && #[trigger] partitions[a][b] == length;
                    assert(partitions[a][b] == length);
                }
            }
        }
        i += 1;
    }
    proof {
        assert forall|length: u8|
            mentions_before(partitions, length_permuations@.len() as int, 0, length) <==> mentions(
                partitions,
                length,
            ) by {
            if mentions_before(partitions, length_permuations@.len() as int, 0, length) {
                let (a, b) = choose|a: int, b: int|
                    0 <= a < partitions.len() && 0 <= b < partitions[a].len() && (a
                        < length_permuations@.len() || (a == length_permuations@.len() && b < 0))
                        && #[trigger] partitions[a][b] == length;
                assert(partitions[a][b] == length);
            }
            if mentions(partitions, length) {
                let (a, b) = choose|a: int, b: int|
                    0 <= a < partitions.len() && 0 <= b < partitions[a].len()
                        && #[trigger] partitions[a][b] == length;
                assert(partitions[a][b] == length);
            }
        }
        assert(valid_word_lengths@.to_set() =~= lengths_in(partitions));
    }
    valid_word_lengths
}

/// Whether `length` is one of the lengths asked for.
pub fn validity_length(valid_word_lengths: &Vec<u8>, length: u8) -> (valid: bool)
    ensures
        valid == valid_word_lengths@.contains(length),
{
    let mut i: usize = 0;
    while i < valid_word_lengths.len()
        invariant
            i <= valid_word_lengths@.len(),
            forall|j: int| 0 <= j < i ==> valid_word_lengths@[j] != length,
        decreases valid_word_lengths@.len() - i,
    {
        if valid_word_lengths[i] == length {
            return true;
        }
        i += 1;
    }
    false
}

} // verus!
