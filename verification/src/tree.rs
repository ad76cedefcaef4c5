//! The tree of word choices: for one sequence of word lengths, every way to
//! fill its slots with candidate words that the letters allow.

use crate::dictionary::{candidates, pool_view, word_views};
use crate::letters::{
    copy_letters, lemma_spend_word_concat, letter_feasible, letters_after, validity_letters,
};
use crate::partition::partition_views;
use crate::settings::{ConfigError, Settings};
use std::collections::HashMap;
use vstd::prelude::*;

verus! {

broadcast use vstd::std_specs::hash::group_hash_axioms;

/// The mathematical value of a node: its word and, for an inner node, the
/// nodes that continue it.
pub struct Tree {
    pub word: Seq<char>,
    pub children: Option<Seq<Tree>>,
}

/// One word chosen for one slot. `value` holds the choices for the slots that
/// follow; it is `None` at the last slot.
#[derive(Debug)]
pub struct AnagramObject {
    pub string: String,
    pub value: Option<Vec<AnagramObject>>,
}

/// The value of a node, by recursion over its children.
pub open spec fn tree_of(node: AnagramObject) -> Tree
    decreases node,
{
    Tree {
        word: node.string@,
        children: match node.value {
            Some(v) => Some(
                Seq::new(
                    v@.len(),
                    |i: int|
                        if 0 <= i < v@.len() {
                            tree_of(v@[i])
                        } else {
                            arbitrary()
                        },
                ),
            ),
            None => None,
        },
    }
}

impl View for AnagramObject {
    type V = Tree;

    open spec fn view(&self) -> Tree {
        tree_of(*self)
    }
}

/// The values of a list of nodes.
pub open spec fn trees_of(nodes: Seq<AnagramObject>) -> Seq<Tree> {
    nodes.map_values(|node: AnagramObject| node@)
}

/// The values of a list of lists of nodes.
pub open spec fn forest_of(groups: Seq<Vec<AnagramObject>>) -> Seq<Seq<Tree>> {
    groups.map_values(|group: Vec<AnagramObject>| trees_of(group@))
}

/// The children of an inner node are the values of the nodes it holds.
pub proof fn lemma_tree_of_inner(node: AnagramObject)
    requires
        node.value is Some,
    ensures
        node@.word == node.string@,
        node@.children == Some(trees_of(node.value->0@)),
{
    let v = node.value->0;
    assert(tree_of(node).children->0 =~= trees_of(v@));
}

/// A node below another is smaller than that one: what recursion over a tree
/// rests on.
pub proof fn lemma_child_is_smaller(node: AnagramObject, i: int)
    requires
        node.value is Some,
        0 <= i < node.value->0@.len(),
    ensures
        decreases_to!(node => node.value->0@[i]),
{
    let below = node.value->0;
    assert(decreases_to!(node => node.value));
    assert(decreases_to!(node.value => below));
    assert(decreases_to!(below => below[i]));
}

impl Clone for AnagramObject {
    /// A copy of the node and of all below it.
    fn clone(&self) -> (copy: Self)
        ensures
            copy@ == self@,
        decreases self,
    {
        let value = match &self.value {
            Some(v) => {
                let mut kids: Vec<AnagramObject> = Vec::new();
                let mut i: usize = 0;
                while i < v.len()
                    invariant
                        i <= v@.len(),
                        self.value == Some(*v),
                        trees_of(kids@) == trees_of(v@).take(i as int),
                    decreases v@.len() - i,
                {
                    proof {
                        lemma_child_is_smaller(*self, i as int);
                    }
                    let ghost before = trees_of(kids@);
                    let kid = v[i].clone();
                    assert(kid@ == v@[i as int]@);
                    kids.push(kid);
                    assert(trees_of(kids@) == before.push(kid@));
                    assert(trees_of(v@).take(i + 1) == trees_of(v@).take(i as int).push(
                        v@[i as int]@,
                    ));
                    i += 1;
                }
                assert(trees_of(v@).take(v@.len() as int) == trees_of(v@));
                Some(kids)
            },
            None => None,
        };
        let copy = AnagramObject { string: self.string.clone(), value };
        proof {
            if self.value is Some {
                lemma_tree_of_inner(*self);
                lemma_tree_of_inner(copy);
            }
        }
        copy
    }
}

/// The text that shows a tree: a leaf is its word and a comma; an inner node
/// is its word, a colon, its children in square brackets, and a comma.
pub open spec fn rendering(tree: Tree) -> Seq<char>
    decreases tree,
{
    match tree.children {
        Some(below) => tree.word + ":["@ + renderings(below) + "],"@,
        None => tree.word + ","@,
    }
}

/// The texts of the trees of a list, one after the other.
pub open spec fn renderings(trees: Seq<Tree>) -> Seq<char>
    decreases trees,
{
    if trees.len() == 0 {
        Seq::empty()
    } else {
        renderings(trees.drop_last()) + rendering(trees.last())
    }
}

impl AnagramObject {
    /// Writes the tree below this node as text.
    pub fn to_string(&self) -> (text: String)
        ensures
            text@ == rendering(self@),
        decreases self,
    {
        let mut s = self.string.clone();
        match &self.value {
            Some(v) => {
                proof {
                    lemma_tree_of_inner(*self);
                }
                let ghost below = trees_of(v@);
                s.append(":[");
                let mut i: usize = 0;
                assert(below.take(0) =~= Seq::<Tree>::empty());
                assert(s@ =~= self.string@ + ":["@ + renderings(below.take(0)));
                while i < v.len()
                    invariant
                        i <= v@.len(),
                        self.value == Some(*v),
                        below == trees_of(v@),
                        s@ == self.string@ + ":["@ + renderings(below.take(i as int)),
                    decreases v@.len() - i,
                {
                    proof {
                        lemma_child_is_smaller(*self, i as int);
                    }
                    let part = v[i].to_string();
                    s.append(part.as_str());
                    proof {
                        assert(below.take(i + 1).drop_last() == below.take(i as int));
                        assert(below.take(i + 1).last() == v@[i as int]@);
                        assert(s@ =~= self.string@ + ":["@ + renderings(below.take(i + 1)));
                    }
                    i += 1;
                }
                assert(below.take(v@.len() as int) == below);
                s.append("],");
            },
            None => {
                s.append(",");
            },
        }
        s
    }
}

/// The nodes for the slots `slots`, given the letters that are left: one for
/// each candidate of the first slot's length that the letters allow and that
/// can be continued through the remaining slots, in the candidates' order.
pub open spec fn branches(
    letters: Seq<char>,
    slots: Seq<u8>,
    pool: Map<u8, Seq<Seq<char>>>,
) -> Seq<Tree>
    decreases slots.len(), 2int, 0int,
{
    if slots.len() == 0 {
        Seq::empty()
    } else {
        branches_among(letters, slots, pool, candidates(pool, slots[0]))
    }
}

/// The nodes that the candidates `words` give for the first slot of `slots`.
pub open spec fn branches_among(
    letters: Seq<char>,
    slots: Seq<u8>,
    pool: Map<u8, Seq<Seq<char>>>,
    words: Seq<Seq<char>>,
) -> Seq<Tree>
    decreases slots.len(), 1int, words.len(),
{
    if slots.len() == 0 || words.len() == 0 {
        Seq::empty()
    } else {
        branches_among(letters, slots, pool, words.drop_last()) + branch(
            letters,
            slots,
            pool,
            words.last(),
        )
    }
}

/// The node that one candidate gives for the first slot of `slots`, as a list
/// of one node, or of none: a word that the letters do not allow gives none,
/// and so does a word after which the remaining slots cannot be filled.
pub open spec fn branch(
    letters: Seq<char>,
    slots: Seq<u8>,
    pool: Map<u8, Seq<Seq<char>>>,
    word: Seq<char>,
) -> Seq<Tree>
    decreases slots.len(), 0int, 0int,
{
    if slots.len() == 0 || !letter_feasible(letters, word) {
        Seq::empty()
    } else if slots.len() == 1 {
        seq![Tree { word, children: None }]
    } else {
        let below = branches(letters_after(letters, word), slots.drop_first(), pool);
        if below.len() == 0 {
            Seq::empty()
        } else {
            seq![Tree { word, children: Some(below) }]
        }
    }
}

/// The groups of nodes that the sequences of word lengths give, one group for
/// each sequence that gives any node, in the sequences' order.
pub open spec fn forest(
    letters: Seq<char>,
    partitions: Seq<Seq<u8>>,
    pool: Map<u8, Seq<Seq<char>>>,
) -> Seq<Seq<Tree>>
    decreases partitions.len(),
{
    if partitions.len() == 0 {
        Seq::empty()
    } else {
        let before = forest(letters, partitions.drop_last(), pool);
        let group = branches(letters, partitions.last(), pool);
        if group.len() == 0 {
            before
        } else {
            before.push(group)
        }
    }
}

/// A copy of a sequence of word lengths.
fn copy_lengths(lengths: &Vec<u8>) -> (copy: Vec<u8>)
    ensures
        copy@ == lengths@,
{
    let copy = lengths.clone();
    assert(copy@ =~= lengths@);
    copy
}

/// Fills the slots of `permuation` from the first on. The first length is
/// taken off `permuation`; each candidate of that length is tested against a
/// copy of `remaining_letters`, and one that the letters allow becomes a node
/// if it fills the last slot or if the slots after it can be filled from what
/// the word leaves. Returns `None` if no candidate becomes a node.
pub fn build_anagram_trees_recursive(
    remaining_letters: Vec<char>,
    permuation: &mut Vec<u8>,
    possible_words: &HashMap<u8, Vec<String>>,
) -> (found: Option<Vec<AnagramObject>>)
    requires
        old(permuation)@.len() > 0,
    ensures
        final(permuation)@ == old(permuation)@.drop_first(),
        match found {
            Some(nodes) => nodes@.len() > 0 && trees_of(nodes@) == branches(
                remaining_letters@,
                old(permuation)@,
                pool_view(possible_words@),
            ),
            None => branches(
                remaining_letters@,
                old(permuation)@,
                pool_view(possible_words@),
            ).len() == 0,
        },
    decreases old(permuation)@.len(),
{
    let ghost slots = permuation@;
    let ghost pool = pool_view(possible_words@);
    let mut results: Vec<AnagramObject> = Vec::new();
    let length = permuation.remove(0);
    assert(permuation@ == slots.drop_first());
    match possible_words.get(&length) {
        Some(s) => {
            assert(candidates(pool, length) == word_views(s@));
            let mut i: usize = 0;
            assert(word_views(s@).take(0) =~= Seq::<Seq<char>>::empty());
            while i < s.len()
                invariant
                    i <= s@.len(),
                    slots == old(permuation)@,
                    slots.len() > 0,
                    permuation@ == slots.drop_first(),
                    pool == pool_view(possible_words@),
                    trees_of(results@) == branches_among(
                        remaining_letters@,
                        slots,
                        pool,
                        word_views(s@).take(i as int),
                    ),
                decreases s@.len() - i,
            {
                let word = &s[i];
                let ghost before = results@;
                let ghost step = branch(remaining_letters@, slots, pool, word@);
                let mut remaining_letters_clone = copy_letters(&remaining_letters);
                proof {
                    let words = word_views(s@);
                    assert(words.take(i + 1).drop_last() == words.take(i as int));
                    assert(words.take(i + 1).last() == word@);
                }
                if validity_letters(&mut remaining_letters_clone, word) {
                    if permuation.len() != 0 {
                        let mut rest = copy_lengths(permuation);
                        match build_anagram_trees_recursive(
                            remaining_letters_clone,
                            &mut rest,
                            possible_words,
                        ) {
                            Some(below) => {
                                let node = AnagramObject { string: word.clone(), value: Some(below) };
                                proof {
                                    lemma_tree_of_inner(node);
                                    assert(step == seq![node@]);
                                }
                                results.push(node);
                            },
                            None => {
                                assert(step == Seq::<Tree>::empty());
                            },
                        }
                    } else {
                        let node = AnagramObject { string: word.clone(), value: None };
                        assert(step == seq![node@]);
                        results.push(node);
                    }
                } else {
                    assert(step == Seq::<Tree>::empty());
                }
                assert(trees_of(results@) == trees_of(before) + step);
                i += 1;
            }
            assert(word_views(s@).take(s@.len() as int) == word_views(s@));
        },
        None => {},
    }
    if !results.is_empty() {
        Some(results)
    } else {
        assert(trees_of(results@) =~= Seq::<Tree>::empty());
        None
    }
}

/// Builds the trees of every sequence of word lengths, each from all the
/// letters, and keeps the groups that hold a node. Without any group there is
/// no anagram, and the run has failed.
pub fn build_anagram_trees(
    settings: &Settings,
    possible_words: &HashMap<u8, Vec<String>>,
    valid_length_permutations: &Vec<Vec<u8>>,
) -> (built: Result<Vec<Vec<AnagramObject>>, ConfigError>)
    requires
        forall|i: int|
            0 <= i < valid_length_permutations@.len() ==> (
            #[trigger] valid_length_permutations@[i])@.len() > 0,
    ensures
        match built {
            Ok(groups) => groups@.len() > 0 && forest_of(groups@) == forest(
                settings.letters@,
                partition_views(valid_length_permutations@),
                pool_view(possible_words@),
            ),
            Err(e) => e == ConfigError::NoAnagram && forest(
                settings.letters@,
                partition_views(valid_length_permutations@),
                pool_view(possible_words@),
            ).len() == 0,
        },
{
    let ghost partitions = partition_views(valid_length_permutations@);
    let ghost pool = pool_view(possible_words@);
    let mut result: Vec<Vec<AnagramObject>> = Vec::new();
    let mut i: usize = 0;
    assert(partitions.take(0) =~= Seq::<Seq<u8>>::empty());
    while i < valid_length_permutations.len()
        invariant
            i <= valid_length_permutations@.len(),
            partitions == partition_views(valid_length_permutations@),
            pool == pool_view(possible_words@),
            forall|i: int|
                0 <= i < valid_length_permutations@.len() ==> (
                #[trigger] valid_length_permutations@[i])@.len() > 0,
            forest_of(result@) == forest(settings.letters@, partitions.take(i as int), pool),
        decreases valid_length_permutations@.len() - i,
    {
        let ghost before = result@;
        let mut slots = copy_lengths(&valid_length_permutations[i]);
        proof {
            assert(partitions.take(i + 1).drop_last() == partitions.take(i as int));
            assert(partitions.take(i + 1).last() == slots@);
        }
        let letters = copy_letters(&settings.letters);
        match build_anagram_trees_recursive(letters, &mut slots, possible_words) {
            Some(group) => {
                result.push(group);
                assert(forest_of(result@) == forest_of(before).push(trees_of(group@)));
            },
            None => {},
        }
        i += 1;
    }
    assert(partitions.take(valid_length_permutations@.len() as int) == partitions);
    if result.is_empty() {
        assert(forest_of(result@) =~= Seq::<Seq<Tree>>::empty());
        Err(ConfigError::NoAnagram)
    } else {
        Ok(result)
    }
}

/// Whether `words` are the words on a way from `tree` down to a leaf.
pub open spec fn is_path(tree: Tree, words: Seq<Seq<char>>) -> bool
    decreases words.len(), 0int,
{
    if words.len() == 0 || words[0] != tree.word {
        false
    } else {
        match tree.children {
            None => words.len() == 1,
            Some(below) => is_path_among(below, words.drop_first()),
        }
    }
}

/// Whether `words` are the words on a way from one of the trees down to a
/// leaf.
pub open spec fn is_path_among(trees: Seq<Tree>, words: Seq<Seq<char>>) -> bool
    decreases words.len(), 1int,
{
    exists|j: int| 0 <= j < trees.len() && is_path(#[trigger] trees[j], words)
}

/// Each node that a list of candidates gives is the node of one of them.
pub proof fn lemma_branches_among_index(
    letters: Seq<char>,
    slots: Seq<u8>,
    pool: Map<u8, Seq<Seq<char>>>,
    words: Seq<Seq<char>>,
    k: int,
) -> (j: int)
    requires
        0 <= k < branches_among(letters, slots, pool, words).len(),
    ensures
        0 <= j < words.len(),
        branch(letters, slots, pool, words[j]) == seq![
            branches_among(letters, slots, pool, words)[k],
        ],
    decreases words.len(),
{
    let earlier = branches_among(letters, slots, pool, words.drop_last());
    let last = branch(letters, slots, pool, words.last());
    if k < earlier.len() {
        let j = lemma_branches_among_index(letters, slots, pool, words.drop_last(), k);
        assert(words.drop_last()[j] == words[j]);
        j
    } else {
        assert(last.len() == 1);
        assert(last =~= seq![last[0]]);
        words.len() - 1
    }
}

/// The words on a way down a tree built for `slots` fill the slots: there is
/// one word for each slot, a candidate of the slot's length, and the words can
/// be written one after the other with the letters.
pub proof fn lemma_path_fills_slots(
    letters: Seq<char>,
    slots: Seq<u8>,
    pool: Map<u8, Seq<Seq<char>>>,
    k: int,
    words: Seq<Seq<char>>,
)
    requires
        0 <= k < branches(letters, slots, pool).len(),
        is_path(branches(letters, slots, pool)[k], words),
    ensures
        words.len() == slots.len(),
        forall|i: int|
            0 <= i < words.len() ==> candidates(pool, slots[i]).contains(#[trigger] words[i]),
        letter_feasible(letters, words.flatten()),
    decreases slots.len(),
{
    let tree = branches(letters, slots, pool)[k];
    let offered = candidates(pool, slots[0]);
    let j = lemma_branches_among_index(letters, slots, pool, offered, k);
    let word = offered[j];
    assert(branch(letters, slots, pool, word)[0] == tree);
    assert(words[0] == word);
    let rest = words.drop_first();
    assert(words.flatten() == word + rest.flatten());
    if slots.len() == 1 {
        assert(rest =~= Seq::<Seq<char>>::empty());
        assert(word + rest.flatten() =~= word);
    } else {
        let left = letters_after(letters, word);
        let below = branches(left, slots.drop_first(), pool);
        assert(tree.children == Some(below));
        let t = choose|t: int| 0 <= t < below.len() && is_path(#[trigger] below[t], rest);
        lemma_path_fills_slots(left, slots.drop_first(), pool, t, rest);
        lemma_spend_word_concat(letters, word, rest.flatten());
        assert forall|i: int| 0 <= i < words.len() implies candidates(pool, slots[i]).contains(
            #[trigger] words[i],
        ) by {
            if i > 0 {
                assert(words[i] == rest[i - 1]);
                assert(slots[i] == slots.drop_first()[i - 1]);
            }
        }
    }
}

/// Each group of a forest holds the trees of one of the sequences of word
/// lengths.
pub proof fn lemma_forest_group(
    letters: Seq<char>,
    partitions: Seq<Seq<u8>>,
    pool: Map<u8, Seq<Seq<char>>>,
    g: int,
) -> (i: int)
    requires
        0 <= g < forest(letters, partitions, pool).len(),
    ensures
        0 <= i < partitions.len(),
        forest(letters, partitions, pool)[g] == branches(letters, partitions[i], pool),
    decreases partitions.len(),
{
    let before = forest(letters, partitions.drop_last(), pool);
    if g < before.len() {
        let i = lemma_forest_group(letters, partitions.drop_last(), pool, g);
        assert(partitions.drop_last()[i] == partitions[i]);
        i
    } else {
        partitions.len() - 1
    }
}

/// The node of a candidate is among the nodes that a list with that
/// candidate gives.
pub proof fn lemma_branches_among_holds(
    letters: Seq<char>,
    slots: Seq<u8>,
    pool: Map<u8, Seq<Seq<char>>>,
    words: Seq<Seq<char>>,
    j: int,
) -> (k: int)
    requires
        0 <= j < words.len(),
        branch(letters, slots, pool, words[j]).len() == 1,
    ensures
        0 <= k < branches_among(letters, slots, pool, words).len(),
        branches_among(letters, slots, pool, words)[k] == branch(
            letters,
            slots,
            pool,
            words[j],
        )[0],
    decreases words.len(),
{
    let earlier = branches_among(letters, slots, pool, words.drop_last());
    if j == words.len() - 1 {
        earlier.len() as int
    } else {
        assert(words.drop_last()[j] == words[j]);
        lemma_branches_among_holds(letters, slots, pool, words.drop_last(), j)
    }
}

/// Words that fill the slots are found: where there is one word for each
/// slot, a candidate of the slot's length, and the words can be written one
/// after the other with the letters, they are the words on a way down one of
/// the trees built for the slots.
pub proof fn lemma_filled_slots_are_a_path(
    letters: Seq<char>,
    slots: Seq<u8>,
    pool: Map<u8, Seq<Seq<char>>>,
    words: Seq<Seq<char>>,
) -> (k: int)
    requires
        slots.len() >= 1,
        words.len() == slots.len(),
        forall|i: int|
            0 <= i < words.len() ==> candidates(pool, slots[i]).contains(#[trigger] words[i]),
        letter_feasible(letters, words.flatten()),
    ensures
        0 <= k < branches(letters, slots, pool).len(),
        is_path(branches(letters, slots, pool)[k], words),
    decreases slots.len(),
{
    let word = words[0];
    let rest = words.drop_first();
    assert(words.flatten() == word + rest.flatten());
    lemma_spend_word_concat(letters, word, rest.flatten());
    let offered = candidates(pool, slots[0]);
    assert(offered.contains(words[0]));
    let j = choose|j: int| 0 <= j < offered.len() && offered[j] == word;
    if slots.len() == 1 {
        assert(is_path(Tree { word, children: None }, words));
    } else {
        let left = letters_after(letters, word);
        assert forall|i: int| 0 <= i < rest.len() implies candidates(
            pool,
            slots.drop_first()[i],
        ).contains(#[trigger] rest[i]) by {
            assert(rest[i] == words[i + 1]);
            assert(slots.drop_first()[i] == slots[i + 1]);
        }
        let t = lemma_filled_slots_are_a_path(left, slots.drop_first(), pool, rest);
        let below = branches(left, slots.drop_first(), pool);
        let tree = Tree { word, children: Some(below) };
        assert(words.drop_first() == rest);
        assert(is_path(below[t], words.drop_first()));
        assert(is_path_among(below, words.drop_first()));
        assert(is_path(tree, words));
    }
    lemma_branches_among_holds(letters, slots, pool, offered, j)
}

/// The trees of a sequence of word lengths that gives any are a group of
/// the forest.
pub proof fn lemma_forest_holds(
    letters: Seq<char>,
    partitions: Seq<Seq<u8>>,
    pool: Map<u8, Seq<Seq<char>>>,
    i: int,
) -> (g: int)
    requires
        0 <= i < partitions.len(),
        branches(letters, partitions[i], pool).len() > 0,
    ensures
        0 <= g < forest(letters, partitions, pool).len(),
        forest(letters, partitions, pool)[g] == branches(letters, partitions[i], pool),
    decreases partitions.len(),
{
    let before = forest(letters, partitions.drop_last(), pool);
    if i == partitions.len() - 1 {
        before.len() as int
    } else {
        assert(partitions.drop_last()[i] == partitions[i]);
        lemma_forest_holds(letters, partitions.drop_last(), pool, i)
    }
}

} // verus!
