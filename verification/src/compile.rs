//! Flattening the trees into solution strings.

use crate::dictionary::word_views;
use crate::tree::{
    forest_of, is_path, is_path_among, lemma_child_is_smaller, lemma_tree_of_inner, trees_of,
    AnagramObject, Tree,
};
use vstd::prelude::*;

verus! {

/// The text written so far with one more word: the word alone after an empty
/// text, else the text, the separator and the word.
pub open spec fn extend_text(prefix: Seq<char>, separator: Seq<char>, word: Seq<char>) -> Seq<
    char,
> {
    if prefix.len() == 0 {
        word
    } else {
        prefix + separator + word
    }
}

/// The solutions below one node, given the text of the words above it: one
/// for each path from the node to a leaf, from the leftmost leaf to the
/// rightmost.
pub open spec fn solutions(tree: Tree, prefix: Seq<char>, separator: Seq<char>) -> Seq<Seq<char>>
    decreases tree,
{
    let text = extend_text(prefix, separator, tree.word);
    match tree.children {
        None => seq![text],
        Some(below) => solutions_among(below, text, separator),
    }
}

/// The solutions below each node of a list in turn.
pub open spec fn solutions_among(trees: Seq<Tree>, prefix: Seq<char>, separator: Seq<char>) -> Seq<
    Seq<char>,
>
    decreases trees,
{
    if trees.len() == 0 {
        Seq::empty()
    } else {
        solutions_among(trees.drop_last(), prefix, separator) + solutions(
            trees.last(),
            prefix,
            separator,
        )
    }
}

/// The solutions of a whole forest: those of each group in turn, each
/// starting from an empty text.
pub open spec fn all_solutions(groups: Seq<Seq<Tree>>, separator: Seq<char>) -> Seq<Seq<char>>
    decreases groups.len(),
{
    if groups.len() == 0 {
        Seq::empty()
    } else {
        all_solutions(groups.drop_last(), separator) + solutions_among(
            groups.last(),
            Seq::empty(),
            separator,
        )
    }
}

/// The text of an optional string; none is the empty text.
pub open spec fn text_of(root: Option<String>) -> Seq<char> {
    match root {
        Some(s) => s@,
        None => Seq::empty(),
    }
}

/// Lists the solutions below the node `ao`, where `root` holds the words
/// above it: the node's word is added to that text, after the separator
/// unless the text is empty; at a leaf this is the one solution, else the
/// solutions are those below the children, in their order.
pub fn compile_anagram_solutions_recursive(
    root: Option<String>,
    ao: &AnagramObject,
    sepetator: &String,
) -> (found: Vec<String>)
    ensures
        word_views(found@) == solutions(ao@, text_of(root), sepetator@),
    decreases ao,
{
    let ghost prefix = text_of(root);
    let rt: String = match root {
        Some(s) => {
            if s.as_str().is_empty() {
                ao.string.clone()
            } else {
                let mut text = s;
                text.append(sepetator.as_str());
                text.append(ao.string.as_str());
                text
            }
        },
        None => ao.string.clone(),
    };
    assert(rt@ == extend_text(prefix, sepetator@, ao@.word));
    match &ao.value {
        Some(v) => {
            proof {
                lemma_tree_of_inner(*ao);
            }
            let ghost below = trees_of(v@);
            let mut results: Vec<String> = Vec::new();
            let mut i: usize = 0;
            assert(below.take(0) =~= Seq::<Tree>::empty());
            assert(word_views(results@) =~= Seq::<Seq<char>>::empty());
            while i < v.len()
                invariant
                    i <= v@.len(),
                    ao.value == Some(*v),
                    below == trees_of(v@),
                    word_views(results@) == solutions_among(
                        below.take(i as int),
                        rt@,
                        sepetator@,
                    ),
                decreases v@.len() - i,
            {
                let ghost before = word_views(results@);
                proof {
                    lemma_child_is_smaller(*ao, i as int);
                }
                let mut sub = compile_anagram_solutions_recursive(
                    Some(rt.clone()),
                    &v[i],
                    sepetator,
                );
                let ghost added = word_views(sub@);
                results.append(&mut sub);
                proof {
                    assert(below.take(i + 1).drop_last() == below.take(i as int));
                    assert(below.take(i + 1).last() == v@[i as int]@);
                    assert(word_views(results@) == before + added);
                }
                i += 1;
            }
            assert(below.take(v@.len() as int) == below);
            results
        },
        None => {
            let mut results: Vec<String> = Vec::new();
            results.push(rt);
            assert(word_views(results@) == seq![rt@]);
            results
        },
    }
}

/// Lists the solutions of the whole forest, group by group and tree by tree,
/// each as its words joined by the separator.
pub fn compile_anagram_solutions(anagram_trees: Vec<Vec<AnagramObject>>, sepetator: &String) -> (found:
    Vec<String>)
    ensures
        word_views(found@) == all_solutions(forest_of(anagram_trees@), sepetator@),
{
    let ghost groups = forest_of(anagram_trees@);
    let mut results: Vec<String> = Vec::new();
    let mut g: usize = 0;
    assert(groups.take(0) =~= Seq::<Seq<Tree>>::empty());
    assert(word_views(results@) =~= Seq::<Seq<char>>::empty());
    while g < anagram_trees.len()
        invariant
            g <= anagram_trees@.len(),
            groups == forest_of(anagram_trees@),
            word_views(results@) == all_solutions(groups.take(g as int), sepetator@),
        decreases anagram_trees@.len() - g,
    {
        let shape_group = &anagram_trees[g];
        let ghost before = word_views(results@);
        let ghost trees = trees_of(shape_group@);
        let mut i: usize = 0;
        assert(trees.take(0) =~= Seq::<Tree>::empty());
        while i < shape_group.len()
            invariant
                i <= shape_group@.len(),
                trees == trees_of(shape_group@),
                word_views(results@) == before + solutions_among(
                    trees.take(i as int),
                    Seq::empty(),
                    sepetator@,
                ),
            decreases shape_group@.len() - i,
        {
            let ghost sofar = word_views(results@);
            let mut sub = compile_anagram_solutions_recursive(None, &shape_group[i], sepetator);
            let ghost added = word_views(sub@);
            results.append(&mut sub);
            proof {
                assert(trees.take(i + 1).drop_last() == trees.take(i as int));
                assert(trees.take(i + 1).last() == shape_group@[i as int]@);
                assert(word_views(results@) == sofar + added);
            }
            i += 1;
        }
        proof {
            assert(trees.take(shape_group@.len() as int) == trees);
            assert(groups.take(g + 1).drop_last() == groups.take(g as int));
            assert(groups.take(g + 1).last() == trees);
        }
        g += 1;
    }
    assert(groups.take(anagram_trees@.len() as int) == groups);
    results
}

/// The text `prefix` with the words added one by one: see [`extend_text`].
pub open spec fn join_onto(prefix: Seq<char>, words: Seq<Seq<char>>, separator: Seq<char>) -> Seq<
    char,
>
    decreases words.len(),
{
    if words.len() == 0 {
        prefix
    } else {
        join_onto(extend_text(prefix, separator, words[0]), words.drop_first(), separator)
    }
}

/// The words joined by the separator.
pub open spec fn join(words: Seq<Seq<char>>, separator: Seq<char>) -> Seq<char> {
    join_onto(Seq::empty(), words, separator)
}

/// Each solution below a list of nodes is a solution below one of them.
pub proof fn lemma_solution_among(
    trees: Seq<Tree>,
    prefix: Seq<char>,
    separator: Seq<char>,
    k: int,
) -> (at: (int, int))
    requires
        0 <= k < solutions_among(trees, prefix, separator).len(),
    ensures
        0 <= at.0 < trees.len(),
        0 <= at.1 < solutions(trees[at.0], prefix, separator).len(),
        solutions_among(trees, prefix, separator)[k] == solutions(
            trees[at.0],
            prefix,
            separator,
        )[at.1],
    decreases trees.len(),
{
    let earlier = solutions_among(trees.drop_last(), prefix, separator);
    if k < earlier.len() {
        let at = lemma_solution_among(trees.drop_last(), prefix, separator, k);
        assert(trees.drop_last()[at.0] == trees[at.0]);
        at
    } else {
        (trees.len() - 1, k - earlier.len())
    }
}

/// Each solution below a node is the text of the words on a way from the
/// node down to a leaf, added to the text of the words above the node.
pub proof fn lemma_solution_is_path(
    tree: Tree,
    prefix: Seq<char>,
    separator: Seq<char>,
    k: int,
) -> (words: Seq<Seq<char>>)
    requires
        0 <= k < solutions(tree, prefix, separator).len(),
    ensures
        is_path(tree, words),
        solutions(tree, prefix, separator)[k] == join_onto(prefix, words, separator),
    decreases tree,
{
    let text = extend_text(prefix, separator, tree.word);
    match tree.children {
        None => {
            let words = seq![tree.word];
            assert(words.drop_first() =~= Seq::<Seq<char>>::empty());
            assert(join_onto(prefix, words, separator) == text) by {
                reveal_with_fuel(join_onto, 2);
            }
            words
        },
        Some(below) => {
            let at = lemma_solution_among(below, text, separator, k);
            let rest = lemma_solution_is_path(below[at.0], text, separator, at.1);
            let words = seq![tree.word] + rest;
            assert(words.drop_first() =~= rest);
            assert(is_path(below[at.0], words.drop_first()));
            assert(is_path_among(below, words.drop_first()));
            words
        },
    }
}

/// Each solution of a forest is a solution of one of its groups.
pub proof fn lemma_all_solutions_index(groups: Seq<Seq<Tree>>, separator: Seq<char>, k: int) -> (at:
    (int, int))
    requires
        0 <= k < all_solutions(groups, separator).len(),
    ensures
        0 <= at.0 < groups.len(),
        0 <= at.1 < solutions_among(groups[at.0], Seq::empty(), separator).len(),
        all_solutions(groups, separator)[k] == solutions_among(
            groups[at.0],
            Seq::empty(),
            separator,
        )[at.1],
    decreases groups.len(),
{
    let earlier = all_solutions(groups.drop_last(), separator);
    if k < earlier.len() {
        let at = lemma_all_solutions_index(groups.drop_last(), separator, k);
        assert(groups.drop_last()[at.0] == groups[at.0]);
        at
    } else {
        (groups.len() - 1, k - earlier.len())
    }
}

/// A solution below one node of a list is a solution below the list.
pub proof fn lemma_solution_among_holds(
    trees: Seq<Tree>,
    prefix: Seq<char>,
    separator: Seq<char>,
    t: int,
    below: int,
) -> (k: int)
    requires
        0 <= t < trees.len(),
        0 <= below < solutions(trees[t], prefix, separator).len(),
    ensures
        0 <= k < solutions_among(trees, prefix, separator).len(),
        solutions_among(trees, prefix, separator)[k] == solutions(
            trees[t],
            prefix,
            separator,
        )[below],
    decreases trees.len(),
{
    let earlier = solutions_among(trees.drop_last(), prefix, separator);
    if t == trees.len() - 1 {
        earlier.len() + below
    } else {
        assert(trees.drop_last()[t] == trees[t]);
        lemma_solution_among_holds(trees.drop_last(), prefix, separator, t, below)
    }
}

/// The words on a way from a node down to a leaf are a solution below the
/// node: their text, added to the text of the words above the node.
pub proof fn lemma_path_is_solution(
    tree: Tree,
    prefix: Seq<char>,
    separator: Seq<char>,
    words: Seq<Seq<char>>,
) -> (k: int)
    requires
        is_path(tree, words),
    ensures
        0 <= k < solutions(tree, prefix, separator).len(),
        solutions(tree, prefix, separator)[k] == join_onto(prefix, words, separator),
    decreases words.len(),
{
    let text = extend_text(prefix, separator, tree.word);
    match tree.children {
        None => {
            assert(words.drop_first() =~= Seq::<Seq<char>>::empty());
            assert(join_onto(prefix, words, separator) == text) by {
                reveal_with_fuel(join_onto, 2);
            }
            0
        },
        Some(below) => {
            let j = choose|j: int|
                0 <= j < below.len() && is_path(#[trigger] below[j], words.drop_first());
            let inner = lemma_path_is_solution(below[j], text, separator, words.drop_first());
            lemma_solution_among_holds(below, text, separator, j, inner)
        },
    }
}

/// A solution of a group of a forest is a solution of the forest.
pub proof fn lemma_all_solutions_holds(
    groups: Seq<Seq<Tree>>,
    separator: Seq<char>,
    g: int,
    below: int,
) -> (k: int)
    requires
        0 <= g < groups.len(),
        0 <= below < solutions_among(groups[g], Seq::empty(), separator).len(),
    ensures
        0 <= k < all_solutions(groups, separator).len(),
        all_solutions(groups, separator)[k] == solutions_among(
            groups[g],
            Seq::empty(),
            separator,
        )[below],
    decreases groups.len(),
{
    let earlier = all_solutions(groups.drop_last(), separator);
    if g == groups.len() - 1 {
        earlier.len() + below
    } else {
        assert(groups.drop_last()[g] == groups[g]);
        lemma_all_solutions_holds(groups.drop_last(), separator, g, below)
    }
}

} // verus!
