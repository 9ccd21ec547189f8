//! Forests: the sorted lists of trees that the tree builder works on, and what
//! a merge of the two lightest trees does to them.

use crate::laws::{lemma_cost_one_deeper, lemma_weight_is_total};
use crate::optimal::{is_least, lemma_least, merge_cost, merged};
use crate::types::HuffmanTree;
use vstd::multiset::Multiset;
use vstd::prelude::*;

verus! {

/// The root weights of a forest do not increase from front to back.
pub open spec fn sorted_descending<T>(forest: Seq<HuffmanTree<T>>) -> bool {
    forall|i: int, j: int|
        0 <= i <= j < forest.len() ==> forest[i].weight() >= forest[j].weight()
}

/// Every tree of the forest is well formed and has the lighter child on the
/// left in every node.
pub open spec fn forest_well_formed<T>(forest: Seq<HuffmanTree<T>>) -> bool {
    forall|i: int|
        0 <= i < forest.len() ==> (#[trigger] forest[i]).well_formed() && forest[i].lighter_left()
}

/// All leaves of all trees of a forest.
pub open spec fn forest_bag<T>(forest: Seq<HuffmanTree<T>>) -> Multiset<(T, u64)>
    decreases forest.len(),
{
    if forest.len() == 0 {
        Multiset::empty()
    } else {
        forest_bag(forest.drop_last()).add(forest.last().leaf_bag())
    }
}

/// The sum of the root weights of a forest.
pub open spec fn forest_total<T>(forest: Seq<HuffmanTree<T>>) -> nat
    decreases forest.len(),
{
    if forest.len() == 0 {
        0
    } else {
        forest_total(forest.drop_last()) + forest.last().weight()
    }
}

/// The sum of the weighted path lengths of the trees of a forest.
pub open spec fn forest_cost<T>(forest: Seq<HuffmanTree<T>>) -> nat
    decreases forest.len(),
{
    if forest.len() == 0 {
        0
    } else {
        forest_cost(forest.drop_last()) + forest.last().cost()
    }
}

/// The weights of all leaves of all trees of a forest.
pub open spec fn forest_leaf_weights<T>(forest: Seq<HuffmanTree<T>>) -> Multiset<nat>
    decreases forest.len(),
{
    if forest.len() == 0 {
        Multiset::empty()
    } else {
        forest_leaf_weights(forest.drop_last()).add(forest.last().leaf_weights())
    }
}

/// The root weights of the trees of a forest.
pub open spec fn forest_roots<T>(forest: Seq<HuffmanTree<T>>) -> Multiset<nat>
    decreases forest.len(),
{
    if forest.len() == 0 {
        Multiset::empty()
    } else {
        forest_roots(forest.drop_last()).insert(forest.last().weight())
    }
}

/// What a forest holds when a tree is put into it, at any place.
pub proof fn lemma_forest_insert<T>(forest: Seq<HuffmanTree<T>>, i: int, tree: HuffmanTree<T>)
    requires
        0 <= i <= forest.len(),
    ensures
        forest_bag(forest.insert(i, tree)) == forest_bag(forest).add(tree.leaf_bag()),
        forest_total(forest.insert(i, tree)) == forest_total(forest) + tree.weight(),
        forest_cost(forest.insert(i, tree)) == forest_cost(forest) + tree.cost(),
        forest_leaf_weights(forest.insert(i, tree)) == forest_leaf_weights(forest).add(
            tree.leaf_weights(),
        ),
        forest_roots(forest.insert(i, tree)) == forest_roots(forest).insert(tree.weight()),
    decreases forest.len() - i,
{
    let grown = forest.insert(i, tree);
    if i == forest.len() {
        assert(grown.drop_last() == forest);
    } else {
        assert(grown.drop_last() == forest.drop_last().insert(i, tree));
        lemma_forest_insert(forest.drop_last(), i, tree);
    }
}

/// The root weights of a forest are those of its trees, one for each.
pub proof fn lemma_forest_roots<T>(forest: Seq<HuffmanTree<T>>)
    ensures
        forest_roots(forest).len() == forest.len(),
        forall|x: nat|
            forest_roots(forest).contains(x) ==> exists|i: int|
                0 <= i < forest.len() && (#[trigger] forest[i]).weight() == x,
    decreases forest.len(),
{
    if forest.len() > 0 {
        let shorter = forest.drop_last();
        lemma_forest_roots(shorter);
        assert forall|x: nat| forest_roots(forest).contains(x) implies exists|i: int|
            0 <= i < forest.len() && (#[trigger] forest[i]).weight() == x by {
            if x == forest.last().weight() {
                assert(forest[forest.len() - 1].weight() == x);
            } else {
                assert(forest_roots(shorter).contains(x));
                let i = choose|i: int|
                    0 <= i < shorter.len() && (#[trigger] shorter[i]).weight() == x;
                assert(forest[i] == shorter[i]);
            }
        }
    }
}

/// In a sorted forest, the last tree has the least root weight.
pub proof fn lemma_last_is_least<T>(forest: Seq<HuffmanTree<T>>)
    requires
        sorted_descending(forest),
        forest.len() > 0,
    ensures
        is_least(forest_roots(forest), forest.last().weight()),
        forest_roots(forest).remove(forest.last().weight()) == forest_roots(forest.drop_last()),
{
    lemma_forest_roots(forest);
}

/// What the merge of the two lightest trees of a sorted forest does: the
/// costs of the trees grow by the two root weights, which is what merging the
/// two least root weights costs.
pub proof fn lemma_forest_merge<T>(forest: Seq<HuffmanTree<T>>, node: HuffmanTree<T>, i: int)
    requires
        sorted_descending(forest),
        forest_well_formed(forest),
        forest.len() >= 2,
        node.well_formed(),
        node matches HuffmanTree::Node { left, right, .. } && *left == forest.last() && *right
            == forest[forest.len() - 2],
        0 <= i <= forest.len() - 2,
    ensures
        ({
            let grown = forest.take(forest.len() - 2).insert(i, node);
            &&& forest_cost(grown) + merge_cost(forest_roots(grown)) == forest_cost(forest)
                + merge_cost(forest_roots(forest))
            &&& forest_leaf_weights(grown) == forest_leaf_weights(forest)
        }),
{
    let first = forest.last();
    let second = forest[forest.len() - 2];
    let shorter = forest.drop_last();
    let rest = forest.take(forest.len() - 2);
    assert(shorter.drop_last() == rest);
    lemma_forest_insert(rest, i, node);
    lemma_last_is_least(forest);
    lemma_last_is_least(shorter);
    lemma_forest_roots(forest);
    let roots = forest_roots(forest);
    lemma_least(roots);
    lemma_least(roots.remove(first.weight()));
    lemma_weight_is_total(first);
    lemma_weight_is_total(second);
    lemma_cost_one_deeper(first, 0);
    lemma_cost_one_deeper(second, 0);
    assert(forest_cost(shorter) == forest_cost(rest) + second.cost());
    assert(forest_leaf_weights(shorter) == forest_leaf_weights(rest).add(second.leaf_weights()));
}

} // verus!
