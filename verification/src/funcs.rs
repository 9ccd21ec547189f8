//! Building the tree from a distribution, and the code table from the tree.

use crate::forest::{
    forest_bag, forest_cost, forest_leaf_weights, forest_roots, forest_total, forest_well_formed,
    lemma_forest_insert, lemma_forest_merge, lemma_forest_roots, sorted_descending,
};
use crate::laws::lemma_weight_is_total;
use crate::optimal::{lemma_greedy_is_optimal, merge_cost};
use crate::symbols::{distribution_entries, from_symbol_iter, total_weight};
use crate::types::{Bit, HuffmanCode, HuffmanError, HuffmanTable, HuffmanTree};
use std::collections::HashMap;
use std::hash::Hash;
use vstd::multiset::Multiset;
use vstd::std_specs::hash::obeys_key_model;
use vstd::prelude::*;

verus! {

/// Whether `dist` is the distribution of `symbols`: each symbol that occurs
/// in `symbols` once, with the number of its occurrences.
pub open spec fn is_distribution_of<T>(dist: Seq<(T, u64)>, symbols: Seq<T>) -> bool {
    &&& forall|i: int, j: int|
        0 <= i < j < dist.len() ==> (#[trigger] dist[i]).0 != (#[trigger] dist[j]).0
    &&& forall|i: int|
        0 <= i < dist.len() ==> symbols.contains((#[trigger] dist[i]).0) && dist[i].1
            == symbols.to_multiset().count(dist[i].0)
    &&& forall|s: T| #[trigger]
        symbols.contains(s) ==> exists|i: int| 0 <= i < dist.len() && (#[trigger] dist[i]).0 == s
}

/// Counts how often each symbol occurs in `symbols`, and lists the symbols
/// with their counts, in no particular order. The probability of a symbol is
/// its count divided by the number of symbols.
pub fn symbol_probabilities<T>(symbols: &[T]) -> (result: Result<Vec<(T, u64)>, HuffmanError<T>>)
    where T: Eq + Copy + Hash
    requires
        obeys_key_model::<T>(),
    ensures
        match result {
            Ok(dist) => {
                &&& symbols.len() > 0
                &&& is_distribution_of(dist@, symbols@)
                &&& total_weight(dist@) == symbols.len()
            },
            Err(e) => symbols.len() == 0 && e == HuffmanError::<T>::EmptyInput,
        },
{
    match from_symbol_iter(symbols) {
        Ok(occurrences) => {
            let symbol_distr = distribution_entries(&occurrences);
            assert(is_distribution_of(symbol_distr@, symbols@)) by {
                assert forall|s: T| #[trigger] symbols@.contains(s) implies exists|i: int|
                    0 <= i < symbol_distr.len() && (#[trigger] symbol_distr[i]).0 == s by {
                    assert(occurrences@.contains_key(s));
                }
            }
            Ok(symbol_distr)
        },
        Err(_) => Err(HuffmanError::EmptyInput),
    }
}

/// The first index of a sorted forest at which the root weight is at most
/// `weight`: a tree of that weight inserted there keeps the forest sorted and
/// stands before all trees of equal weight.
fn insert_position<T>(forest: &Vec<HuffmanTree<T>>, weight: u64) -> (index: usize)
    requires
        sorted_descending(forest@),
    ensures
        index <= forest.len(),
        forall|i: int| 0 <= i < index ==> forest[i].weight() > weight,
        forall|i: int| index <= i < forest.len() ==> forest[i].weight() <= weight,
{
    let mut lo: usize = 0;
    let mut hi: usize = forest.len();
    while lo < hi
        invariant
            lo <= hi <= forest.len(),
            sorted_descending(forest@),
            forall|i: int| 0 <= i < lo ==> forest[i].weight() > weight,
            forall|i: int| hi <= i < forest.len() ==> forest[i].weight() <= weight,
        decreases hi - lo,
    {
        let mid: usize = lo + (hi - lo) / 2;
        if forest[mid].prob() > weight {
            lo = mid + 1;
        } else {
            hi = mid;
        }
    }
    lo
}

/// Inserts `tree` into a sorted forest, keeping it sorted.
fn insert_sorted<T>(forest: &mut Vec<HuffmanTree<T>>, tree: HuffmanTree<T>)
    requires
        sorted_descending(old(forest)@),
    ensures
        sorted_descending(final(forest)@),
        exists|i: int|
            0 <= i <= old(forest)@.len() && final(forest)@ == old(forest)@.insert(i, tree),
{
    let index = insert_position(forest, tree.prob());
    forest.insert(index, tree);
}

/// Builds the Huffman tree of a distribution given as (symbol, weight) pairs.
///
/// The leaves are first sorted by descending weight. Then the two lightest
/// trees are merged under a new node until one tree is left.
pub fn generate_tree<T>(symbol_vec: Vec<(T, u64)>) -> (tree: HuffmanTree<T>)
    requires
        symbol_vec.len() > 0,
        total_weight(symbol_vec@) <= u64::MAX,
    ensures
        tree.well_formed(),
        tree.lighter_left(),
        tree.leaf_bag() == symbol_vec@.to_multiset(),
        tree.weight() == total_weight(symbol_vec@),
        tree.total() == total_weight(symbol_vec@),
        tree.is_optimal(),
{
    let ghost dist = symbol_vec@;
    let mut pending = symbol_vec;
    let mut trees: Vec<HuffmanTree<T>> = Vec::new();
    while pending.len() > 0
        invariant
            sorted_descending(trees@),
            forest_well_formed(trees@),
            forest_bag(trees@).add(pending@.to_multiset()) == dist.to_multiset(),
            forest_total(trees@) + total_weight(pending@) == total_weight(dist),
            trees.len() + pending.len() == dist.len(),
            forest_cost(trees@) == 0,
            forest_roots(trees@) == forest_leaf_weights(trees@),
        decreases pending.len(),
    {
        let ghost before = trees@;
        let ghost rest = pending@;
        let (symbol, p) = pending.pop().unwrap();
        let leaf = HuffmanTree::new_leaf(p, symbol);
        insert_sorted(&mut trees, leaf);
        proof {
            let i = choose|i: int| 0 <= i <= before.len() && trees@ == before.insert(i, leaf);
            lemma_forest_insert(before, i, leaf);
            assert(rest == pending@.push(rest.last()));
            vstd::seq_lib::to_multiset_build(pending@, rest.last());
        }
    }
    assert(pending@.to_multiset() == Multiset::<(T, u64)>::empty()) by {
        pending@.to_multiset_ensures();
    }
    let ghost weights = forest_leaf_weights(trees@);
    while trees.len() > 1
        invariant
            trees.len() >= 1,
            sorted_descending(trees@),
            forest_well_formed(trees@),
            forest_bag(trees@) == dist.to_multiset(),
            forest_total(trees@) == total_weight(dist),
            total_weight(dist) <= u64::MAX,
            forest_leaf_weights(trees@) == weights,
            forest_cost(trees@) + merge_cost(forest_roots(trees@)) == merge_cost(weights),
        decreases trees.len(),
    {
        let ghost before = trees@;
        let tree_a = trees.pop().unwrap();
        let tree_b = trees.pop().unwrap();
        let ghost rest = trees@;
        proof {
            let middle = before.drop_last();
            assert(forest_total(middle) == forest_total(rest) + tree_b.weight());
            assert(forest_bag(middle) == forest_bag(rest).add(tree_b.leaf_bag()));
        }
        let p = tree_a.prob() + tree_b.prob();
        let new_tree = HuffmanTree::new_node(p, tree_a, tree_b);
        insert_sorted(&mut trees, new_tree);
        proof {
            let i = choose|i: int| 0 <= i <= rest.len() && trees@ == rest.insert(i, new_tree);
            lemma_forest_insert(rest, i, new_tree);
            assert(rest == before.take(before.len() - 2));
            lemma_forest_merge(before, new_tree, i);
        }
    }
    let ghost last = trees@;
    let tree = trees.pop().unwrap();
    proof {
        assert(forest_total(last) == forest_total(last.drop_last()) + tree.weight());
        assert(forest_bag(last) == forest_bag(last.drop_last()).add(tree.leaf_bag()));
        lemma_forest_roots(last);
        assert(forest_leaf_weights(last.drop_last()).add(tree.leaf_weights())
            =~= tree.leaf_weights());
        lemma_greedy_is_optimal(tree);
        lemma_weight_is_total(tree);
    }
    tree
}

/// Whether the leaves of `tree` are the entries of `dist`: one leaf for each
/// symbol, with the symbol's weight.
pub open spec fn has_leaves_of<T>(tree: HuffmanTree<T>, dist: Map<T, u64>) -> bool {
    forall|s: T, w: u64| #[trigger]
        tree.leaf_bag().count((s, w)) == if dist.contains_key(s) && dist[s] == w {
            1nat
        } else {
            0nat
        }
}

/// Whether `table` is the code table of `tree`: it has exactly the symbols
/// of the tree's leaves as keys, each with its code.
pub open spec fn is_table_of<T>(table: Map<T, Vec<Bit>>, tree: HuffmanTree<T>) -> bool {
    &&& forall|s: T| #[trigger] table.contains_key(s) <==> tree.has_symbol(s)
    &&& forall|s: T| #[trigger] tree.has_symbol(s) ==> table[s]@ == tree.code_of(s)
}

/// Builds the code table of `tree` by a depth-first walk: `L` on entering a
/// left child, `R` on entering a right child.
pub fn generate_table<T>(tree: &HuffmanTree<T>) -> (table: HuffmanTable<T>) where
    T: Eq + Copy + Hash,

    requires
        obeys_key_model::<T>(),
    ensures
        is_table_of(table@, *tree),
{
    let mut table: HuffmanTable<T> = HashMap::new();
    let mut code: HuffmanCode = Vec::new();
    generate_table_recursive(tree, &mut table, &mut code);
    table
}

fn generate_table_recursive<T>(
    tree: &HuffmanTree<T>,
    table: &mut HuffmanTable<T>,
    code: &mut HuffmanCode,
) where T: Eq + Copy + Hash
    requires
        obeys_key_model::<T>(),
    ensures
        final(code)@ == old(code)@,
        forall|s: T|
            #[trigger] final(table)@.contains_key(s) <==> old(table)@.contains_key(s)
                || tree.has_symbol(s),
        forall|s: T|
            #[trigger] tree.has_symbol(s) ==> final(table)@[s]@ == old(code)@ + tree.code_of(s),
        forall|s: T|
            !tree.has_symbol(s) && old(table)@.contains_key(s) ==> #[trigger] final(table)@[s]
                == old(table)@[s],
    decreases *tree,
{
    broadcast use vstd::std_specs::hash::group_hash_axioms;

    match tree {
        HuffmanTree::Node { p: _, left, right } => {
            code.push(Bit::L);
            generate_table_recursive(left, table, code);
            code.pop();

            code.push(Bit::R);
            generate_table_recursive(right, table, code);
            code.pop();
        },
        HuffmanTree::Leaf { p: _, symbol } => {
            let path = code.clone();
            table.insert(*symbol, path);
        },
    }
}

} // verus!
