//! What holds of every tree and its codes: codes are prefix-free, decoding
//! undoes encoding, the weight of a well-formed tree is the sum of its leaf
//! weights, the weighted path length is the weighted code length, and an
//! optimal tree is optimal among all trees with the same leaves.

use crate::codec::{all_known, encoded};
use crate::funcs::{has_leaves_of, is_table_of};
use crate::types::{Bit, HuffmanTree};
use vstd::multiset::Multiset;
use vstd::prelude::*;

verus! {

/// Following the code of a symbol from the root leads to that symbol and
/// uses up exactly the code, whatever bits come after it.
pub proof fn lemma_code_leads_to_symbol<T>(tree: HuffmanTree<T>, symbol: T, rest: Seq<Bit>)
    requires
        tree.has_symbol(symbol),
    ensures
        tree.first_symbol(tree.code_of(symbol) + rest) == Some(
            (symbol, tree.code_of(symbol).len()),
        ),
    decreases tree,
{
    match tree {
        HuffmanTree::Node { left, right, .. } => {
            let bits = tree.code_of(symbol) + rest;
            if right.has_symbol(symbol) {
                assert(bits.drop_first() == right.code_of(symbol) + rest);
                lemma_code_leads_to_symbol(*right, symbol, rest);
            } else {
                assert(bits.drop_first() == left.code_of(symbol) + rest);
                lemma_code_leads_to_symbol(*left, symbol, rest);
            }
        },
        HuffmanTree::Leaf { .. } => {},
    }
}

/// Prefix-free codes: in any tree, the code of one symbol is never a prefix
/// of the code of another symbol.
pub proof fn lemma_prefix_free<T>(tree: HuffmanTree<T>, a: T, b: T)
    requires
        tree.has_symbol(a),
        tree.has_symbol(b),
        a != b,
    ensures
        !tree.code_of(a).is_prefix_of(tree.code_of(b)),
        !tree.code_of(b).is_prefix_of(tree.code_of(a)),
    decreases tree,
{
    match tree {
        HuffmanTree::Node { left, right, .. } => {
            let code_a = tree.code_of(a);
            let code_b = tree.code_of(b);
            if right.has_symbol(a) && right.has_symbol(b) {
                lemma_prefix_free(*right, a, b);
                lemma_prefix_extends(Bit::R, right.code_of(a), right.code_of(b));
                lemma_prefix_extends(Bit::R, right.code_of(b), right.code_of(a));
            } else if !right.has_symbol(a) && !right.has_symbol(b) {
                lemma_prefix_free(*left, a, b);
                lemma_prefix_extends(Bit::L, left.code_of(a), left.code_of(b));
                lemma_prefix_extends(Bit::L, left.code_of(b), left.code_of(a));
            } else {
                assert(code_a[0] != code_b[0]);
                if code_a.is_prefix_of(code_b) {
                    assert(code_b.subrange(0, code_a.len() as int)[0] == code_a[0]);
                }
                if code_b.is_prefix_of(code_a) {
                    assert(code_a.subrange(0, code_b.len() as int)[0] == code_b[0]);
                }
            }
        },
        HuffmanTree::Leaf { .. } => {},
    }
}

/// A prefix behind a common first bit is a prefix without it.
proof fn lemma_prefix_extends(bit: Bit, x: Seq<Bit>, y: Seq<Bit>)
    ensures
        (seq![bit] + x).is_prefix_of(seq![bit] + y) ==> x.is_prefix_of(y),
{
    let long_x = seq![bit] + x;
    let long_y = seq![bit] + y;
    if long_x.is_prefix_of(long_y) {
        assert(x =~= y.subrange(0, x.len() as int)) by {
            assert forall|i: int| 0 <= i < x.len() implies x[i] == y[i] by {
                assert(long_x[i + 1] == long_y.subrange(0, long_x.len() as int)[i + 1]);
            }
        }
    }
}

/// Round trip: in a tree with more than one leaf, decoding the codes of any
/// symbols of the tree gives back these symbols.
pub proof fn lemma_round_trip<T>(tree: HuffmanTree<T>, symbols: Seq<T>)
    requires
        tree is Node,
        forall|i: int| 0 <= i < symbols.len() ==> tree.has_symbol(#[trigger] symbols[i]),
    ensures
        tree.decoded(tree.encoded(symbols)) == Some(symbols),
    decreases symbols.len(),
{
    if symbols.len() > 0 {
        let first = symbols.first();
        let rest = symbols.drop_first();
        let bits = tree.encoded(symbols);
        assert forall|i: int| 0 <= i < rest.len() implies tree.has_symbol(#[trigger] rest[i]) by {
            assert(rest[i] == symbols[i + 1]);
        }
        lemma_round_trip(tree, rest);
        lemma_code_leads_to_symbol(tree, first, tree.encoded(rest));
        assert(bits.skip(tree.code_of(first).len() as int) == tree.encoded(rest));
    }
}

/// A code table of a tree encodes as the tree does.
pub proof fn lemma_table_encodes_as_tree<T>(
    table: Map<T, Vec<Bit>>,
    tree: HuffmanTree<T>,
    symbols: Seq<T>,
)
    requires
        is_table_of(table, tree),
        all_known(table, symbols),
    ensures
        encoded(table, symbols) == tree.encoded(symbols),
    decreases symbols.len(),
{
    if symbols.len() > 0 {
        let rest = symbols.drop_first();
        assert forall|i: int| 0 <= i < rest.len() implies table.contains_key(
            #[trigger] rest[i],
        ) by {
            assert(rest[i] == symbols[i + 1]);
        }
        lemma_table_encodes_as_tree(table, tree, rest);
    }
}

/// The weight of a well-formed tree is the sum of the weights of its leaves.
pub proof fn lemma_weight_is_total<T>(tree: HuffmanTree<T>)
    requires
        tree.well_formed(),
    ensures
        tree.weight() == tree.total(),
    decreases tree,
{
    match tree {
        HuffmanTree::Node { left, right, .. } => {
            lemma_weight_is_total(*left);
            lemma_weight_is_total(*right);
        },
        HuffmanTree::Leaf { .. } => {},
    }
}

/// One level deeper, a tree costs more by the sum of the weights of its
/// leaves.
pub proof fn lemma_cost_one_deeper<T>(tree: HuffmanTree<T>, depth: nat)
    ensures
        tree.cost_at(depth + 1) == tree.cost_at(depth) + tree.total(),
    decreases tree,
{
    match tree {
        HuffmanTree::Node { left, right, .. } => {
            lemma_cost_one_deeper(*left, depth + 1);
            lemma_cost_one_deeper(*right, depth + 1);
        },
        HuffmanTree::Leaf { p, .. } => {
            assert(p as nat * (depth + 1) == p as nat * depth + p as nat) by (nonlinear_arith);
        },
    }
}

/// The weights of a list of leaves.
pub open spec fn weights_of<T>(leaves: Seq<(T, u64)>) -> Seq<nat> {
    leaves.map_values(|leaf: (T, u64)| leaf.1 as nat)
}

/// The multisets of leaves and of leaf weights hold what the leaves hold,
/// taken from left to right.
pub proof fn lemma_leaves<T>(tree: HuffmanTree<T>)
    ensures
        tree.leaves().to_multiset() == tree.leaf_bag(),
        weights_of(tree.leaves()).to_multiset() == tree.leaf_weights(),
    decreases tree,
{
    match tree {
        HuffmanTree::Node { left, right, .. } => {
            lemma_leaves(*left);
            lemma_leaves(*right);
            vstd::seq_lib::lemma_multiset_commutative(left.leaves(), right.leaves());
            vstd::seq_lib::lemma_multiset_commutative(
                weights_of(left.leaves()),
                weights_of(right.leaves()),
            );
            assert(weights_of(tree.leaves()) == weights_of(left.leaves()) + weights_of(
                right.leaves(),
            ));
        },
        HuffmanTree::Leaf { p, symbol } => {
            let one = seq![(symbol, p)];
            assert(weights_of(one) == Seq::<nat>::empty().push(p as nat));
            vstd::seq_lib::to_multiset_build(Seq::<(T, u64)>::empty(), (symbol, p));
            vstd::seq_lib::to_multiset_build(Seq::<nat>::empty(), p as nat);
            Seq::<(T, u64)>::empty().to_multiset_ensures();
            Seq::<nat>::empty().to_multiset_ensures();
        },
    }
}

/// A tree has at least one leaf.
pub proof fn lemma_leaves_nonempty<T>(tree: HuffmanTree<T>)
    ensures
        tree.leaves().len() > 0,
    decreases tree,
{
    match tree {
        HuffmanTree::Node { left, .. } => {
            lemma_leaves_nonempty(*left);
        },
        HuffmanTree::Leaf { .. } => {},
    }
}

/// Two lists of the same leaves, in whatever order, have the same weights.
pub proof fn lemma_same_leaves_same_weights<T>(a: Seq<(T, u64)>, b: Seq<(T, u64)>)
    requires
        a.to_multiset() == b.to_multiset(),
    ensures
        weights_of(a).to_multiset() == weights_of(b).to_multiset(),
    decreases a.len(),
{
    a.to_multiset_ensures();
    b.to_multiset_ensures();
    if a.len() == 0 {
        assert(weights_of(a) == weights_of(b));
    } else {
        let leaf = a.last();
        let shorter = a.drop_last();
        assert(a == shorter.push(leaf));
        shorter.to_multiset_ensures();
        assert(b.contains(leaf)) by {
            assert(a.to_multiset().count(leaf) > 0);
        }
        let j = choose|j: int| 0 <= j < b.len() && b[j] == leaf;
        let other = b.remove(j);
        assert(shorter.to_multiset() =~= other.to_multiset());
        lemma_same_leaves_same_weights(shorter, other);
        assert(weights_of(a) == weights_of(shorter).push(leaf.1 as nat));
        assert(weights_of(other) == weights_of(b).remove(j));
        weights_of(shorter).to_multiset_ensures();
        weights_of(b).to_multiset_ensures();
    }
}

/// Optimality: a tree that `is_optimal` has the least weighted path length
/// of all trees with the same leaves.
pub proof fn lemma_optimal_among_same_leaves<T>(tree: HuffmanTree<T>, other: HuffmanTree<T>)
    requires
        tree.is_optimal(),
        other.leaf_bag() == tree.leaf_bag(),
    ensures
        tree.cost() <= other.cost(),
{
    lemma_leaves(tree);
    lemma_leaves(other);
    lemma_same_leaves_same_weights(other.leaves(), tree.leaves());
}

/// A symbol stands at a leaf of the tree exactly if it is in the multiset of
/// leaves, with some weight.
pub proof fn lemma_symbols_of_leaves<T>(tree: HuffmanTree<T>, s: T)
    ensures
        tree.has_symbol(s) <==> exists|w: u64| tree.leaf_bag().count((s, w)) > 0,
    decreases tree,
{
    match tree {
        HuffmanTree::Node { left, right, .. } => {
            lemma_symbols_of_leaves(*left, s);
            lemma_symbols_of_leaves(*right, s);
            if left.has_symbol(s) {
                let w = choose|w: u64| left.leaf_bag().count((s, w)) > 0;
                assert(tree.leaf_bag().count((s, w)) > 0);
            }
            if right.has_symbol(s) {
                let w = choose|w: u64| right.leaf_bag().count((s, w)) > 0;
                assert(tree.leaf_bag().count((s, w)) > 0);
            }
        },
        HuffmanTree::Leaf { p, symbol } => {
            if symbol == s {
                assert(tree.leaf_bag().count((s, p)) > 0);
            }
        },
    }
}

/// No symbol is in the multiset of leaves twice, neither with one weight nor
/// with two.
pub open spec fn symbols_occur_once<T>(leaves: Multiset<(T, u64)>) -> bool {
    forall|s: T, v: u64, w: u64|
        leaves.count((s, v)) > 0 && leaves.count((s, w)) > 0 ==> v == w && #[trigger] leaves.count(
            (s, v),
        ) + #[trigger] leaves.count((s, w)) == 2
}

/// Where no symbol is in the multiset of leaves twice, no symbol stands at
/// two leaves of the tree.
pub proof fn lemma_distinct_symbols<T>(tree: HuffmanTree<T>)
    requires
        symbols_occur_once(tree.leaf_bag()),
    ensures
        tree.distinct_symbols(),
    decreases tree,
{
    match tree {
        HuffmanTree::Node { left, right, .. } => {
            let all = tree.leaf_bag();
            assert forall|s: T, v: u64, w: u64|
                left.leaf_bag().count((s, v)) > 0 && left.leaf_bag().count((s, w))
                    > 0 implies v == w && #[trigger] left.leaf_bag().count((s, v))
                + #[trigger] left.leaf_bag().count((s, w)) == 2 by {
                assert(all.count((s, v)) + all.count((s, w)) == 2);
            }
            assert forall|s: T, v: u64, w: u64|
                right.leaf_bag().count((s, v)) > 0 && right.leaf_bag().count((s, w))
                    > 0 implies v == w && #[trigger] right.leaf_bag().count((s, v))
                + #[trigger] right.leaf_bag().count((s, w)) == 2 by {
                assert(all.count((s, v)) + all.count((s, w)) == 2);
            }
            lemma_distinct_symbols(*left);
            lemma_distinct_symbols(*right);
            assert forall|s: T| !(left.has_symbol(s) && right.has_symbol(s)) by {
                lemma_symbols_of_leaves(*left, s);
                lemma_symbols_of_leaves(*right, s);
                if left.has_symbol(s) && right.has_symbol(s) {
                    let v = choose|v: u64| left.leaf_bag().count((s, v)) > 0;
                    let w = choose|w: u64| right.leaf_bag().count((s, w)) > 0;
                    assert(all.count((s, v)) + all.count((s, w)) == 2);
                }
            }
        },
        HuffmanTree::Leaf { .. } => {},
    }
}

/// Below `branch`, which hangs `depth` steps under the root, the codes of
/// the root are those of the branch with `depth` bits before them.
proof fn lemma_weighted_code_length_at<T>(branch: HuffmanTree<T>, root: HuffmanTree<T>, depth: nat)
    requires
        branch.distinct_symbols(),
        forall|s: T| #[trigger]
            branch.has_symbol(s) ==> root.code_of(s).len() == depth + branch.code_of(s).len(),
    ensures
        branch.weighted_code_length(root) == branch.cost_at(depth),
    decreases branch,
{
    match branch {
        HuffmanTree::Node { left, right, .. } => {
            assert forall|s: T| #[trigger] left.has_symbol(s) implies root.code_of(s).len()
                == depth + 1 + left.code_of(s).len() by {
                assert(branch.has_symbol(s));
            }
            assert forall|s: T| #[trigger] right.has_symbol(s) implies root.code_of(s).len()
                == depth + 1 + right.code_of(s).len() by {
                assert(branch.has_symbol(s));
            }
            lemma_weighted_code_length_at(*left, root, depth + 1);
            lemma_weighted_code_length_at(*right, root, depth + 1);
        },
        HuffmanTree::Leaf { symbol, .. } => {
            assert(branch.has_symbol(symbol));
        },
    }
}

/// The weighted path length is the weighted code length: in a tree in which
/// no symbol stands at two leaves, it is the sum over the leaves of weight
/// times the length of the symbol's code.
pub proof fn lemma_cost_is_weighted_code_length<T>(tree: HuffmanTree<T>)
    requires
        tree.distinct_symbols(),
    ensures
        tree.cost() == tree.weighted_code_length(tree),
{
    lemma_weighted_code_length_at(tree, tree, 0);
}

/// Table completeness: the code table of a tree that was built from a
/// distribution has exactly the symbols of the distribution as keys.
pub proof fn lemma_table_complete<T>(
    table: Map<T, Vec<Bit>>,
    tree: HuffmanTree<T>,
    dist: Map<T, u64>,
)
    requires
        is_table_of(table, tree),
        has_leaves_of(tree, dist),
    ensures
        table.dom() == dist.dom(),
        tree.distinct_symbols(),
{
    assert forall|s: T| table.contains_key(s) <==> dist.contains_key(s) by {
        lemma_symbols_of_leaves(tree, s);
        if dist.contains_key(s) {
            assert(tree.leaf_bag().count((s, dist[s])) > 0);
        }
    }
    lemma_distinct_symbols(tree);
}

} // verus!
