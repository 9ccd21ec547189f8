//! Why the greedy merge is optimal: no tree over the same leaf weights has a
//! smaller weighted path length than the one that `generate_tree` builds.
//!
//! The proof has two halves. Merging the two least weights again and again
//! costs `merge_cost`; every tree costs at least that much (`lemma_lower_bound`),
//! and the tree that is built costs exactly that much.

use crate::types::{Bit, HuffmanTree};
use vstd::multiset::Multiset;
use vstd::prelude::*;

verus! {

/// The least element of a non-empty multiset of weights.
pub open spec fn least(weights: Multiset<nat>) -> nat {
    choose|m: nat| is_least(weights, m)
}

/// `m` is an element of `weights`, and no element is smaller.
pub open spec fn is_least(weights: Multiset<nat>, m: nat) -> bool {
    &&& weights.contains(m)
    &&& forall|x: nat| weights.contains(x) ==> m <= x
}

proof fn lemma_least_below(weights: Multiset<nat>, bound: nat)
    requires
        weights.contains(bound),
    ensures
        exists|m: nat| is_least(weights, m),
    decreases bound,
{
    if !is_least(weights, bound) {
        let smaller = choose|x: nat| weights.contains(x) && !(bound <= x);
        lemma_least_below(weights, smaller);
    }
}

/// A non-empty multiset has a least element, and only one.
pub proof fn lemma_least(weights: Multiset<nat>)
    requires
        weights.len() > 0,
    ensures
        is_least(weights, least(weights)),
        forall|m: nat| is_least(weights, m) ==> m == least(weights),
{
    lemma_least_below(weights, weights.choose());
}

/// The multiset that is left when the two least weights are merged into one.
pub open spec fn merged(weights: Multiset<nat>) -> Multiset<nat> {
    let a = least(weights);
    let b = least(weights.remove(a));
    weights.remove(a).remove(b).insert(a + b)
}

/// The sum of the two least weights.
pub open spec fn least_pair(weights: Multiset<nat>) -> nat {
    let a = least(weights);
    a + least(weights.remove(a))
}

/// Merging the two least weights takes one element away.
proof fn lemma_merged_len(weights: Multiset<nat>)
    requires
        weights.len() >= 2,
    ensures
        merged(weights).len() == weights.len() - 1,
{
    let a = least(weights);
    lemma_least(weights);
    let rest = weights.remove(a);
    lemma_least(rest);
}

/// The cost of merging the two least weights again and again until one
/// weight is left: each merge costs the sum of the two.
pub open spec fn merge_cost(weights: Multiset<nat>) -> nat
    decreases weights.len(),
    via merge_cost_decreases
{
    if weights.len() <= 1 {
        0
    } else {
        least_pair(weights) + merge_cost(merged(weights))
    }
}

#[via_fn]
proof fn merge_cost_decreases(weights: Multiset<nat>) {
    if weights.len() >= 2 {
        lemma_merged_len(weights);
    }
}

/// The shape of a tree with the weights of its leaves, and nothing else.
enum WeightTree {
    Leaf { weight: nat },
    Node { left: Box<WeightTree>, right: Box<WeightTree> },
}

impl WeightTree {
    /// The weights of the leaves, as a multiset.
    spec fn weights(self) -> Multiset<nat>
        decreases self,
    {
        match self {
            WeightTree::Leaf { weight } => Multiset::singleton(weight),
            WeightTree::Node { left, right } => left.weights().add(right.weights()),
        }
    }

    /// The sum, over all leaves, of weight times distance from the root, when
    /// the root itself is at distance `depth`.
    spec fn cost_at(self, depth: nat) -> nat
        decreases self,
    {
        match self {
            WeightTree::Leaf { weight } => weight * depth,
            WeightTree::Node { left, right } => left.cost_at(depth + 1) + right.cost_at(depth + 1),
        }
    }

    /// The greatest distance of a leaf from the root.
    spec fn height(self) -> nat
        decreases self,
    {
        match self {
            WeightTree::Leaf { .. } => 0,
            WeightTree::Node { left, right } => {
                1 + if left.height() >= right.height() {
                    left.height()
                } else {
                    right.height()
                }
            },
        }
    }

    /// The weight of the leaf at the end of `path`, if `path` ends at a leaf.
    spec fn leaf_at(self, path: Seq<Bit>) -> Option<nat>
        decreases self,
    {
        match self {
            WeightTree::Leaf { weight } => {
                if path.len() == 0 {
                    Some(weight)
                } else {
                    None
                }
            },
            WeightTree::Node { left, right } => {
                if path.len() == 0 {
                    None
                } else if path[0] == Bit::L {
                    left.leaf_at(path.drop_first())
                } else {
                    right.leaf_at(path.drop_first())
                }
            },
        }
    }

    /// This tree with the weight of the leaf at the end of `path` set to
    /// `weight`.
    spec fn with_leaf(self, path: Seq<Bit>, weight: nat) -> WeightTree
        decreases self,
    {
        match self {
            WeightTree::Leaf { .. } => {
                if path.len() == 0 {
                    WeightTree::Leaf { weight }
                } else {
                    self
                }
            },
            WeightTree::Node { left, right } => {
                if path.len() == 0 {
                    self
                } else if path[0] == Bit::L {
                    WeightTree::Node {
                        left: Box::new(left.with_leaf(path.drop_first(), weight)),
                        right,
                    }
                } else {
                    WeightTree::Node {
                        left,
                        right: Box::new(right.with_leaf(path.drop_first(), weight)),
                    }
                }
            },
        }
    }

    /// The weights of the two leaves below the node at the end of `path`, if
    /// `path` ends at a node whose children are both leaves.
    spec fn pair_at(self, path: Seq<Bit>) -> Option<(nat, nat)>
        decreases self,
    {
        match self {
            WeightTree::Leaf { .. } => None,
            WeightTree::Node { left, right } => {
                if path.len() == 0 {
                    match (*left, *right) {
                        (WeightTree::Leaf { weight: x }, WeightTree::Leaf { weight: y }) => Some(
                            (x, y),
                        ),
                        _ => None,
                    }
                } else if path[0] == Bit::L {
                    left.pair_at(path.drop_first())
                } else {
                    right.pair_at(path.drop_first())
                }
            },
        }
    }

    /// This tree with the node at the end of `path`, whose children are both
    /// leaves, made into one leaf of their combined weight.
    spec fn with_pair_merged(self, path: Seq<Bit>) -> WeightTree
        decreases self,
    {
        match self {
            WeightTree::Leaf { .. } => self,
            WeightTree::Node { left, right } => {
                if path.len() == 0 {
                    match (*left, *right) {
                        (WeightTree::Leaf { weight: x }, WeightTree::Leaf { weight: y }) => {
                            WeightTree::Leaf { weight: x + y }
                        },
                        _ => self,
                    }
                } else if path[0] == Bit::L {
                    WeightTree::Node {
                        left: Box::new(left.with_pair_merged(path.drop_first())),
                        right,
                    }
                } else {
                    WeightTree::Node {
                        left,
                        right: Box::new(right.with_pair_merged(path.drop_first())),
                    }
                }
            },
        }
    }
}

/// A tree has at least one leaf, and a node has at least two.
proof fn lemma_weights_len(tree: WeightTree)
    ensures
        tree.weights().len() >= 1,
        tree is Node ==> tree.weights().len() >= 2,
    decreases tree,
{
    match tree {
        WeightTree::Leaf { .. } => {},
        WeightTree::Node { left, right } => {
            lemma_weights_len(*left);
            lemma_weights_len(*right);
        },
    }
}

/// What setting the weight of one leaf does to the tree.
proof fn lemma_with_leaf(tree: WeightTree, path: Seq<Bit>, weight: nat, depth: nat)
    requires
        tree.leaf_at(path) is Some,
    ensures
        tree.weights().contains(tree.leaf_at(path)->0),
        tree.with_leaf(path, weight).weights() == tree.weights().remove(
            tree.leaf_at(path)->0,
        ).insert(weight),
        tree.with_leaf(path, weight).cost_at(depth) + tree.leaf_at(path)->0 * (depth + path.len())
            == tree.cost_at(depth) + weight * (depth + path.len()),
        tree.with_leaf(path, weight).height() == tree.height(),
        tree.with_leaf(path, weight).leaf_at(path) == Some(weight),
        path.len() <= tree.height(),
    decreases tree,
{
    match tree {
        WeightTree::Leaf { weight: before } => {
            assert(Multiset::singleton(before).remove(before).insert(weight)
                =~= Multiset::singleton(weight));
        },
        WeightTree::Node { left, right } => {
            if path[0] == Bit::L {
                lemma_with_leaf(*left, path.drop_first(), weight, depth + 1);
            } else {
                lemma_with_leaf(*right, path.drop_first(), weight, depth + 1);
            }
        },
    }
}

/// Setting the weight of one leaf leaves the other leaves as they are.
proof fn lemma_with_leaf_elsewhere(tree: WeightTree, path: Seq<Bit>, weight: nat, other: Seq<Bit>)
    requires
        tree.leaf_at(path) is Some,
        tree.leaf_at(other) is Some,
        other != path,
    ensures
        tree.with_leaf(path, weight).leaf_at(other) == tree.leaf_at(other),
    decreases tree,
{
    match tree {
        WeightTree::Leaf { .. } => {
            assert(path =~= other);
        },
        WeightTree::Node { left, right } => {
            if path[0] == other[0] {
                assert(path.drop_first() != other.drop_first()) by {
                    if path.drop_first() == other.drop_first() {
                        assert(path =~= seq![path[0]] + path.drop_first());
                        assert(other =~= seq![other[0]] + other.drop_first());
                    }
                }
                if path[0] == Bit::L {
                    lemma_with_leaf_elsewhere(*left, path.drop_first(), weight, other.drop_first());
                } else {
                    lemma_with_leaf_elsewhere(
                        *right,
                        path.drop_first(),
                        weight,
                        other.drop_first(),
                    );
                }
            }
        },
    }
}

/// Every weight of the multiset of leaf weights stands at some leaf.
proof fn lemma_find_leaf(tree: WeightTree, weight: nat) -> (path: Seq<Bit>)
    requires
        tree.weights().contains(weight),
    ensures
        tree.leaf_at(path) == Some(weight),
    decreases tree,
{
    match tree {
        WeightTree::Leaf { .. } => Seq::empty(),
        WeightTree::Node { left, right } => {
            if left.weights().contains(weight) {
                let rest = lemma_find_leaf(*left, weight);
                let path = seq![Bit::L] + rest;
                assert(path.drop_first() == rest);
                path
            } else {
                let rest = lemma_find_leaf(*right, weight);
                let path = seq![Bit::R] + rest;
                assert(path.drop_first() == rest);
                path
            }
        },
    }
}

/// A node has, at its greatest depth, a node whose children are both leaves.
proof fn lemma_deepest_pair(tree: WeightTree) -> (path: Seq<Bit>)
    requires
        tree is Node,
    ensures
        tree.pair_at(path) is Some,
        path.len() + 1 == tree.height(),
    decreases tree,
{
    match tree {
        WeightTree::Leaf { .. } => Seq::empty(),
        WeightTree::Node { left, right } => {
            assert(*left is Leaf ==> left.height() == 0);
            assert(*right is Leaf ==> right.height() == 0);
            if left.height() >= right.height() && *left is Node {
                let rest = lemma_deepest_pair(*left);
                let path = seq![Bit::L] + rest;
                assert(path.drop_first() == rest);
                path
            } else if *right is Node {
                let rest = lemma_deepest_pair(*right);
                let path = seq![Bit::R] + rest;
                assert(path.drop_first() == rest);
                path
            } else {
                Seq::empty()
            }
        },
    }
}

/// What merging a pair of sibling leaves does to the tree.
proof fn lemma_with_pair_merged(tree: WeightTree, path: Seq<Bit>, depth: nat)
    requires
        tree.pair_at(path) is Some,
    ensures
        ({
            let (x, y) = tree.pair_at(path)->0;
            let merged = tree.with_pair_merged(path);
            &&& tree.weights().contains(x)
            &&& tree.weights().remove(x).contains(y)
            &&& merged.weights() == tree.weights().remove(x).remove(y).insert(x + y)
            &&& merged.cost_at(depth) + x + y == tree.cost_at(depth)
            &&& merged.leaf_at(path) == Some(x + y)
            &&& merged.height() <= tree.height()
        }),
    decreases tree,
{
    let (x, y) = tree.pair_at(path)->0;
    match tree {
        WeightTree::Leaf { .. } => {},
        WeightTree::Node { left, right } => {
            if path.len() == 0 {
                assert(left.weights() == Multiset::singleton(x));
                assert(right.weights() == Multiset::singleton(y));
                assert(left.cost_at(depth + 1) == x * (depth + 1));
                assert(right.cost_at(depth + 1) == y * (depth + 1));
                assert((x + y) * depth + x + y == x * (depth + 1) + y * (depth + 1))
                    by (nonlinear_arith);
            } else if path[0] == Bit::L {
                lemma_with_pair_merged(*left, path.drop_first(), depth + 1);
            } else {
                lemma_with_pair_merged(*right, path.drop_first(), depth + 1);
            }
        },
    }
}

/// Moves `delta` units of weight from the leaf at `path`, one of the deepest
/// but one, to some lighter leaf: the cost grows by at most `delta`.
proof fn lemma_transfer(tree: WeightTree, path: Seq<Bit>, lighter: nat, delta: nat) -> (moved:
    WeightTree)
    requires
        tree.leaf_at(path) is Some,
        tree.weights().contains(lighter),
        lighter < tree.leaf_at(path)->0,
        delta <= tree.leaf_at(path)->0,
        tree.height() <= path.len() + 1,
    ensures
        moved.weights() == tree.weights().remove(tree.leaf_at(path)->0).remove(lighter).insert(
            (tree.leaf_at(path)->0 - delta) as nat,
        ).insert(lighter + delta),
        moved.cost_at(0) <= tree.cost_at(0) + delta,
        moved.leaf_at(path) == Some((tree.leaf_at(path)->0 - delta) as nat),
        moved.height() == tree.height(),
{
    let heavy = tree.leaf_at(path)->0;
    let target = lemma_find_leaf(tree, lighter);
    let raised = tree.with_leaf(target, lighter + delta);
    lemma_with_leaf(tree, target, lighter + delta, 0);
    lemma_with_leaf(tree, path, 0, 0);
    lemma_with_leaf_elsewhere(tree, target, lighter + delta, path);
    let moved = raised.with_leaf(path, (heavy - delta) as nat);
    lemma_with_leaf(raised, path, (heavy - delta) as nat, 0);
    let near = target.len();
    let far = path.len();
    assert(moved.cost_at(0) <= tree.cost_at(0) + delta) by (nonlinear_arith)
        requires
            raised.cost_at(0) + lighter * near == tree.cost_at(0) + (lighter + delta) * near,
            moved.cost_at(0) + heavy * far == raised.cost_at(0) + (heavy - delta) * far,
            near <= far + 1,
            delta <= heavy,
    ;
    moved
}

/// The weights that are left when `a` and `b` are taken out and their sum is
/// put in.
spec fn joined(weights: Multiset<nat>, a: nat, b: nat) -> Multiset<nat> {
    weights.remove(a).remove(b).insert(a + b)
}

/// Where the lighter leaf of the pair is the least weight but the heavier
/// one is not the second least: the second least takes the heavier one's
/// place.
proof fn lemma_swap_heavier(all: Multiset<nat>, lo: nat, hi: nat, b: nat)
    requires
        all.contains(lo),
        all.remove(lo).contains(hi),
        all.remove(lo).contains(b),
        b < hi,
    ensures
        joined(all, lo, hi).contains(b),
        joined(all, lo, hi).remove(lo + hi).remove(b).insert(lo + b).insert(hi) == joined(
            all,
            lo,
            b,
        ),
{
    let base = joined(all, lo, hi);
    assert(base.remove(lo + hi) =~= all.remove(lo).remove(hi));
}

/// Where the least weight is not in the pair but the second least is its
/// lighter leaf: the least takes the heavier one's place.
proof fn lemma_swap_for_least(all: Multiset<nat>, lo: nat, hi: nat, a: nat)
    requires
        all.contains(lo),
        all.remove(lo).contains(hi),
        all.contains(a),
        a < lo <= hi,
    ensures
        joined(all, lo, hi).contains(a),
        joined(all, lo, hi).remove(lo + hi).remove(a).insert(lo + a).insert(hi) == joined(
            all,
            a,
            lo,
        ),
{
    let base = joined(all, lo, hi);
    assert(base.remove(lo + hi) =~= all.remove(lo).remove(hi));
}

/// Where neither of the two least weights is in the pair: the least takes
/// the lighter one's place, then the second least the heavier one's.
proof fn lemma_swap_both(all: Multiset<nat>, lo: nat, hi: nat, a: nat, b: nat)
    requires
        all.contains(lo),
        all.remove(lo).contains(hi),
        all.contains(a),
        all.remove(a).contains(b),
        a <= b < lo <= hi,
    ensures
        joined(all, lo, hi).contains(a),
        ({
            let first = joined(all, lo, hi).remove(lo + hi).remove(a).insert(hi + a).insert(lo);
            &&& first.contains(b)
            &&& first.remove(hi + a).remove(b).insert(a + b).insert(hi) == joined(all, a, b)
        }),
{
    let base = joined(all, lo, hi);
    let first = base.remove(lo + hi).remove(a).insert(hi + a).insert(lo);
    assert(base.remove(lo + hi) =~= all.remove(lo).remove(hi));
}

/// From a tree with at least two leaves, a tree over the weights that are
/// left when the two least are merged into one, at a cost that is smaller by
/// at least the sum of the two.
proof fn lemma_merge_two_least(tree: WeightTree) -> (smaller: WeightTree)
    requires
        tree is Node,
    ensures
        smaller.weights() == merged(tree.weights()),
        smaller.cost_at(0) + least_pair(tree.weights()) <= tree.cost_at(0),
{
    let all = tree.weights();
    lemma_weights_len(tree);
    let a = least(all);
    lemma_least(all);
    let b = least(all.remove(a));
    lemma_least(all.remove(a));

    let spot = lemma_deepest_pair(tree);
    let (x, y) = tree.pair_at(spot)->0;
    lemma_with_pair_merged(tree, spot, 0);
    let paired = tree.with_pair_merged(spot);
    lemma_with_leaf(paired, spot, 0, 0);
    let (lo, hi) = if x <= y {
        (x, y)
    } else {
        (y, x)
    };
    assert(paired.weights() == joined(all, lo, hi)) by {
        assert(all.remove(x).remove(y) =~= all.remove(lo).remove(hi));
    }
    lemma_rebalance(paired, spot, all, lo, hi, a, b)
}

/// The case distinction of `lemma_merge_two_least`, on which of the two
/// least weights stand in the merged pair.
proof fn lemma_rebalance(
    paired: WeightTree,
    spot: Seq<Bit>,
    all: Multiset<nat>,
    lo: nat,
    hi: nat,
    a: nat,
    b: nat,
) -> (smaller: WeightTree)
    requires
        paired.weights() == joined(all, lo, hi),
        paired.leaf_at(spot) == Some(lo + hi),
        paired.height() <= spot.len() + 1,
        all.contains(lo),
        all.remove(lo).contains(hi),
        lo <= hi,
        is_least(all, a),
        is_least(all.remove(a), b),
    ensures
        smaller.weights() == joined(all, a, b),
        smaller.cost_at(0) + a + b <= paired.cost_at(0) + lo + hi,
{
    if a == lo {
        if b == hi {
            paired
        } else {
            lemma_swap_heavier(all, lo, hi, b);
            lemma_transfer(paired, spot, b, (hi - b) as nat)
        }
    } else {
        assert(all.remove(a).contains(lo));
        if b == lo {
            lemma_swap_for_least(all, lo, hi, a);
            lemma_transfer(paired, spot, a, (hi - a) as nat)
        } else {
            assert(all.contains(b));
            lemma_swap_both(all, lo, hi, a, b);
            let first = lemma_transfer(paired, spot, a, (lo - a) as nat);
            lemma_transfer(first, spot, b, (hi - b) as nat)
        }
    }
}

/// No tree costs less than merging the two least weights again and again.
proof fn lemma_lower_bound(tree: WeightTree)
    ensures
        merge_cost(tree.weights()) <= tree.cost_at(0),
    decreases tree.weights().len(),
{
    lemma_weights_len(tree);
    if tree is Node {
        let smaller = lemma_merge_two_least(tree);
        lemma_merged_len(tree.weights());
        lemma_lower_bound(smaller);
    } else {
        assert(tree.weights().len() == 1);
    }
}

/// The shape and leaf weights of a tree, without its symbols.
spec fn shape<T>(tree: HuffmanTree<T>) -> WeightTree
    decreases tree,
{
    match tree {
        HuffmanTree::Node { left, right, .. } => WeightTree::Node {
            left: Box::new(shape(*left)),
            right: Box::new(shape(*right)),
        },
        HuffmanTree::Leaf { p, .. } => WeightTree::Leaf { weight: p as nat },
    }
}

proof fn lemma_shape<T>(tree: HuffmanTree<T>, depth: nat)
    ensures
        shape(tree).weights() == tree.leaf_weights(),
        shape(tree).cost_at(depth) == tree.cost_at(depth),
    decreases tree,
{
    match tree {
        HuffmanTree::Node { left, right, .. } => {
            lemma_shape(*left, depth + 1);
            lemma_shape(*right, depth + 1);
        },
        HuffmanTree::Leaf { .. } => {},
    }
}

/// No tree has a smaller weighted path length than what merging the two
/// least of its leaf weights, again and again, costs.
pub proof fn lemma_cost_lower_bound<T>(tree: HuffmanTree<T>)
    ensures
        merge_cost(tree.leaf_weights()) <= tree.cost(),
{
    lemma_shape(tree, 0);
    lemma_lower_bound(shape(tree));
}

/// A tree that costs no more than the greedy merge of its leaf weights is
/// optimal.
pub proof fn lemma_greedy_is_optimal<T>(tree: HuffmanTree<T>)
    requires
        tree.cost() <= merge_cost(tree.leaf_weights()),
    ensures
        tree.is_optimal(),
{
    assert forall|other: HuffmanTree<T>| other.leaf_weights() == tree.leaf_weights() implies
        tree.cost() <= #[trigger] other.cost() by {
        lemma_cost_lower_bound(other);
    }
}

} // verus!
