//! Prefix-free codes that come from no tree: every such code for a
//! distribution is at least as long, weighted by the weights, as some tree
//! over the same leaves is costly. With the optimality of the tree that is
//! built, no prefix-free code at all is shorter than its codes.

use crate::laws::{
    lemma_cost_is_weighted_code_length, lemma_cost_one_deeper, lemma_distinct_symbols,
    lemma_leaves, lemma_leaves_nonempty, lemma_optimal_among_same_leaves, symbols_occur_once,
};
use crate::symbols::total_weight;
use crate::types::{Bit, HuffmanTree};
use vstd::prelude::*;

verus! {

/// No code of an entry is a prefix of the code of another entry, where
/// `codes` gives each symbol its code. This holds of no list in which a
/// symbol stands twice.
pub open spec fn prefix_free_on<T>(codes: spec_fn(T) -> Seq<Bit>, entries: Seq<(T, u64)>) -> bool {
    forall|i: int, j: int|
        0 <= i < entries.len() && 0 <= j < entries.len() && i != j ==> !(#[trigger] code_at(
            codes,
            entries,
            i,
        )).is_prefix_of(#[trigger] code_at(codes, entries, j))
}

/// The code of the symbol of the entry at `i`.
pub open spec fn code_at<T>(codes: spec_fn(T) -> Seq<Bit>, entries: Seq<(T, u64)>, i: int) -> Seq<
    Bit,
> {
    codes(entries[i].0)
}

/// The weighted length of a code: the sum over the entries of weight times
/// the length of the symbol's code.
pub open spec fn code_length<T>(entries: Seq<(T, u64)>, codes: spec_fn(T) -> Seq<Bit>) -> nat
    decreases entries.len(),
{
    if entries.len() == 0 {
        0
    } else {
        code_length(entries.drop_last(), codes) + entries.last().1 as nat * codes(
            entries.last().0,
        ).len()
    }
}

/// The number of bits of all codes of the entries together.
spec fn code_size<T>(entries: Seq<(T, u64)>, codes: spec_fn(T) -> Seq<Bit>) -> nat
    decreases entries.len(),
{
    if entries.len() == 0 {
        0
    } else {
        code_size(entries.drop_last(), codes) + codes(entries.last().0).len()
    }
}

/// The entries whose code begins with `bit`, in their order.
spec fn side<T>(entries: Seq<(T, u64)>, codes: spec_fn(T) -> Seq<Bit>, bit: Bit) -> Seq<(T, u64)>
    decreases entries.len(),
{
    if entries.len() == 0 {
        Seq::empty()
    } else {
        let before = side(entries.drop_last(), codes, bit);
        let code = codes(entries.last().0);
        if code.len() > 0 && code[0] == bit {
            before.push(entries.last())
        } else {
            before
        }
    }
}

/// Every code without its first bit.
spec fn stripped<T>(codes: spec_fn(T) -> Seq<Bit>) -> spec_fn(T) -> Seq<Bit> {
    |s: T| codes(s).drop_first()
}

/// Every entry has a code of at least one bit.
spec fn all_nonempty<T>(entries: Seq<(T, u64)>, codes: spec_fn(T) -> Seq<Bit>) -> bool {
    forall|i: int| 0 <= i < entries.len() ==> (#[trigger] code_at(codes, entries, i)).len() > 0
}

/// The two sides hold all entries between them, and each code is one bit
/// longer than what is left of it.
proof fn lemma_sides_split<T>(entries: Seq<(T, u64)>, codes: spec_fn(T) -> Seq<Bit>)
    requires
        all_nonempty(entries, codes),
    ensures
        ({
            let left = side(entries, codes, Bit::L);
            let right = side(entries, codes, Bit::R);
            let rest = stripped(codes);
            &&& left.len() + right.len() == entries.len()
            &&& entries.to_multiset() == left.to_multiset().add(right.to_multiset())
            &&& total_weight(entries) == total_weight(left) + total_weight(right)
            &&& code_length(entries, codes) == code_length(left, rest) + total_weight(left)
                + code_length(right, rest) + total_weight(right)
            &&& code_size(entries, codes) == code_size(left, rest) + left.len() + code_size(
                right,
                rest,
            ) + right.len()
        }),
    decreases entries.len(),
{
    let left = side(entries, codes, Bit::L);
    let right = side(entries, codes, Bit::R);
    let rest = stripped(codes);
    if entries.len() == 0 {
        assert(entries == left && entries == right);
        entries.to_multiset_ensures();
        vstd::multiset::lemma_multiset_empty_len(entries.to_multiset());
    } else {
        let shorter = entries.drop_last();
        let last = entries.last();
        let code = codes(last.0);
        assert forall|i: int| 0 <= i < shorter.len() implies (#[trigger] code_at(
            codes,
            shorter,
            i,
        )).len() > 0 by {
            assert(code_at(codes, shorter, i) == code_at(codes, entries, i));
        }
        lemma_sides_split(shorter, codes);
        assert(code == code_at(codes, entries, entries.len() - 1));
        assert(entries == shorter.push(last));
        vstd::seq_lib::to_multiset_build(shorter, last);
        let weight = last.1 as nat;
        assert(weight * code.len() == weight * rest(last.0).len() + weight) by (nonlinear_arith)
            requires
                rest(last.0).len() + 1 == code.len(),
        ;
        if code[0] == Bit::L {
            let before = side(shorter, codes, Bit::L);
            assert(left.drop_last() == before);
            vstd::seq_lib::to_multiset_build(before, last);
        } else {
            let before = side(shorter, codes, Bit::R);
            assert(right.drop_last() == before);
            vstd::seq_lib::to_multiset_build(before, last);
        }
    }
}

/// `first` stands in the list before `second`.
spec fn in_order<T>(entries: Seq<(T, u64)>, first: (T, u64), second: (T, u64)) -> bool {
    exists|k: int, l: int|
        0 <= k < l < entries.len() && #[trigger] entries[k] == first && #[trigger] entries[l]
            == second
}

/// A side holds entries of the list, in their order, and their codes begin
/// with the side's bit.
proof fn lemma_side_entries<T>(entries: Seq<(T, u64)>, codes: spec_fn(T) -> Seq<Bit>, bit: Bit)
    ensures
        forall|i: int|
            0 <= i < side(entries, codes, bit).len() ==> (#[trigger] code_at(
                codes,
                side(entries, codes, bit),
                i,
            )).len() > 0 && code_at(codes, side(entries, codes, bit), i)[0] == bit,
        forall|i: int, j: int|
            0 <= i < j < side(entries, codes, bit).len() ==> #[trigger] in_order(
                entries,
                side(entries, codes, bit)[i],
                side(entries, codes, bit)[j],
            ),
        forall|i: int|
            0 <= i < side(entries, codes, bit).len() ==> entries.contains(
                #[trigger] side(entries, codes, bit)[i],
            ),
    decreases entries.len(),
{
    let part = side(entries, codes, bit);
    if entries.len() > 0 {
        let shorter = entries.drop_last();
        let before = side(shorter, codes, bit);
        let last = entries.last();
        lemma_side_entries(shorter, codes, bit);
        assert forall|i: int| 0 <= i < part.len() implies entries.contains(#[trigger] part[i]) by {
            if i < before.len() {
                let k = choose|k: int| 0 <= k < shorter.len() && shorter[k] == before[i];
                assert(entries[k] == part[i]);
            } else {
                assert(entries[entries.len() - 1] == part[i]);
            }
        }
        assert forall|i: int, j: int| 0 <= i < j < part.len() implies #[trigger] in_order(
            entries,
            part[i],
            part[j],
        ) by {
            if j < before.len() {
                assert(in_order(shorter, before[i], before[j]));
                let (k, l) = choose|k: int, l: int|
                    0 <= k < l < shorter.len() && #[trigger] shorter[k] == before[i]
                        && #[trigger] shorter[l] == before[j];
                assert(entries[k] == part[i] && entries[l] == part[j]);
            } else {
                let k = choose|k: int| 0 <= k < shorter.len() && shorter[k] == before[i];
                assert(entries[k] == part[i] && entries[entries.len() - 1] == part[j]);
            }
        }
        assert forall|i: int| 0 <= i < part.len() implies (#[trigger] code_at(codes, part, i)).len()
            > 0 && code_at(codes, part, i)[0] == bit by {
            if i < before.len() {
                assert(code_at(codes, part, i) == code_at(codes, before, i));
            }
        }
    }
}

/// A code is a prefix of another if it is so behind a common first bit.
proof fn lemma_prefix_behind_first_bit(x: Seq<Bit>, y: Seq<Bit>)
    requires
        x.len() > 0,
        y.len() > 0,
        x[0] == y[0],
        x.drop_first().is_prefix_of(y.drop_first()),
    ensures
        x.is_prefix_of(y),
{
    let short = x.drop_first();
    let long = y.drop_first();
    assert(x =~= y.subrange(0, x.len() as int)) by {
        assert forall|i: int| 0 <= i < x.len() implies x[i] == y[i] by {
            if i > 0 {
                assert(short[i - 1] == long.subrange(0, short.len() as int)[i - 1]);
            }
        }
    }
}

/// What is left of the codes of a side is prefix-free again.
proof fn lemma_side_prefix_free<T>(entries: Seq<(T, u64)>, codes: spec_fn(T) -> Seq<Bit>, bit: Bit)
    requires
        prefix_free_on(codes, entries),
    ensures
        prefix_free_on(stripped(codes), side(entries, codes, bit)),
{
    let part = side(entries, codes, bit);
    let rest = stripped(codes);
    lemma_side_entries(entries, codes, bit);
    assert forall|i: int, j: int|
        0 <= i < part.len() && 0 <= j < part.len() && i != j implies !(#[trigger] code_at(
        rest,
        part,
        i,
    )).is_prefix_of(#[trigger] code_at(rest, part, j)) by {
        let x = code_at(codes, part, i);
        let y = code_at(codes, part, j);
        if i < j {
            assert(in_order(entries, part[i], part[j]));
            let (k, l) = choose|k: int, l: int|
                0 <= k < l < entries.len() && #[trigger] entries[k] == part[i]
                    && #[trigger] entries[l] == part[j];
            assert(x == code_at(codes, entries, k) && y == code_at(codes, entries, l));
        } else {
            assert(in_order(entries, part[j], part[i]));
            let (k, l) = choose|k: int, l: int|
                0 <= k < l < entries.len() && #[trigger] entries[k] == part[j]
                    && #[trigger] entries[l] == part[i];
            assert(x == code_at(codes, entries, l) && y == code_at(codes, entries, k));
        }
        if x.drop_first().is_prefix_of(y.drop_first()) {
            lemma_prefix_behind_first_bit(x, y);
        }
    }
}

/// Among two or more prefix-free codes none is empty.
proof fn lemma_codes_nonempty<T>(entries: Seq<(T, u64)>, codes: spec_fn(T) -> Seq<Bit>)
    requires
        prefix_free_on(codes, entries),
        entries.len() >= 2,
    ensures
        all_nonempty(entries, codes),
{
    assert forall|i: int| 0 <= i < entries.len() implies (#[trigger] code_at(
        codes,
        entries,
        i,
    )).len() > 0 by {
        let j = if i == 0 {
            1int
        } else {
            0int
        };
        let x = code_at(codes, entries, i);
        let y = code_at(codes, entries, j);
        if x.len() == 0 {
            assert(x =~= y.subrange(0, 0));
        }
    }
}

/// For every prefix-free code there is a tree over the same entries that
/// costs no more than the code is long.
proof fn lemma_tree_of_codes<T>(entries: Seq<(T, u64)>, codes: spec_fn(T) -> Seq<Bit>) -> (tree:
    HuffmanTree<T>)
    requires
        entries.len() > 0,
        prefix_free_on(codes, entries),
    ensures
        tree.leaf_bag() == entries.to_multiset(),
        tree.total() == total_weight(entries),
        tree.cost() <= code_length(entries, codes),
    decreases code_size(entries, codes), entries.len(),
{
    if entries.len() == 1 {
        let (symbol, p) = entries[0];
        assert(entries == Seq::<(T, u64)>::empty().push((symbol, p)));
        vstd::seq_lib::to_multiset_build(Seq::<(T, u64)>::empty(), (symbol, p));
        Seq::<(T, u64)>::empty().to_multiset_ensures();
        assert(total_weight(entries.drop_last()) == 0);
        HuffmanTree::Leaf { p, symbol }
    } else {
        let left = side(entries, codes, Bit::L);
        let right = side(entries, codes, Bit::R);
        let rest = stripped(codes);
        lemma_codes_nonempty(entries, codes);
        lemma_sides_split(entries, codes);
        lemma_side_prefix_free(entries, codes, Bit::L);
        lemma_side_prefix_free(entries, codes, Bit::R);
        left.to_multiset_ensures();
        right.to_multiset_ensures();
        if left.len() == 0 {
            lemma_tree_of_codes(right, rest)
        } else if right.len() == 0 {
            lemma_tree_of_codes(left, rest)
        } else {
            let left_tree = lemma_tree_of_codes(left, rest);
            let right_tree = lemma_tree_of_codes(right, rest);
            lemma_cost_one_deeper(left_tree, 0);
            lemma_cost_one_deeper(right_tree, 0);
            HuffmanTree::Node { p: 0, left: Box::new(left_tree), right: Box::new(right_tree) }
        }
    }
}

/// Optimality among all prefix-free codes: the weighted path length of an
/// optimal tree is no more than the weighted length of any prefix-free code
/// for its leaves.
pub proof fn lemma_optimal_among_prefix_codes<T>(
    tree: HuffmanTree<T>,
    entries: Seq<(T, u64)>,
    codes: spec_fn(T) -> Seq<Bit>,
)
    requires
        tree.is_optimal(),
        tree.leaf_bag() == entries.to_multiset(),
        prefix_free_on(codes, entries),
    ensures
        tree.cost() <= code_length(entries, codes),
{
    entries.to_multiset_ensures();
    lemma_leaves(tree);
    tree.leaves().to_multiset_ensures();
    assert(tree.leaves().len() > 0) by {
        lemma_leaves_nonempty(tree);
    }
    let other = lemma_tree_of_codes(entries, codes);
    lemma_optimal_among_same_leaves(tree, other);
}

/// The codes that a tree gives to its symbols.
pub open spec fn codes_of<T>(tree: HuffmanTree<T>) -> spec_fn(T) -> Seq<Bit> {
    |s: T| tree.code_of(s)
}

/// The weighted length of two lists is the sum of their weighted lengths.
proof fn lemma_code_length_concat<T>(
    a: Seq<(T, u64)>,
    b: Seq<(T, u64)>,
    codes: spec_fn(T) -> Seq<Bit>,
)
    ensures
        code_length(a + b, codes) == code_length(a, codes) + code_length(b, codes),
    decreases b.len(),
{
    if b.len() == 0 {
        assert(a + b == a);
    } else {
        assert((a + b).drop_last() == a + b.drop_last());
        lemma_code_length_concat(a, b.drop_last(), codes);
    }
}

/// Summed over the leaves from left to right or down the tree, the weighted
/// code length is the same.
proof fn lemma_code_length_of_leaves<T>(branch: HuffmanTree<T>, root: HuffmanTree<T>)
    ensures
        branch.weighted_code_length(root) == code_length(branch.leaves(), codes_of(root)),
    decreases branch,
{
    match branch {
        HuffmanTree::Node { left, right, .. } => {
            lemma_code_length_of_leaves(*left, root);
            lemma_code_length_of_leaves(*right, root);
            lemma_code_length_concat(left.leaves(), right.leaves(), codes_of(root));
        },
        HuffmanTree::Leaf { .. } => {
            assert(code_length(branch.leaves().drop_last(), codes_of(root)) == 0);
        },
    }
}

/// The weighted length of a code does not depend on the order of the
/// entries.
proof fn lemma_code_length_any_order<T>(
    a: Seq<(T, u64)>,
    b: Seq<(T, u64)>,
    codes: spec_fn(T) -> Seq<Bit>,
)
    requires
        a.to_multiset() == b.to_multiset(),
    ensures
        code_length(a, codes) == code_length(b, codes),
    decreases a.len(),
{
    a.to_multiset_ensures();
    b.to_multiset_ensures();
    if a.len() == 0 {
        assert(b.len() == 0);
    } else {
        let entry = a.last();
        let shorter = a.drop_last();
        assert(a == shorter.push(entry));
        assert(b.contains(entry)) by {
            assert(a.to_multiset().count(entry) > 0);
        }
        let j = choose|j: int| 0 <= j < b.len() && b[j] == entry;
        let other = b.remove(j);
        shorter.to_multiset_ensures();
        assert(shorter.to_multiset() =~= other.to_multiset());
        lemma_code_length_any_order(shorter, other, codes);
        let front = b.take(j);
        let back = b.skip(j + 1);
        let one = seq![entry];
        assert(b == front + one + back);
        lemma_code_length_concat(front, back, codes);
        lemma_code_length_concat(front, one, codes);
        lemma_code_length_concat(front + one, back, codes);
        assert(code_length(one.drop_last(), codes) == 0);
    }
}

/// In a list with prefix-free codes no symbol stands twice.
proof fn lemma_symbols_once<T>(entries: Seq<(T, u64)>, codes: spec_fn(T) -> Seq<Bit>)
    requires
        prefix_free_on(codes, entries),
    ensures
        symbols_occur_once(entries.to_multiset()),
{
    let bag = entries.to_multiset();
    entries.to_multiset_ensures();
    assert forall|i: int, j: int| 0 <= i < j < entries.len() implies entries[i].0
        != entries[j].0 by {
        let x = code_at(codes, entries, i);
        let y = code_at(codes, entries, j);
        if entries[i].0 == entries[j].0 {
            assert(x =~= y.subrange(0, x.len() as int));
        }
    }
    entries.lemma_multiset_has_no_duplicates();
    assert forall|s: T, v: u64, w: u64| bag.count((s, v)) > 0 && bag.count((s, w)) > 0 implies v
        == w && #[trigger] bag.count((s, v)) + #[trigger] bag.count((s, w)) == 2 by {
        let i = choose|i: int| 0 <= i < entries.len() && entries[i] == (s, v);
        let j = choose|j: int| 0 <= j < entries.len() && entries[j] == (s, w);
        assert(entries[i].0 == entries[j].0);
    }
}

/// Optimality of the code: the codes of an optimal tree are, weighted by the
/// weights of the symbols, no longer than the codes of any prefix-free code
/// for the same symbols.
pub proof fn lemma_shortest_code<T>(
    tree: HuffmanTree<T>,
    entries: Seq<(T, u64)>,
    codes: spec_fn(T) -> Seq<Bit>,
)
    requires
        tree.is_optimal(),
        tree.leaf_bag() == entries.to_multiset(),
        prefix_free_on(codes, entries),
    ensures
        code_length(entries, codes_of(tree)) == tree.cost(),
        code_length(entries, codes_of(tree)) <= code_length(entries, codes),
{
    lemma_optimal_among_prefix_codes(tree, entries, codes);
    lemma_symbols_once(entries, codes);
    lemma_distinct_symbols(tree);
    lemma_cost_is_weighted_code_length(tree);
    lemma_code_length_of_leaves(tree, tree);
    lemma_leaves(tree);
    lemma_code_length_any_order(tree.leaves(), entries, codes_of(tree));
}

} // verus!
