//! The data model: bits, codes, and the binary frequency tree.

use std::collections::HashMap;
use vstd::multiset::Multiset;
use vstd::prelude::*;

verus! {

/// A code: the bits of a path from the root of a tree to one of its leaves,
/// or several such paths one after another.
pub type HuffmanCode = Vec<Bit>;

/// The code table of a tree: the code of every symbol that the tree carries.
pub type HuffmanTable<T> = HashMap<T, Vec<Bit>>;

/// One traversal direction in the tree: towards the left or the right child.
#[derive(Clone, Copy, Debug, PartialEq, Eq, Structural)]
pub enum Bit {
    /// Towards the left child.
    L,
    /// Towards the right child.
    R,
}

/// The ways in which an operation of this library can fail.
#[derive(Debug, PartialEq, Eq)]
pub enum HuffmanError<T> {
    /// A distribution was asked for of no symbols at all.
    EmptyInput,
    /// The symbol has no code: it was not part of the distribution that the
    /// code was built from.
    SymbolNotFound(T),
    /// The bits end in the middle of a code, or cannot be followed in the tree.
    MalformedCode,
}

/// A binary frequency tree. A leaf carries one symbol and its weight; a node
/// carries the combined weight of its two children.
#[derive(Debug)]
pub enum HuffmanTree<T> {
    /// An inner node with its weight `p` and its two children.
    Node { p: u64, left: Box<Self>, right: Box<Self> },
    /// A leaf with its weight `p` and its symbol.
    Leaf { p: u64, symbol: T },
}

impl<T> HuffmanTree<T> {
    /// The weight stored at the root of this tree.
    pub open spec fn weight(self) -> nat {
        match self {
            HuffmanTree::Node { p, .. } => p as nat,
            HuffmanTree::Leaf { p, .. } => p as nat,
        }
    }

    /// The sum of the weights of all leaves of this tree.
    pub open spec fn total(self) -> nat
        decreases self,
    {
        match self {
            HuffmanTree::Node { left, right, .. } => left.total() + right.total(),
            HuffmanTree::Leaf { p, .. } => p as nat,
        }
    }

    /// Every node's weight is the sum of the weights of its two children.
    pub open spec fn well_formed(self) -> bool
        decreases self,
    {
        match self {
            HuffmanTree::Node { p, left, right } => {
                &&& p == left.weight() + right.weight()
                &&& left.well_formed()
                &&& right.well_formed()
            },
            HuffmanTree::Leaf { .. } => true,
        }
    }

    /// In every node the left child is no heavier than the right child.
    pub open spec fn lighter_left(self) -> bool
        decreases self,
    {
        match self {
            HuffmanTree::Node { left, right, .. } => {
                &&& left.weight() <= right.weight()
                &&& left.lighter_left()
                &&& right.lighter_left()
            },
            HuffmanTree::Leaf { .. } => true,
        }
    }

    /// The leaves of this tree, each as a (symbol, weight) pair, as a multiset.
    pub open spec fn leaf_bag(self) -> Multiset<(T, u64)>
        decreases self,
    {
        match self {
            HuffmanTree::Node { left, right, .. } => left.leaf_bag().add(right.leaf_bag()),
            HuffmanTree::Leaf { p, symbol } => Multiset::singleton((symbol, p)),
        }
    }

    /// The leaves of this tree from left to right, each as a (symbol, weight)
    /// pair.
    pub open spec fn leaves(self) -> Seq<(T, u64)>
        decreases self,
    {
        match self {
            HuffmanTree::Node { left, right, .. } => left.leaves() + right.leaves(),
            HuffmanTree::Leaf { p, symbol } => seq![(symbol, p)],
        }
    }

    /// The weights of the leaves of this tree, as a multiset.
    pub open spec fn leaf_weights(self) -> Multiset<nat>
        decreases self,
    {
        match self {
            HuffmanTree::Node { left, right, .. } => left.leaf_weights().add(right.leaf_weights()),
            HuffmanTree::Leaf { p, .. } => Multiset::singleton(p as nat),
        }
    }

    /// No symbol stands at two leaves of this tree.
    pub open spec fn distinct_symbols(self) -> bool
        decreases self,
    {
        match self {
            HuffmanTree::Node { left, right, .. } => {
                &&& left.distinct_symbols()
                &&& right.distinct_symbols()
                &&& forall|s: T| !(left.has_symbol(s) && right.has_symbol(s))
            },
            HuffmanTree::Leaf { .. } => true,
        }
    }

    /// Whether some leaf of this tree carries the symbol `s`.
    pub open spec fn has_symbol(self, s: T) -> bool
        decreases self,
    {
        match self {
            HuffmanTree::Node { left, right, .. } => left.has_symbol(s) || right.has_symbol(s),
            HuffmanTree::Leaf { symbol, .. } => symbol == s,
        }
    }

    /// The path from the root to the leaf that carries `s`: `L` for each step
    /// to a left child, `R` for each step to a right child. Where several
    /// leaves carry `s`, the rightmost one counts. Meaningful when
    /// `has_symbol(s)`.
    pub open spec fn code_of(self, s: T) -> Seq<Bit>
        decreases self,
    {
        match self {
            HuffmanTree::Node { left, right, .. } => {
                if right.has_symbol(s) {
                    seq![Bit::R] + right.code_of(s)
                } else {
                    seq![Bit::L] + left.code_of(s)
                }
            },
            HuffmanTree::Leaf { .. } => Seq::empty(),
        }
    }

    /// The codes of `symbols`, one after another.
    pub open spec fn encoded(self, symbols: Seq<T>) -> Seq<Bit>
        decreases symbols.len(),
    {
        if symbols.len() == 0 {
            Seq::empty()
        } else {
            self.code_of(symbols.first()) + self.encoded(symbols.drop_first())
        }
    }

    /// Follows `bits` from the root down to a leaf, and gives the leaf's symbol
    /// and the number of bits used; `None` if the bits run out before a leaf
    /// is reached.
    pub open spec fn first_symbol(self, bits: Seq<Bit>) -> Option<(T, nat)>
        decreases self,
    {
        match self {
            HuffmanTree::Node { left, right, .. } => {
                if bits.len() == 0 {
                    None
                } else {
                    let child = if bits[0] == Bit::L {
                        *left
                    } else {
                        *right
                    };
                    match child.first_symbol(bits.drop_first()) {
                        Some((symbol, used)) => Some((symbol, used + 1)),
                        None => None,
                    }
                }
            },
            HuffmanTree::Leaf { symbol, .. } => Some((symbol, 0)),
        }
    }

    /// The symbols that `bits` stand for: the bits are cut into the codes of
    /// leaves, from the front. `None` if the bits end in the middle of a code,
    /// or if there are bits but the tree is a lone leaf, which has no child to
    /// step to.
    pub open spec fn decoded(self, bits: Seq<Bit>) -> Option<Seq<T>>
        decreases bits.len(),
        via Self::decoded_decreases
    {
        if bits.len() == 0 {
            Some(Seq::empty())
        } else {
            match self.first_symbol(bits) {
                Some((symbol, used)) => {
                    if 0 < used {
                        match self.decoded(bits.skip(used as int)) {
                            Some(rest) => Some(seq![symbol] + rest),
                            None => None,
                        }
                    } else {
                        None
                    }
                },
                None => None,
            }
        }
    }

    #[via_fn]
    proof fn decoded_decreases(self, bits: Seq<Bit>) {
        self.lemma_first_symbol_within(bits);
    }

    /// A walk to a leaf uses no more bits than there are.
    pub proof fn lemma_first_symbol_within(self, bits: Seq<Bit>)
        ensures
            self.first_symbol(bits) matches Some((_, used)) ==> used <= bits.len(),
        decreases self,
    {
        match self {
            HuffmanTree::Node { left, right, .. } => {
                if bits.len() > 0 {
                    left.lemma_first_symbol_within(bits.drop_first());
                    right.lemma_first_symbol_within(bits.drop_first());
                }
            },
            HuffmanTree::Leaf { .. } => {},
        }
    }

    /// The sum, over all leaves, of the leaf's weight times its distance from
    /// the root, when the root itself is at distance `depth`.
    pub open spec fn cost_at(self, depth: nat) -> nat
        decreases self,
    {
        match self {
            HuffmanTree::Node { left, right, .. } => {
                left.cost_at(depth + 1) + right.cost_at(depth + 1)
            },
            HuffmanTree::Leaf { p, .. } => p as nat * depth,
        }
    }

    /// The sum, over the leaves of this tree, of the leaf's weight times the
    /// length of the code that `root` gives to the leaf's symbol.
    pub open spec fn weighted_code_length(self, root: HuffmanTree<T>) -> nat
        decreases self,
    {
        match self {
            HuffmanTree::Node { left, right, .. } => {
                left.weighted_code_length(root) + right.weighted_code_length(root)
            },
            HuffmanTree::Leaf { p, symbol } => p as nat * root.code_of(symbol).len(),
        }
    }

    /// The weighted path length of this tree: the sum, over all leaves, of
    /// weight times code length. Divided by the total weight it is the
    /// expected code length of a symbol.
    pub open spec fn cost(self) -> nat {
        self.cost_at(0)
    }

    /// Whether no tree over the same multiset of leaf weights has a smaller
    /// weighted path length.
    pub open spec fn is_optimal(self) -> bool {
        forall|other: HuffmanTree<T>|
            other.leaf_weights() == self.leaf_weights() ==> self.cost() <= #[trigger] other.cost()
    }

    /// The weight stored at the root of this tree.
    pub fn prob(&self) -> (p: u64)
        ensures
            p == self.weight(),
    {
        match self {
            HuffmanTree::Node { p, left: _, right: _ } => *p,
            HuffmanTree::Leaf { p, symbol: _ } => *p,
        }
    }

    /// Builds an internal node of weight `p` over two subtrees.
    pub fn new_node(p: u64, left: Self, right: Self) -> (tree: Self)
        ensures
            tree == (HuffmanTree::Node { p, left: Box::new(left), right: Box::new(right) }),
    {
        let left = Box::new(left);
        let right = Box::new(right);
        HuffmanTree::Node { p, left, right }
    }

    /// Builds a leaf for `symbol` with weight `p`.
    pub fn new_leaf(p: u64, symbol: T) -> (tree: Self)
        ensures
            tree == (HuffmanTree::Leaf { p, symbol }),
    {
        HuffmanTree::Leaf { p, symbol }
    }

    /// The left child, if this tree is a node.
    pub fn left(&self) -> (child: Option<&Self>)
        ensures
            match *self {
                HuffmanTree::Node { left, .. } => child == Some(&*left),
                HuffmanTree::Leaf { .. } => child is None,
            },
    {
        match self {
            HuffmanTree::Node { p: _, left, right: _ } => Some(&**left),
            HuffmanTree::Leaf { p: _, symbol: _ } => None,
        }
    }

    /// The right child, if this tree is a node.
    pub fn right(&self) -> (child: Option<&Self>)
        ensures
            match *self {
                HuffmanTree::Node { right, .. } => child == Some(&*right),
                HuffmanTree::Leaf { .. } => child is None,
            },
    {
        match self {
            HuffmanTree::Node { p: _, left: _, right } => Some(&**right),
            HuffmanTree::Leaf { p: _, symbol: _ } => None,
        }
    }
}

} // verus!
