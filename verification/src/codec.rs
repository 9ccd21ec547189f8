//! Encoding symbols to bits with a code table, and decoding bits back to
//! symbols by walking the tree.

use crate::funcs::{generate_table, generate_tree, has_leaves_of, is_table_of};
use crate::laws::{lemma_table_complete, lemma_table_encodes_as_tree};
use crate::symbols::{
    distribution_entries, distribution_total, from_symbol_iter, lemma_listing_bag,
    SymbolDistribution,
};
use crate::types::{Bit, HuffmanCode, HuffmanError, HuffmanTable, HuffmanTree};
use std::hash::Hash;
use vstd::prelude::*;
use vstd::std_specs::hash::obeys_key_model;

verus! {

/// The codes of `symbols` under `table`, one after another.
pub open spec fn encoded<T>(table: Map<T, Vec<Bit>>, symbols: Seq<T>) -> Seq<Bit>
    decreases symbols.len(),
{
    if symbols.len() == 0 {
        Seq::empty()
    } else {
        table[symbols.first()]@ + encoded(table, symbols.drop_first())
    }
}

/// Every one of `symbols` has a code in `table`.
pub open spec fn all_known<T>(table: Map<T, Vec<Bit>>, symbols: Seq<T>) -> bool {
    forall|i: int| 0 <= i < symbols.len() ==> table.contains_key(#[trigger] symbols[i])
}

/// Encoding one more symbol appends its code.
proof fn lemma_encoded_push<T>(table: Map<T, Vec<Bit>>, symbols: Seq<T>, symbol: T)
    ensures
        encoded(table, symbols.push(symbol)) == encoded(table, symbols) + table[symbol]@,
    decreases symbols.len(),
{
    let longer = symbols.push(symbol);
    if symbols.len() == 0 {
        assert(encoded(table, longer.drop_first()) == Seq::<Bit>::empty());
    } else {
        assert(longer.drop_first() == symbols.drop_first().push(symbol));
        lemma_encoded_push(table, symbols.drop_first(), symbol);
    }
}

/// Encodes `symbols` with `table`: the code of each symbol, in order. Fails
/// at the first symbol that has no code.
pub fn encode<T>(table: &HuffmanTable<T>, symbols: &[T]) -> (result: Result<
    HuffmanCode,
    HuffmanError<T>,
>) where T: Eq + Copy + Hash
    requires
        obeys_key_model::<T>(),
    ensures
        match result {
            Ok(code) => all_known(table@, symbols@) && code@ == encoded(table@, symbols@),
            Err(e) => exists|i: int|
                0 <= i < symbols.len() && all_known(table@, symbols@.take(i))
                    && !table@.contains_key(#[trigger] symbols[i]) && e
                    == HuffmanError::SymbolNotFound(symbols[i]),
        },
{
    broadcast use vstd::std_specs::hash::group_hash_axioms;

    let mut code: HuffmanCode = Vec::new();
    let mut i: usize = 0;
    while i < symbols.len()
        invariant
            obeys_key_model::<T>(),
            i <= symbols.len(),
            all_known(table@, symbols@.take(i as int)),
            code@ == encoded(table@, symbols@.take(i as int)),
        decreases symbols.len() - i,
    {
        let symbol = symbols[i];
        match table.get(&symbol) {
            Some(bits) => {
                let ghost before = code@;
                let mut j: usize = 0;
                while j < bits.len()
                    invariant
                        j <= bits.len(),
                        code@ == before + bits@.take(j as int),
                    decreases bits.len() - j,
                {
                    code.push(bits[j]);
                    j += 1;
                }
                proof {
                    assert(symbols@.take(i + 1) == symbols@.take(i as int).push(symbol));
                    lemma_encoded_push(table@, symbols@.take(i as int), symbol);
                }
            },
            None => {
                return Err(HuffmanError::SymbolNotFound(symbol));
            },
        }
        i += 1;
    }
    assert(symbols@.take(i as int) == symbols@);
    Ok(code)
}

/// `prefix` followed by `rest`, where there is a rest.
spec fn prepend<T>(prefix: Seq<T>, rest: Option<Seq<T>>) -> Option<Seq<T>> {
    match rest {
        Some(rest) => Some(prefix + rest),
        None => None,
    }
}

/// What `bits` decode to when the walk through `tree` already stands at the
/// inner node `cursor`: the symbol that the walk reaches from there, then
/// what the remaining bits decode to from the root.
spec fn resumed<T>(tree: HuffmanTree<T>, cursor: HuffmanTree<T>, bits: Seq<Bit>) -> Option<
    Seq<T>,
> {
    match cursor.first_symbol(bits) {
        Some((symbol, used)) => prepend(seq![symbol], tree.decoded(bits.skip(used as int))),
        None => None,
    }
}

/// Decodes `code` by walking `tree`: each bit moves a cursor to the left or
/// right child; at a leaf the leaf's symbol is put out and the cursor goes
/// back to the root. Fails if the bits end while the cursor is inside the
/// tree, or if there are bits but the tree is a lone leaf.
pub fn decode<T>(tree: &HuffmanTree<T>, code: &[Bit]) -> (result: Result<Vec<T>, HuffmanError<T>>)
    where T: Copy
    ensures
        match result {
            Ok(symbols) => tree.decoded(code@) == Some(symbols@),
            Err(e) => tree.decoded(code@) is None && e == HuffmanError::<T>::MalformedCode,
        },
{
    let mut symbols: Vec<T> = Vec::new();
    let mut cursor: &HuffmanTree<T> = tree;
    let mut inside: bool = false;
    let mut i: usize = 0;
    assert(code@.skip(0) == code@);
    while i < code.len()
        invariant
            i <= code.len(),
            !inside ==> *cursor == *tree && tree.decoded(code@) == prepend(
                symbols@,
                tree.decoded(code@.skip(i as int)),
            ),
            inside ==> cursor is Node && tree.decoded(code@) == prepend(
                symbols@,
                resumed(*tree, *cursor, code@.skip(i as int)),
            ),
        decreases code.len() - i,
    {
        let ghost bits = code@.skip(i as int);
        assert(bits.drop_first() == code@.skip(i + 1));
        match cursor {
            HuffmanTree::Node { p: _, left, right } => {
                let next: &HuffmanTree<T> = match code[i] {
                    Bit::L => &**left,
                    Bit::R => &**right,
                };
                match next {
                    HuffmanTree::Leaf { p: _, symbol } => {
                        symbols.push(*symbol);
                        cursor = tree;
                        inside = false;
                    },
                    HuffmanTree::Node { .. } => {
                        proof {
                            next.lemma_first_symbol_within(bits.drop_first());
                            match next.first_symbol(bits.drop_first()) {
                                Some((symbol, used)) => {
                                    assert(bits.skip(used as int + 1) == bits.drop_first().skip(
                                        used as int,
                                    ));
                                },
                                None => {},
                            }
                        }
                        cursor = next;
                        inside = true;
                    },
                }
            },
            HuffmanTree::Leaf { .. } => {
                return Err(HuffmanError::MalformedCode);
            },
        }
        i += 1;
    }
    if inside {
        Err(HuffmanError::MalformedCode)
    } else {
        Ok(symbols)
    }
}

/// A Huffman code: a tree, for decoding, and its code table, for encoding.
pub struct Huffman<T> {
    tree: HuffmanTree<T>,
    table: HuffmanTable<T>,
}

impl<T> View for Huffman<T> {
    type V = HuffmanTree<T>;

    /// A code is known by its tree.
    closed spec fn view(&self) -> HuffmanTree<T> {
        self.tree
    }
}

impl<T> Huffman<T> {
    /// The table is the code table of the tree.
    #[verifier::type_invariant]
    spec fn consistent(self) -> bool {
        &&& obeys_key_model::<T>()
        &&& is_table_of(self.table@, self.tree)
    }
}

impl<T: Eq + Copy + Hash> Huffman<T> {
    /// Builds the code of a distribution: the tree by merging the two
    /// lightest trees again and again, and the table from the tree.
    pub fn from_symbol_dist(symbol_dist: SymbolDistribution<T>) -> (huffman: Self)
        requires
            obeys_key_model::<T>(),
            symbol_dist@.len() > 0,
            distribution_total(symbol_dist@) <= u64::MAX,
        ensures
            huffman@.well_formed(),
            huffman@.lighter_left(),
            huffman@.distinct_symbols(),
            has_leaves_of(huffman@, symbol_dist@),
            huffman@.weight() == distribution_total(symbol_dist@),
            huffman@.is_optimal(),
    {
        let symbols = distribution_entries(&symbol_dist);
        let tree = generate_tree(symbols);
        let table = generate_table(&tree);
        proof {
            lemma_listing_bag(symbols@, symbol_dist@);
            lemma_table_complete(table@, tree, symbol_dist@);
        }
        Huffman { tree, table }
    }

    /// Builds the code of the distribution of `symbols`, in which the weight
    /// of a symbol is the number of times it occurs.
    pub fn from_symbols(symbols: &[T]) -> (result: Result<Self, HuffmanError<T>>)
        requires
            obeys_key_model::<T>(),
        ensures
            match result {
                Ok(huffman) => {
                    &&& symbols.len() > 0
                    &&& huffman@.well_formed()
                    &&& huffman@.lighter_left()
                    &&& huffman@.distinct_symbols()
                    &&& huffman@.weight() == symbols.len()
                    &&& huffman@.is_optimal()
                    &&& forall|s: T, w: u64| #[trigger]
                        huffman@.leaf_bag().count((s, w)) == if symbols@.contains(s) && w
                            == symbols@.to_multiset().count(s) {
                            1nat
                        } else {
                            0nat
                        }
                },
                Err(e) => symbols.len() == 0 && e == HuffmanError::<T>::EmptyInput,
            },
    {
        match from_symbol_iter(symbols) {
            Ok(symbol_dist) => {
                assert(symbol_dist@.contains_key(symbols[0]));
                let huffman = Huffman::from_symbol_dist(symbol_dist);
                assert forall|s: T, w: u64| #[trigger]
                    huffman@.leaf_bag().count((s, w)) == if symbols@.contains(s) && w
                        == symbols@.to_multiset().count(s) {
                        1nat
                    } else {
                        0nat
                    } by {
                    assert(symbol_dist@.contains_key(s) <==> symbols@.contains(s));
                }
                Ok(huffman)
            },
            Err(_) => Err(HuffmanError::EmptyInput),
        }
    }

    /// The tree of this code.
    pub fn tree(&self) -> (tree: &HuffmanTree<T>)
        ensures
            *tree == self@,
    {
        &self.tree
    }

    /// The code table of this code.
    pub fn table(&self) -> (table: &HuffmanTable<T>)
        ensures
            is_table_of(table@, self@),
    {
        proof {
            use_type_invariant(self);
        }
        &self.table
    }

    /// Whether the alphabet has only one symbol. Then the tree is a lone leaf
    /// and the code of the symbol is empty: encoding gives no bits, and no
    /// symbol can be decoded from bits.
    pub fn is_degenerate(&self) -> (degenerate: bool)
        ensures
            degenerate == (self@ is Leaf),
    {
        match &self.tree {
            HuffmanTree::Leaf { .. } => true,
            HuffmanTree::Node { .. } => false,
        }
    }

    /// Encodes `symbols`: the code of each symbol, in order. Fails at the
    /// first symbol that the tree does not carry.
    pub fn encode(&self, symbols: &[T]) -> (result: Result<HuffmanCode, HuffmanError<T>>)
        ensures
            match result {
                Ok(code) => {
                    &&& forall|i: int|
                        0 <= i < symbols.len() ==> self@.has_symbol(#[trigger] symbols[i])
                    &&& code@ == self@.encoded(symbols@)
                },
                Err(e) => exists|i: int|
                    0 <= i < symbols.len() && !self@.has_symbol(#[trigger] symbols[i]) && e
                        == HuffmanError::SymbolNotFound(symbols[i]) && forall|j: int|
                        0 <= j < i ==> self@.has_symbol(#[trigger] symbols[j]),
            },
    {
        proof {
            use_type_invariant(self);
        }
        let result = encode(&self.table, symbols);
        proof {
            match result {
                Ok(_) => {
                    lemma_table_encodes_as_tree(self.table@, self.tree, symbols@);
                },
                Err(_) => {
                    let i = choose|i: int|
                        0 <= i < symbols.len() && all_known(self.table@, symbols@.take(i))
                            && !self.table@.contains_key(#[trigger] symbols[i]) && result
                            == Err::<HuffmanCode, _>(HuffmanError::SymbolNotFound(symbols[i]));
                    assert forall|j: int| 0 <= j < i implies self@.has_symbol(
                        #[trigger] symbols[j],
                    ) by {
                        assert(symbols@.take(i)[j] == symbols[j]);
                    }
                },
            }
        }
        result
    }

    /// Decodes `code` by walking the tree. Fails if the bits end in the
    /// middle of a code, or if there are bits but the tree is a lone leaf.
    pub fn decode(&self, code: &[Bit]) -> (result: Result<Vec<T>, HuffmanError<T>>)
        ensures
            match result {
                Ok(symbols) => self@.decoded(code@) == Some(symbols@),
                Err(e) => self@.decoded(code@) is None && e == HuffmanError::<T>::MalformedCode,
            },
    {
        decode(&self.tree, code)
    }
}

} // verus!
