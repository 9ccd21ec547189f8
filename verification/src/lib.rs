//! Huffman coding: optimal prefix-free binary codes for a stream of symbols.
//!
//! Symbol frequencies are kept as exact integer weights (occurrence counts);
//! a symbol's probability is its weight divided by the total weight.
//!
//! - [`symbols`] and [`funcs::symbol_probabilities`] count the symbols of a
//!   text.
//! - [`funcs::generate_tree`] builds the tree of a distribution and
//!   [`funcs::generate_table`] the code table of a tree.
//! - [`codec`] encodes symbols with a table and decodes bits with a tree;
//!   [`codec::Huffman`] holds both.
//! - [`laws`], [`optimal`] and [`prefix_codes`] prove what holds of all of
//!   these: codes are prefix-free, decoding undoes encoding, and no
//!   prefix-free code is shorter, weighted by the weights, than the codes of
//!   the tree that is built.

pub mod codec;
mod forest;
pub mod funcs;
pub mod laws;
pub mod optimal;
pub mod prefix_codes;
pub mod symbols;
pub mod types;
