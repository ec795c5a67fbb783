//! Huffman coding over integer symbol weights: counting the symbols of a
//! text, building the code tree with a first-in tie-break, reading the code
//! table off the tree, holding a weight table against a code table, and
//! writing and reading texts with a code table.
//!
//! A table is a vector of pairs of a symbol and its count, weight or code.
//! It keeps the order in which its entries were made, and that order decides
//! between equally light nodes when the tree is built.

pub mod coding;
pub mod errors;
pub mod nodes;
pub mod proofs;
pub mod utils;
