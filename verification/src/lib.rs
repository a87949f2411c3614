//! Collection of basic algorithms for everyday development, with verified
//! implementations and contracts.

/// Binary search algorithm.
pub mod binary_search;
/// Binary Tree
pub mod binary_tree;
/// DSU (disjoint-set-union)
pub mod dsu;
/// Huffman Coding
pub mod huffman;
/// Mathematics algorithms
pub mod math;
/// Segment Tree
pub mod segment_tree;
/// Sheduling algorithms
pub mod sheduling;
/// Sparse table
pub mod sparse_table;
/// String-searching algorithms.
pub mod string;
/// Trie or prefix tree
pub mod trie;
