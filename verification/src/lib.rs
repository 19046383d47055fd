//! Longest-prefix-match stores for IP prefixes: a multibit tree-bitmap,
//! a binary trie and a path-compressed trie, with their contracts
//! stated over one shared model of prefixes and matches.

pub mod bitset;
pub mod common;
pub mod error;
pub mod identity;
pub mod laws;
pub mod lpm;
pub mod nodes;
pub mod radixtrie;
pub mod treebitmap;
pub mod triebitvec;
pub mod word;
