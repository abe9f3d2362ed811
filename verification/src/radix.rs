//! Adaptive radix trie: the node family and the trie built from it.

pub mod dense;
pub mod iter;
pub mod node;
pub mod node_16;
pub mod node_256;
pub mod node_4;
pub mod node_48;
pub mod scan;
pub mod tree;
