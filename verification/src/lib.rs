//! In-memory ordered indexes from byte-string keys to byte-string values:
//! a skip list and an adaptive radix trie. Both keep their keys in
//! lexicographic byte order, store their bytes in an append-only arena of
//! fixed capacity, and never remove anything. Every operation is verified
//! against a map model of the index.
//!
//! An index has a single owner: `put` takes it by mutable reference, reads
//! and cursors take it by shared reference.

pub mod arena;
pub mod error;
pub mod keys;
pub mod radix;
pub mod skiplist;
