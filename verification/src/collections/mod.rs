//! Collections: an immutable chunk, a double-ended mutable list, a prefix trie
//! and hash sets.
pub mod chunk;
pub mod mutable_list;
pub mod trie;
pub mod hash_set;
