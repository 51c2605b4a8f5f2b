//! A character-indexed prefix tree (trie) mapping string keys to string
//! values, with exact lookup, prefix existence checks, bounded autocomplete
//! enumeration, deletion with pruning of dead branches, and bulk loading.

pub mod laws;
pub mod trie;
