//! A prefix tree over strings.
//!
//! A [`Trie`] stores a set of words and answers two questions about it:
//! whether a given word is in the set, and whether a given string is a
//! leading part of some word in the set. Words are sequences of characters;
//! nothing is normalised, and words are never removed.
//!
//! The contracts speak of two sets: the words of a tree, which is its view,
//! and its prefixes, the strings that spell a path from the root. The module
//! [`laws`] states what follows for every tree and every word.

pub mod laws;
pub mod node;
pub mod trie;

pub use node::TrieNode;
pub use trie::Trie;
