//! A compressed prefix tree (radix trie) mapping byte-string keys to values.
//!
//! Keys are finite sequences of bytes; a node stores the full path from the
//! root, an optional value, and children filed under the next unit of their
//! key. Valueless single-child chains are collapsed, so every interior node
//! carries real decision weight.

mod laws;
mod nav;
mod node;
mod subtrie;
mod trie;

pub use laws::law_ancestor_identity;
pub use laws::law_ancestor_monotonic;
pub use laws::law_remove_get;
pub use laws::law_replacement;
pub use laws::law_round_trip;
pub use subtrie::SubTrie;
pub use subtrie::SubTrieMut;
pub use trie::Trie;
pub use trie::ancestor_key;
pub use trie::lemma_ancestor_key_none;
pub use trie::lemma_ancestor_key_some;
