//! A map from `usize` keys to values, stored as a radix trie that consumes
//! one 4-bit nibble of the key per level, least significant nibble first.

pub mod dump;
pub mod key;
pub mod laws;
mod trie;

pub use key::index;
pub use trie::Trie;
