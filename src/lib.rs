//! Node representation of a compressed prefix tree (radix trie): labelled
//! elements, the edit primitives used while splitting and merging edges, and a
//! level-order walk that rebuilds every full key.

pub mod element;
pub mod utf8;

pub use element::Element;
