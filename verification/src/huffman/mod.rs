//! Canonical Huffman codes: what the code of a list of code lengths is, and a
//! prefix tree that decodes it one bit at a time.

pub mod canonical;
pub mod tree;

pub use tree::codes_from_lengths;
pub use tree::Step;
pub use tree::Tree;
