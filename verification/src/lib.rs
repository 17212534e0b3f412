//! Shortest word ladders over a dictionary: a compact word code, the
//! one-letter adjacency between words, a store of words with search marks,
//! and a breadth-first search over the adjacency, each with a machine-checked
//! contract.

mod bfs;
pub mod dictionary;
pub mod graph;
pub mod ladder;
pub mod word;

pub use crate::graph::{WordGraph, WordStatus};
pub use crate::word::Word;
