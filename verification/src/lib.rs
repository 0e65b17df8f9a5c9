//! A word-level Markov chain text generator.
//!
//! Text is split into whitespace-delimited words, the transitions between
//! neighbouring words are counted in a graph, and sentences are sampled by
//! weighted random walks from a capitalised word to a word that closes a
//! sentence.

pub mod chain;
pub mod error;
pub mod graph;
pub mod laws;
pub mod node;
pub mod random;
mod table;
pub mod words;

pub use chain::MarkovChain;
pub use error::GenerationError;
pub use graph::Graph;
pub use node::Node;
