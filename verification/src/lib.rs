//! A byte-pair-encoding (BPE) tokenizer: a trainer that learns merge rules
//! from a byte corpus, a reference encoder that replays the merge list, a
//! trie-based fast encoder, and a decoder that expands tokens back to bytes.

pub mod encode;
pub mod exceptions;
pub mod model;
pub mod pairs;
pub mod tokenizer;
pub mod training;
pub mod utils;
pub mod vocab;
