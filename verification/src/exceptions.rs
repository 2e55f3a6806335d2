//! Error types for the tokenizer and for the matrix utilities.

use vstd::prelude::*;

verus! {

/// Errors that tokenizer operations can surface to the caller.
#[derive(Debug, PartialEq, Eq)]
pub enum TokenizerError {
    /// The decoder met a token id that is at least 256 and not in the vocabulary.
    UnknownToken(u16),
    /// A decode into text was requested and the decoded bytes are not valid UTF-8.
    InvalidUtf8,
    /// The trie builder found two ids mapping to the same byte sequence.
    VocabCollision(Vec<u8>),
    /// More merges were requested than the 16-bit id space admits.
    BudgetExhausted,
    /// Reserved for callers that treat an empty training input as an error;
    /// the trainer itself returns empty artifacts instead.
    EmptyInput,
}

/// Errors of the matrix utilities.
#[derive(Debug, PartialEq, Eq)]
pub enum MatrixError {
    MatrixError(String),
    Unknown,
}

} // verus!
