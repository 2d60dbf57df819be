//! Failures of a completion request.
use vstd::prelude::*;

verus! {

/// Why a completion request failed.
#[derive(Clone, Copy, Debug, PartialEq, Eq, Structural)]
pub enum GenerateError {
    /// The user's prompt holds a token that the task keeps private.
    IllegalToken,
    /// Some text could not be tokenized.
    Tokenization,
    /// The memory store failed.
    Memory,
    /// Feeding tokens into the model failed.
    ModelFeed,
    /// The task's configuration cannot be used, such as a private token that
    /// is not exactly one vocabulary entry.
    Config,
}

} // verus!
