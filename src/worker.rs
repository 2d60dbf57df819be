//! Commands that a front end sends to the worker that owns a session.
use vstd::prelude::*;

verus! {

/// A command for the session worker.
pub enum LLMWorkerCommand {
    /// Complete this prompt in the current session.
    Prompt(String),
    /// Start a new session, dropping the context of the current one.
    Reset,
}

} // verus!
