//! Inference session engine: prompt assembly, biasers, stop-sequence
//! matching, decoding of generated bytes, generation-loop decisions and
//! per-task statistics. A driver runs the model and feeds each step's
//! outcome back into `session::Completion`.
pub mod assemble;
pub mod biaser;
pub mod config;
pub mod error;
pub mod memory;
pub mod sequence;
pub mod session;
pub mod stats;
pub mod utf8;
pub mod worker;
