//! Circuit construction and simulator-result handling for the quantum
//! scoring path.

pub mod circuit;
pub mod runner;
