//! A stream validator: checks every line of a stream against a regular
//! language, given as a byte-level deterministic finite automaton, and
//! forwards the lines that belong to it.

pub mod automaton;
pub mod cache;
pub mod cli;
pub mod codec;
pub mod dfa;
pub mod error;
pub mod ingest;
pub mod laws;
pub mod matcher;
pub mod report;
pub mod stream;
pub mod timer;
