//! Streaming multi-pattern replacement on top of a precompiled matching automaton.
//!
//! The input arrives as a sequence of chunks of any size; every occurrence of a
//! registered pattern is replaced by its replacement bytes, whether or not the
//! occurrence straddles chunk boundaries.
mod automaton;
pub mod stream;
mod replacer;

pub use automaton::{Automaton, MatchError, ALPHABET_LEN};
pub use replacer::AhoCorasickReplacer;
