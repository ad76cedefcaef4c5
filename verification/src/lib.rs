//! Constrained anagram construction.
//!
//! Given a multiset of letters, some of which are wildcards, and bounds on the
//! number and the length of words, the solver finds every way to spend all the
//! letters on a sequence of dictionary words.

pub mod compile;
pub mod dictionary;
pub mod lengths;
pub mod letters;
pub mod partition;
pub mod pipeline;
pub mod settings;
pub mod tree;
