//! A small regular-expression engine: a pattern is parsed into a syntax tree,
//! compiled to a program for a tiny virtual machine, and the program is run
//! against the input by a backtracking search.
pub mod engine;

pub use engine::{do_matching, line_matches};
