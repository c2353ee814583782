//! The pipeline from a pattern to a program: the lexer and its grammar, the
//! class dictionary, the planner and what it computes, the emitter, and the
//! proofs of what a plan guarantees.

pub mod config;
pub mod coverage;
pub mod dict;
pub mod emit;
pub mod grammar;
pub mod language;
pub mod layout;
pub mod lexer;
pub mod parser;
pub mod radix;
