//! Brute-force enumeration of the byte strings that match a small pattern language.
//!
//! A pattern is lexed into tokens, planned into fixed-length runs, and either
//! rendered as program text or walked directly by a worker that hands every
//! candidate to a user-supplied handler.

use vstd::prelude::*;

pub mod codegen;
pub mod demo;
pub mod executor;
pub mod lexer;
pub mod tokens;
pub mod worker;

verus! {

/// What the user of the library supplies: a handler that is made once per
/// worker and is then shown every candidate of the worker.
pub trait Bonk: Sized {
    /// The handler of the worker with this number.
    fn new(thread_id: usize) -> Self;

    /// Looks at one candidate; `true` says that it is a match. The buffer is
    /// used again for the next candidate.
    fn check(&mut self, buf: &[u8]) -> bool;
}

} // verus!
