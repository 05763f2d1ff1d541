//! An evaluator for the untyped lambda calculus: terms, a parser for the
//! fully parenthesised notation, capture-avoiding substitution and
//! normal-order reduction.
//!
//! - [`term`]: terms, their model, free names and the canonical notation.
//! - [`chars`]: the character classes of the notation.
//! - [`grammar`]: what a text stands for, as a function of the text.
//! - [`parser`]: the parser, which computes that function.
//! - [`balance`]: a text that is read has balanced parentheses.
//! - [`notation`]: the notation of a term is read back as that term.
//! - [`eval`]: substitution, the reduction step and bounded evaluation.
//! - [`eval_laws`]: what holds of substitution and reduction.

pub mod balance;
pub mod chars;
pub mod eval;
pub mod eval_laws;
pub mod grammar;
pub mod notation;
pub mod parser;
pub mod term;
