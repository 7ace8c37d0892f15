//! A compiler front end for a minimal imperative language: constants,
//! variables, arithmetic assignments and a print statement.
//!
//! The [`tokenizer`] turns source text into tokens with their positions; the
//! [`analyzer`] turns tokens into the instructions of a stack machine. What
//! each of them computes is stated over plain values in [`tokenizer`] and in
//! [`grammar`], and proved of the code.

pub mod analyzer;
pub mod error;
pub mod grammar;
pub mod laws;
pub mod symbols;
pub mod text;
pub mod tokenizer;

pub use analyzer::analyze;
pub use tokenizer::tokenize;
