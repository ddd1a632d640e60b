//! An interpreter for a small parenthesised expression language: a lexer, a
//! parser into expression trees, and an evaluator over a chain of scopes,
//! each stated against a model and proved to meet it.

pub mod env;
pub mod error;
pub mod eval;
pub mod lexer;
pub mod object;
pub mod parser;
pub mod roundtrip;
