//! A small Lisp-family language: a lexer, a recursive-descent parser and a
//! tree-walking evaluator with a fixed table of builtin functions.
//!
//! Numbers are exact non-negative decimals. Each stage returns its first
//! error with the source location where it applies; what scripts print is
//! collected in the evaluator's context for the caller to emit.
pub mod ast;
pub mod function;
pub mod internal;
pub mod interpreter;
pub mod number;
pub mod pipeline;
mod text;
pub mod token;
