//! A parser for a small statement-and-expression language: it turns a
//! stream of tokens into functions, blocks, statements and expressions.
pub mod parser;
pub mod model;
pub mod semantics;
pub mod precedence;
pub mod checks;
pub mod locality;
pub mod laws;
