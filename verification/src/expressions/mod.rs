//! The sandboxed expression language: a subset of `jq`.
pub mod ast;
pub mod canonical;
pub mod engine;
pub mod error;
pub mod eval;
pub mod form_laws;
pub mod function_laws;
pub mod grammar_laws;
pub mod laws;
pub mod lexer;
pub mod literals;
pub mod operator_laws;
pub mod operators;
pub mod parser;
pub mod precedence;
pub mod template_laws;
