//! A small Lisp interpreter: a reader from text to expressions, an arena of
//! lexical frames, a tree-walking evaluator with closures, and a library of
//! builtin procedures, each stated and proved against a model of values.

pub mod builtins;
pub mod env;
pub mod eval;
pub mod expr;
pub mod laws;
pub mod reader;
pub mod render;
pub mod session;
