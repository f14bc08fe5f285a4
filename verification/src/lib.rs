//! A small homoiconic Lisp-family language with optional per-token type
//! annotations and exact rational arithmetic: a tokenizer for parenthesized
//! expressions with trailing `:type` annotations, a parser from tokens to a
//! uniform value tree, a tree-walking evaluator over a mutable scope of
//! built-ins and user definitions, and the fraction type its arithmetic
//! rests on.

pub mod builtins;
pub mod coerce;
pub mod embed;
pub mod eval;
pub mod fraction;
pub mod io;
pub mod laws;
pub mod numtext;
pub mod parser;
pub mod print;
pub mod scope;
pub mod text;
pub mod types;
