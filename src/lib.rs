//! An evaluator for a small language of symbolic expressions: text is split into tokens,
//! tokens are parsed into expressions, and expressions are evaluated against a stack of
//! scope frames.
//!
//! - `text`: characters, whitespace and decimal digits.
//! - `decimal`: numbers, held in millionths, and their text.
//! - `sexpr`: expressions, their values, the tokenizer, the parser and the printer.
//! - `context`: the environment of scope frames.
//! - `builtins`: the evaluator and its builtin operators `+`, `def`, `eval` and `let`.
//! - `error`: the error type.
//! - `laws`: properties that relate the printer, the tokenizer and the parser.

pub mod builtins;
pub mod context;
pub mod decimal;
pub mod error;
pub mod laws;
pub mod sexpr;
pub mod text;
