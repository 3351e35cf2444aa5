//! A verified interpreter for a minimal tape-based language: eight
//! single-character instructions acting on a growable byte tape, with
//! bracket-delimited loops.
//!
//! The crate has two parts: a parser that turns source text into a tree of
//! [`parser::Token`]s while merging adjacent run-length operations, and an
//! [`interpreter::Interpreter`] that executes such a tree against an
//! in-memory tape and byte streams.

pub mod errors;
pub mod interpreter;
pub mod parser;
pub mod text;
