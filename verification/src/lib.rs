//! Lexical front end for a GLSL-family shader language.
//!
//! The crate implements the textual phases of compilation as a layered,
//! pull-based pipeline: newline canonicalization with source locations,
//! line-continuation splicing, comment removal, and finally tokenization
//! with per-token whitespace/line-start metadata and per-token error
//! recovery.  Every stage carries a functional specification relating the
//! characters it hands out to a mathematical model of the remaining input.

pub mod lexer;
pub mod token;
