//! A small JSON-like language: a tokenizer that turns a character sequence
//! into a flat token stream, and a recursive-descent parser that turns the
//! token stream into a tree of nodes.
//!
//! Input is treated as a sequence of single characters (ASCII-range input);
//! numerals are integer-only (an optional leading `-` and a digit run), and
//! any syntax error aborts the whole run with a typed error.

pub mod laws;
pub mod parser;
pub mod tokenizer;

pub use parser::{Node, NodeKind, TokenParser};
pub use tokenizer::{tokenize, Token, TokenKind};
