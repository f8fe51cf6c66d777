//! A small declarative configuration language: a forest of named, nestable
//! things, each carrying typed props.
//!
//! The crate holds the tokenizer, the parser that builds the tree from a token
//! stream, the tree itself and its depth-first traversal. Every function is
//! verified against a contract stated over mathematical models of the data.

pub mod assoc;
pub mod chars;
pub mod lexer;
pub mod literal;
pub mod parser;
pub mod scanner;
pub mod string_utils;
pub mod text;
pub mod thing;
pub mod view_state;
pub mod walk;
