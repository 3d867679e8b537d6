//! A small JSON reader: a scanner that turns text into a flat token
//! stream, and a recursive-descent builder that turns the token stream
//! into a tree of typed values.

pub mod errors;
pub mod lexer;
pub mod parser;
