//! A rule-driven tokenizer and a backtracking token cursor for hand-written
//! recursive-descent parsers.

pub mod claims;
pub mod lex;
pub mod parse;
