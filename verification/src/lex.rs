//! Lexical analysis: from characters to tokens.

pub mod laws;
pub mod lex_multi_digit;
pub mod simple;
