//! A tokenizer and a recursive-descent parser for arithmetic expressions over
//! non-negative integers, the operators `+ - * /` and parentheses.
//!
//! [`lex`] turns text into tokens. [`cfg`] turns tokens into a parse tree that
//! follows a four-level precedence grammar, and says how the parser relates
//! to the grammar. [`text`] writes numbers and indentation for the listings
//! of tokens, symbols and trees. Every function carries a contract over a
//! mathematical model of its input and output.

pub mod cfg;
pub mod lex;
pub mod text;
