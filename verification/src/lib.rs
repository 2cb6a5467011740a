//! A verified evaluator front end for textual arithmetic expressions.
//!
//! The library is a two-stage pipeline: a character-level tokenizer
//! ([`lexer::Lexer`]) that classifies runs of characters into tokens, and a
//! recursive-descent parser ([`parser::Parser`]) that consumes the token
//! stream with one-token lookahead and builds an expression tree following
//! standard operator precedence and left-to-right associativity.
//! Numeric literals are kept as their exact source text; turning them into
//! machine numbers and computing the result is left to the caller.

pub mod lexer;
pub mod parser;
pub mod token;
