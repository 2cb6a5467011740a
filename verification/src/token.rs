//! Tokens produced by the tokenizer: immutable values that carry a tag and,
//! for numeric tokens, the exact literal text scanned from the source.

use vstd::prelude::*;

verus! {

/// Mathematical model of a token: the tag, with a numeric literal's text as a
/// sequence of characters.
pub enum TokenV {
    Number(Seq<char>),
    Add,
    Sub,
    Mul,
    Div,
    LeftParen,
    RightParen,
    End,
}

/// The kind of a token. A `Number` carries the exact substring scanned for
/// the literal (not normalized, not yet converted to a machine number).
#[derive(Debug, Clone, PartialEq)]
pub enum TokenType {
    Number(String),
    AddOperator,
    SubOperator,
    MulOperator,
    DivOperator,
    LeftParen,
    RightParen,
    Eof,
}

impl View for TokenType {
    type V = TokenV;

    open spec fn view(&self) -> TokenV {
        match self {
            TokenType::Number(text) => TokenV::Number(text@),
            TokenType::AddOperator => TokenV::Add,
            TokenType::SubOperator => TokenV::Sub,
            TokenType::MulOperator => TokenV::Mul,
            TokenType::DivOperator => TokenV::Div,
            TokenType::LeftParen => TokenV::LeftParen,
            TokenType::RightParen => TokenV::RightParen,
            TokenType::Eof => TokenV::End,
        }
    }
}

/// A token: created fresh by each tokenizer call, consumed or pushed back by
/// the parser; it has no identity beyond its value.
#[derive(Debug, Clone, PartialEq)]
pub struct Token {
    pub token_type: TokenType,
}

impl View for Token {
    type V = TokenV;

    open spec fn view(&self) -> TokenV {
        self.token_type@
    }
}

impl Token {
    pub fn new(token_type: TokenType) -> (token: Token)
        ensures
            token.token_type == token_type,
    {
        Token { token_type }
    }
}

} // verus!
