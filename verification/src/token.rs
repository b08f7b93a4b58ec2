//! Lexical tokens of the CLUX configuration DSL.

use vstd::prelude::*;

verus! {

/// A token of the DSL.
///
/// A number with a decimal point keeps its source text (`NumberFloat`);
/// turning that text into a floating-point value is left to the caller.
#[derive(Debug, Clone, PartialEq)]
pub enum Token {
    KwModel,
    KwTraining,
    Ident(String),
    NumberInt(usize),
    NumberFloat(String),
    StringLit(String),
    Colon,
    Comma,
    BraceOpen,
    BraceClose,
    Eof,
}

/// The mathematical value of a [`Token`]: strings are taken by their characters.
pub enum TokenV {
    KwModel,
    KwTraining,
    Ident(Seq<char>),
    NumberInt(usize),
    NumberFloat(Seq<char>),
    StringLit(Seq<char>),
    Colon,
    Comma,
    BraceOpen,
    BraceClose,
    Eof,
}

impl View for Token {
    type V = TokenV;

    open spec fn view(&self) -> TokenV {
        match self {
            Token::KwModel => TokenV::KwModel,
            Token::KwTraining => TokenV::KwTraining,
            Token::Ident(s) => TokenV::Ident(s@),
            Token::NumberInt(n) => TokenV::NumberInt(*n),
            Token::NumberFloat(s) => TokenV::NumberFloat(s@),
            Token::StringLit(s) => TokenV::StringLit(s@),
            Token::Colon => TokenV::Colon,
            Token::Comma => TokenV::Comma,
            Token::BraceOpen => TokenV::BraceOpen,
            Token::BraceClose => TokenV::BraceClose,
            Token::Eof => TokenV::Eof,
        }
    }
}

impl Token {
    /// A copy of this token.
    pub fn duplicate(&self) -> (t: Token)
        ensures
            t@ == self@,
    {
        match self {
            Token::KwModel => Token::KwModel,
            Token::KwTraining => Token::KwTraining,
            Token::Ident(s) => Token::Ident(s.clone()),
            Token::NumberInt(n) => Token::NumberInt(*n),
            Token::NumberFloat(s) => Token::NumberFloat(s.clone()),
            Token::StringLit(s) => Token::StringLit(s.clone()),
            Token::Colon => Token::Colon,
            Token::Comma => Token::Comma,
            Token::BraceOpen => Token::BraceOpen,
            Token::BraceClose => Token::BraceClose,
            Token::Eof => Token::Eof,
        }
    }
}

} // verus!
