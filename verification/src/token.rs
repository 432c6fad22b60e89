//! The lexical units of JSON.

use vstd::prelude::*;
use crate::number::Number;

verus! {

/// One lexical unit. A token carries no position: the lexer knows where it is.
#[derive(Debug, PartialEq, Eq)]
pub enum Token {
    True,
    False,
    Null,
    Comma,
    Colon,
    LBrace,
    RBrace,
    LBracket,
    RBracket,
    /// A number, as its literal.
    Number(Number),
    /// A string, with its escapes resolved.
    String(String),
}

/// A token as a mathematical value.
pub enum TokenView {
    True,
    False,
    Null,
    Comma,
    Colon,
    LBrace,
    RBrace,
    LBracket,
    RBracket,
    Number(Seq<char>),
    String(Seq<char>),
}

impl View for Token {
    type V = TokenView;

    open spec fn view(&self) -> TokenView {
        match self {
            Token::True => TokenView::True,
            Token::False => TokenView::False,
            Token::Null => TokenView::Null,
            Token::Comma => TokenView::Comma,
            Token::Colon => TokenView::Colon,
            Token::LBrace => TokenView::LBrace,
            Token::RBrace => TokenView::RBrace,
            Token::LBracket => TokenView::LBracket,
            Token::RBracket => TokenView::RBracket,
            Token::Number(n) => TokenView::Number(n@),
            Token::String(s) => TokenView::String(s@),
        }
    }
}

} // verus!
