//! The errors of the lexer and of the parser. Each names its kind, the place at
//! which reading stopped, and what was found there.

use vstd::prelude::*;
use crate::position::Position;
use crate::token::{Token, TokenView};

verus! {

/// The ways in which the characters can fail to form a token.
#[derive(Clone, Copy, Debug, PartialEq, Eq, Structural)]
pub enum LexErrorKind {
    /// A character that starts no token, or that follows a backslash and names no escape.
    UnexpectedCharacter,
    /// The text ended inside a string.
    UnterminatedString,
    /// The text ended right after a backslash.
    UnterminatedEscape,
    /// Fewer than four hexadecimal digits after `\u`.
    InvalidHexDigit,
    /// A run of number characters that is no number literal.
    InvalidNumberLiteral,
    /// A word other than `true`, `false` and `null`.
    UnrecognizedKeyword,
}

/// A lexical error.
#[derive(Debug, PartialEq, Eq)]
pub struct LexError {
    pub kind: LexErrorKind,
    /// The place of the first character that the lexer had not consumed: that
    /// of an unexpected character itself, the end of an offending word or
    /// number, the end of the text where it ended too early.
    pub position: Position,
    /// The offending text; empty where the text ended too early.
    pub text: String,
}

/// A lexical failure as a mathematical value: `at` is the number of characters
/// of the text that were consumed when it was found.
pub struct LexFailure {
    pub kind: LexErrorKind,
    pub text: Seq<char>,
    pub at: int,
}

impl LexError {
    /// Whether this error is the report of `failure` in `src`.
    pub open spec fn reports(self, src: Seq<char>, failure: LexFailure) -> bool {
        &&& self.kind == failure.kind
        &&& self.text@ == failure.text
        &&& self.position.is_at(src, failure.at)
    }
}

/// The ways in which the tokens can fail to form a value.
#[derive(Clone, Copy, Debug, PartialEq, Eq, Structural)]
pub enum ParseErrorKind {
    /// A token that cannot start a value, or that is no key where a key is due.
    UnexpectedToken,
    /// The tokens ended where a value or a key is due.
    UnexpectedEndOfInput,
    /// Something other than `:` after the key of a member.
    ExpectedColon,
    /// Something other than `,` or the closing bracket after an item or a member.
    ExpectedCommaOrClose,
    /// An array or object nested deeper than the parser allows.
    MaxDepthExceeded,
}

/// A structural error.
#[derive(Debug, PartialEq, Eq)]
pub struct SyntaxError {
    pub kind: ParseErrorKind,
    /// The place of the lexer after it produced the offending token.
    pub position: Position,
    /// The offending token; `None` where the tokens ended.
    pub found: Option<Token>,
}

/// An error of the parser: one of the lexer that it ran into, or one of its own.
#[derive(Debug, PartialEq, Eq)]
pub enum ParseError {
    Lexical(LexError),
    Syntax(SyntaxError),
}

/// A failure of the parser as a mathematical value.
pub enum ParseFailure {
    Lexical(LexFailure),
    Syntax { kind: ParseErrorKind, found: Option<TokenView>, at: int },
}

impl ParseFailure {
    /// The number of characters that were consumed when the failure was found.
    pub open spec fn at(self) -> int {
        match self {
            ParseFailure::Lexical(f) => f.at,
            ParseFailure::Syntax { kind, found, at } => at,
        }
    }
}

/// The token of `found` as a mathematical value.
pub open spec fn found_view(found: Option<Token>) -> Option<TokenView> {
    match found {
        Some(t) => Some(t@),
        None => None,
    }
}

impl ParseError {
    /// Whether this error is the report of `failure` in `src`.
    pub open spec fn reports(self, src: Seq<char>, failure: ParseFailure) -> bool {
        match failure {
            ParseFailure::Lexical(f) => self matches ParseError::Lexical(e) && e.reports(src, f),
            ParseFailure::Syntax { kind, found, at } => {
                &&& self matches ParseError::Syntax(e)
                &&& e.kind == kind
                &&& found_view(e.found) == found
                &&& e.position.is_at(src, at)
            },
        }
    }
}

} // verus!
