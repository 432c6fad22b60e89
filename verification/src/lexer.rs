//! The lexer: from characters to tokens, one token at a time.
//!
//! `lex` says, for a text and an offset into it, which token starts there, where
//! it ends, or why there is none. `Lexer::next_token` computes exactly that.

use vstd::prelude::*;
use crate::chars::{
    char_of_code_unit, chars_of, check_digit, code_unit_char, hex_digit, hex_value, is_digit,
    is_whitespace, lemma_run_end, lemma_run_end_unique, run_end, string_of, CharClass,
};
use crate::error::{LexError, LexErrorKind, LexFailure};
use crate::number::{is_number, is_number_literal, Number};
use crate::position::{lemma_position_bounds, Position};
use crate::token::{Token, TokenView};

verus! {

/// What the lexer finds at an offset.
pub enum Lexed {
    /// A token, and the offset after its last character.
    Token { token: TokenView, end: int },
    /// Nothing but whitespace up to the end of the text, which is at `end`.
    End { end: int },
    /// No token.
    Failure(LexFailure),
}

/// What a backslash in a string is followed by.
pub enum Escaped {
    /// An escape that stands for `c` and ends before `end`.
    Char { c: char, end: int },
    /// No escape.
    Failure(LexFailure),
}

/// The character that a one-letter escape stands for.
pub open spec fn simple_escape(c: char) -> Option<char> {
    if c == '"' || c == '\\' || c == '/' {
        Some(c)
    } else if c == 'b' {
        Some('\u{8}')
    } else if c == 'f' {
        Some('\u{c}')
    } else if c == 'n' {
        Some('\n')
    } else if c == 'r' {
        Some('\r')
    } else if c == 't' {
        Some('\t')
    } else {
        None
    }
}

/// The four hexadecimal digits of a `\u` escape, which start at `from`. They are
/// read as one UTF-16 code unit. The first character that is not such a digit
/// fails the escape and is not consumed; so does the end of the text.
pub open spec fn unicode_escape(src: Seq<char>, from: int) -> Escaped {
    let stop = run_end(src, from, CharClass::HexDigit);
    if stop >= from + 4 {
        Escaped::Char {
            c: code_unit_char(hex_value(src.subrange(from, from + 4))),
            end: from + 4,
        }
    } else if stop >= src.len() {
        Escaped::Failure(
            LexFailure { kind: LexErrorKind::InvalidHexDigit, text: Seq::empty(), at: stop },
        )
    } else {
        Escaped::Failure(
            LexFailure { kind: LexErrorKind::InvalidHexDigit, text: seq![src[stop]], at: stop },
        )
    }
}

/// The escape whose first character, the one after the backslash, is at `from`.
/// A character that names no escape fails it and is not consumed.
pub open spec fn escape(src: Seq<char>, from: int) -> Escaped {
    if from >= src.len() {
        Escaped::Failure(
            LexFailure { kind: LexErrorKind::UnterminatedEscape, text: Seq::empty(), at: from },
        )
    } else if src[from] == 'u' {
        unicode_escape(src, from + 1)
    } else {
        match simple_escape(src[from]) {
            Some(c) => Escaped::Char { c, end: from + 1 },
            None => Escaped::Failure(
                LexFailure {
                    kind: LexErrorKind::UnexpectedCharacter,
                    text: seq![src[from]],
                    at: from,
                },
            ),
        }
    }
}

/// The rest of a string of which the characters before `from` gave `acc`: up to
/// the first quote that no backslash escapes.
pub open spec fn scan_string(src: Seq<char>, from: int, acc: Seq<char>) -> Lexed
    decreases src.len() - from,
{
    if from < 0 || from >= src.len() {
        Lexed::Failure(
            LexFailure { kind: LexErrorKind::UnterminatedString, text: Seq::empty(), at: from },
        )
    } else if src[from] == '"' {
        Lexed::Token { token: TokenView::String(acc), end: from + 1 }
    } else if src[from] == '\\' {
        match escape(src, from + 1) {
            Escaped::Char { c, end } => {
                if from < end <= src.len() {
                    scan_string(src, end, acc.push(c))
                } else {
                    arbitrary()
                }
            },
            Escaped::Failure(f) => Lexed::Failure(f),
        }
    } else {
        scan_string(src, from + 1, acc.push(src[from]))
    }
}

/// The keyword that `text` spells.
pub open spec fn keyword(text: Seq<char>) -> Option<TokenView> {
    if text =~= seq!['t', 'r', 'u', 'e'] {
        Some(TokenView::True)
    } else if text =~= seq!['f', 'a', 'l', 's', 'e'] {
        Some(TokenView::False)
    } else if text =~= seq!['n', 'u', 'l', 'l'] {
        Some(TokenView::Null)
    } else {
        None
    }
}

/// The word that starts at `start`: the longest run of alphabetic characters
/// after that first character, which must spell a keyword.
pub open spec fn lex_keyword(src: Seq<char>, start: int) -> Lexed {
    let end = run_end(src, start + 1, CharClass::Alphabetic);
    let text = src.subrange(start, end);
    match keyword(text) {
        Some(token) => Lexed::Token { token, end },
        None => Lexed::Failure(
            LexFailure { kind: LexErrorKind::UnrecognizedKeyword, text, at: end },
        ),
    }
}

/// The number that starts at `start`: the longest run of number characters
/// after that first character, which must form a number literal.
pub open spec fn lex_number(src: Seq<char>, start: int) -> Lexed {
    let end = run_end(src, start + 1, CharClass::Number);
    let text = src.subrange(start, end);
    if is_number_literal(text) {
        Lexed::Token { token: TokenView::Number(text), end }
    } else {
        Lexed::Failure(LexFailure { kind: LexErrorKind::InvalidNumberLiteral, text, at: end })
    }
}

/// The token that is one character of punctuation.
pub open spec fn punctuation(c: char) -> Option<TokenView> {
    if c == '{' {
        Some(TokenView::LBrace)
    } else if c == '}' {
        Some(TokenView::RBrace)
    } else if c == '[' {
        Some(TokenView::LBracket)
    } else if c == ']' {
        Some(TokenView::RBracket)
    } else if c == ',' {
        Some(TokenView::Comma)
    } else if c == ':' {
        Some(TokenView::Colon)
    } else {
        None
    }
}

/// The token whose first character is at `start`. A character that starts no
/// token is not consumed: the failure is found at the character itself.
pub open spec fn lex_token(src: Seq<char>, start: int) -> Lexed {
    let c = src[start];
    if punctuation(c).is_some() {
        Lexed::Token { token: punctuation(c).unwrap(), end: start + 1 }
    } else if c == 't' || c == 'f' || c == 'n' {
        lex_keyword(src, start)
    } else if c == '"' {
        scan_string(src, start + 1, Seq::empty())
    } else if c == '-' || is_digit(c) {
        lex_number(src, start)
    } else {
        Lexed::Failure(
            LexFailure { kind: LexErrorKind::UnexpectedCharacter, text: seq![c], at: start },
        )
    }
}

/// What the lexer finds at `from`: it passes over whitespace and reads the token
/// that follows, if the text has not ended.
pub open spec fn lex(src: Seq<char>, from: int) -> Lexed {
    let start = run_end(src, from, CharClass::Whitespace);
    if start >= src.len() {
        Lexed::End { end: start }
    } else {
        lex_token(src, start)
    }
}

/// Whether `c` can be the first character of a token.
pub open spec fn starts_token(c: char) -> bool {
    punctuation(c).is_some() || c == 't' || c == 'f' || c == 'n' || c == '"' || c == '-'
        || is_digit(c)
}

/// A character that starts no token is reported at its own place: where only
/// whitespace lies between `from` and such a character at `at`, the lexer
/// fails at `at`, whose line and column the error then gives.
pub proof fn lemma_unexpected_character(src: Seq<char>, from: int, at: int)
    requires
        0 <= from <= at < src.len(),
        forall|i: int| from <= i < at ==> is_whitespace(#[trigger] src[i]),
        !is_whitespace(src[at]),
        !starts_token(src[at]),
    ensures
        lex(src, from) == Lexed::Failure(
            LexFailure { kind: LexErrorKind::UnexpectedCharacter, text: seq![src[at]], at },
        ),
{
    assert forall|i: int| from <= i < at implies CharClass::Whitespace.contains(#[trigger] src[i]) by {}
    lemma_run_end_unique(src, from, CharClass::Whitespace, at);
}

/// An escape consumes at least one character and ends within the text; a failed
/// one is found within the text.
pub proof fn lemma_escape_bounds(src: Seq<char>, from: int)
    requires
        0 <= from <= src.len(),
    ensures
        match escape(src, from) {
            Escaped::Char { c, end } => from < end <= src.len(),
            Escaped::Failure(f) => from <= f.at <= src.len(),
        },
{
    if from < src.len() && src[from] == 'u' {
        lemma_run_end(src, from + 1, CharClass::HexDigit);
    }
}

/// The rest of a string ends within the text, after at least its closing quote.
pub proof fn lemma_scan_string_bounds(src: Seq<char>, from: int, acc: Seq<char>)
    requires
        0 <= from <= src.len(),
    ensures
        match scan_string(src, from, acc) {
            Lexed::Token { token, end } => from < end <= src.len() && token is String,
            Lexed::End { end } => false,
            Lexed::Failure(f) => from <= f.at <= src.len(),
        },
    decreases src.len() - from,
{
    if from < src.len() && src[from] != '"' {
        if src[from] == '\\' {
            lemma_escape_bounds(src, from + 1);
            match escape(src, from + 1) {
                Escaped::Char { c, end } => {
                    lemma_scan_string_bounds(src, end, acc.push(c));
                },
                Escaped::Failure(f) => {},
            }
        } else {
            lemma_scan_string_bounds(src, from + 1, acc.push(src[from]));
        }
    }
}

/// A token has at least one character, and neither a token nor a failure lies
/// beyond the end of the text. Where the lexer finds the end, it is the end. A
/// number token holds a number.
pub proof fn lemma_lex_bounds(src: Seq<char>, from: int)
    requires
        0 <= from <= src.len(),
    ensures
        match lex(src, from) {
            Lexed::Token { token, end } => from < end <= src.len() && (token matches TokenView::Number(n)
                ==> is_number(n)),
            Lexed::End { end } => end == src.len(),
            Lexed::Failure(f) => from <= f.at <= src.len(),
        },
{
    lemma_run_end(src, from, CharClass::Whitespace);
    let start = run_end(src, from, CharClass::Whitespace);
    if start < src.len() {
        lemma_run_end(src, start + 1, CharClass::Alphabetic);
        lemma_run_end(src, start + 1, CharClass::Number);
        lemma_scan_string_bounds(src, start + 1, Seq::empty());
    }
}

/// The character that the one-letter escape `c` stands for.
fn escape_char(c: char) -> (e: Option<char>)
    ensures
        e == simple_escape(c),
{
    if c == '"' || c == '\\' || c == '/' {
        Some(c)
    } else if c == 'b' {
        Some('\u{8}')
    } else if c == 'f' {
        Some('\u{c}')
    } else if c == 'n' {
        Some('\n')
    } else if c == 'r' {
        Some('\r')
    } else if c == 't' {
        Some('\t')
    } else {
        None
    }
}

/// The token that the punctuation character `c` is.
fn punctuation_token(c: char) -> (t: Option<Token>)
    ensures
        match punctuation(c) {
            Some(token) => t matches Some(found) && found@ == token,
            None => t.is_none(),
        },
{
    if c == '{' {
        Some(Token::LBrace)
    } else if c == '}' {
        Some(Token::RBrace)
    } else if c == '[' {
        Some(Token::LBracket)
    } else if c == ']' {
        Some(Token::RBracket)
    } else if c == ',' {
        Some(Token::Comma)
    } else if c == ':' {
        Some(Token::Colon)
    } else {
        None
    }
}

/// A lexer over a text that it owns. It knows the line and column of the next
/// character that it has not consumed.
#[derive(Debug)]
pub struct Lexer {
    input: Vec<char>,
    offset: usize,
    position: Position,
}

impl Lexer {
    /// The text.
    pub closed spec fn source(&self) -> Seq<char> {
        self.input@
    }

    /// The number of characters consumed.
    pub closed spec fn offset(&self) -> int {
        self.offset as int
    }

    /// The invariant: the offset lies in the text, and the position is that of
    /// the offset.
    pub closed spec fn well_formed(&self) -> bool {
        &&& self.offset <= self.input.len() < usize::MAX
        &&& self.position.is_at(self.input@, self.offset as int)
    }

    /// A lexer at the start of `input`.
    pub fn new(input: &str) -> (lexer: Lexer)
        requires
            input@.len() < usize::MAX,
        ensures
            lexer.well_formed(),
            lexer.source() == input@,
            lexer.offset() == 0,
    {
        Lexer { input: chars_of(input), offset: 0, position: Position::start() }
    }

    /// The place of the next character that has not been consumed.
    pub fn position(&self) -> (p: Position)
        requires
            self.well_formed(),
        ensures
            p.is_at(self.source(), self.offset()),
    {
        self.position
    }

    /// The bounds that follow from the invariant.
    pub proof fn lemma_offset_in_source(&self)
        requires
            self.well_formed(),
        ensures
            0 <= self.offset() <= self.source().len(),
    {
    }

    /// The next character, which stays unconsumed.
    fn peek_char(&self) -> (c: Option<char>)
        requires
            self.well_formed(),
        ensures
            self.offset() < self.source().len() ==> c == Some(self.source()[self.offset()]),
            self.offset() >= self.source().len() ==> c.is_none(),
    {
        if self.offset < self.input.len() {
            Some(self.input[self.offset])
        } else {
            None
        }
    }

    /// Consumes the next character and moves the position past it.
    fn read_char(&mut self) -> (c: Option<char>)
        requires
            old(self).well_formed(),
        ensures
            final(self).well_formed(),
            final(self).source() == old(self).source(),
            old(self).offset() < old(self).source().len() ==> c == Some(
                old(self).source()[old(self).offset()],
            ) && final(self).offset() == old(self).offset() + 1,
            old(self).offset() >= old(self).source().len() ==> c.is_none() && final(self).offset()
                == old(self).offset(),
    {
        if self.offset < self.input.len() {
            let c = self.input[self.offset];
            proof {
                lemma_position_bounds(self.input@, self.offset as int);
            }
            self.position = self.position.advance(c);
            self.offset = self.offset + 1;
            Some(c)
        } else {
            None
        }
    }

    /// An error of the given kind at the present position.
    fn error(&self, kind: LexErrorKind, text: String) -> (e: LexError)
        requires
            self.well_formed(),
        ensures
            e.reports(
                self.source(),
                LexFailure { kind, text: text@, at: self.offset() },
            ),
    {
        LexError { kind, position: self.position, text }
    }

    /// Consumes the run of characters of `class` and appends them to `text`.
    fn read_run(&mut self, class: CharClass, text: &mut Vec<char>)
        requires
            old(self).well_formed(),
        ensures
            final(self).well_formed(),
            final(self).source() == old(self).source(),
            final(self).offset() == run_end(old(self).source(), old(self).offset(), class),
            final(text)@ == old(text)@ + old(self).source().subrange(
                old(self).offset(),
                final(self).offset(),
            ),
    {
        let ghost src = self.input@;
        let ghost from = self.offset as int;
        let ghost before = text@;
        loop
            invariant
                self.well_formed(),
                self.input@ == src,
                0 <= from <= self.offset <= src.len(),
                run_end(src, from, class) == run_end(src, self.offset as int, class),
                text@ == before + src.subrange(from, self.offset as int),
            ensures
                self.offset == run_end(src, from, class),
            decreases src.len() - self.offset,
        {
            match self.peek_char() {
                Some(c) => {
                    if !class.has(c) {
                        break ;
                    }
                    self.read_char();
                    text.push(c);
                    assert(text@ =~= before + src.subrange(from, self.offset as int));
                },
                None => {
                    break ;
                },
            }
        }
    }

    /// Reads a keyword whose first character `c` has just been consumed.
    fn check_id(&mut self, c: char) -> (r: Result<Token, LexError>)
        requires
            old(self).well_formed(),
            old(self).offset() > 0,
            old(self).source()[old(self).offset() - 1] == c,
        ensures
            final(self).well_formed(),
            final(self).source() == old(self).source(),
            final(self).matches_lexed(
                lex_keyword(old(self).source(), old(self).offset() - 1),
                r,
            ),
    {
        let mut text: Vec<char> = Vec::new();
        text.push(c);
        self.read_run(CharClass::Alphabetic, &mut text);
        assert(text@ =~= self.input@.subrange(old(self).offset() - 1, self.offset as int)) by {
            lemma_run_end(old(self).source(), old(self).offset(), CharClass::Alphabetic);
        }
        if text.len() == 4 && text[0] == 't' && text[1] == 'r' && text[2] == 'u' && text[3] == 'e' {
            Ok(Token::True)
        } else if text.len() == 5 && text[0] == 'f' && text[1] == 'a' && text[2] == 'l' && text[3]
            == 's' && text[4] == 'e' {
            Ok(Token::False)
        } else if text.len() == 4 && text[0] == 'n' && text[1] == 'u' && text[2] == 'l' && text[3]
            == 'l' {
            Ok(Token::Null)
        } else {
            Err(self.error(LexErrorKind::UnrecognizedKeyword, string_of(&text)))
        }
    }

    /// Reads a number whose first character `c` has just been consumed.
    fn scan_number(&mut self, c: char) -> (r: Result<Token, LexError>)
        requires
            old(self).well_formed(),
            old(self).offset() > 0,
            old(self).source()[old(self).offset() - 1] == c,
            c == '-' || is_digit(c),
        ensures
            final(self).well_formed(),
            final(self).source() == old(self).source(),
            final(self).matches_lexed(lex_number(old(self).source(), old(self).offset() - 1), r),
    {
        let mut text: Vec<char> = Vec::new();
        text.push(c);
        self.read_run(CharClass::Number, &mut text);
        assert(text@ =~= self.input@.subrange(old(self).offset() - 1, self.offset as int)) by {
            lemma_run_end(old(self).source(), old(self).offset(), CharClass::Number);
        }
        match Number::from_chars(&text) {
            Some(n) => Ok(Token::Number(n)),
            None => Err(self.error(LexErrorKind::InvalidNumberLiteral, string_of(&text))),
        }
    }

    /// Reads what follows a backslash that has just been consumed.
    fn read_escape(&mut self) -> (r: Result<char, LexError>)
        requires
            old(self).well_formed(),
        ensures
            final(self).well_formed(),
            final(self).source() == old(self).source(),
            match escape(old(self).source(), old(self).offset()) {
                Escaped::Char { c, end } => r == Ok::<char, LexError>(c) && final(self).offset()
                    == end,
                Escaped::Failure(f) => r matches Err(e) && e.reports(final(self).source(), f)
                    && final(self).offset() == f.at,
            },
    {
        match self.peek_char() {
            None => Err(self.error(LexErrorKind::UnterminatedEscape, String::new())),
            Some(c) => {
                if c == 'u' {
                    self.read_char();
                    self.read_code_unit()
                } else {
                    match escape_char(c) {
                        Some(e) => {
                            self.read_char();
                            Ok(e)
                        },
                        None => {
                            let mut text = String::new();
                            text.push(c);
                            assert(text@ =~= seq![c]);
                            Err(self.error(LexErrorKind::UnexpectedCharacter, text))
                        },
                    }
                }
            },
        }
    }

    /// Reads the four hexadecimal digits that follow `\u`.
    fn read_code_unit(&mut self) -> (r: Result<char, LexError>)
        requires
            old(self).well_formed(),
        ensures
            final(self).well_formed(),
            final(self).source() == old(self).source(),
            match unicode_escape(old(self).source(), old(self).offset()) {
                Escaped::Char { c, end } => r == Ok::<char, LexError>(c) && final(self).offset()
                    == end,
                Escaped::Failure(f) => r matches Err(e) && e.reports(final(self).source(), f)
                    && final(self).offset() == f.at,
            },
    {
        let ghost src = self.input@;
        let ghost from = self.offset as int;
        let mut code: u32 = 0;
        let mut i: usize = 0;
        while i < 4
            invariant
                self.well_formed(),
                self.input@ == src,
                src == old(self).source(),
                from == old(self).offset(),
                0 <= from,
                i <= 4,
                self.offset == from + i,
                run_end(src, from, CharClass::HexDigit) == run_end(
                    src,
                    self.offset as int,
                    CharClass::HexDigit,
                ),
                code == hex_value(src.subrange(from, from + i)),
                i == 0 ==> code < 1,
                i == 1 ==> code < 0x10,
                i == 2 ==> code < 0x100,
                i == 3 ==> code < 0x1000,
            decreases 4 - i,
        {
            match self.peek_char() {
                None => {
                    return Err(self.error(LexErrorKind::InvalidHexDigit, String::new()));
                },
                Some(c) => {
                    if !CharClass::HexDigit.has(c) {
                        let mut text = String::new();
                        text.push(c);
                        assert(text@ =~= seq![c]);
                        return Err(self.error(LexErrorKind::InvalidHexDigit, text));
                    }
                    self.read_char();
                    proof {
                        let longer = src.subrange(from, from + i + 1);
                        assert(longer.drop_last() =~= src.subrange(from, from + i));
                        assert(longer.last() == c);
                    }
                    code = code * 16 + hex_digit(c);
                    i = i + 1;
                },
            }
        }
        proof {
            lemma_run_end(src, self.offset as int, CharClass::HexDigit);
        }
        Ok(char_of_code_unit(code))
    }

    /// Reads the rest of a string whose opening quote has just been consumed.
    fn scan_string(&mut self) -> (r: Result<Token, LexError>)
        requires
            old(self).well_formed(),
        ensures
            final(self).well_formed(),
            final(self).source() == old(self).source(),
            final(self).matches_lexed(
                scan_string(old(self).source(), old(self).offset(), Seq::empty()),
                r,
            ),
    {
        let ghost src = self.input@;
        let ghost from = self.offset as int;
        let mut s = String::new();
        loop
            invariant
                self.well_formed(),
                self.input@ == src,
                src == old(self).source(),
                from == old(self).offset(),
                scan_string(src, from, Seq::empty()) == scan_string(src, self.offset as int, s@),
            decreases src.len() - self.offset,
        {
            match self.read_char() {
                None => {
                    return Err(self.error(LexErrorKind::UnterminatedString, String::new()));
                },
                Some(c) => {
                    if c == '"' {
                        return Ok(Token::String(s));
                    } else if c == '\\' {
                        match self.read_escape() {
                            Ok(e) => {
                                s.push(e);
                            },
                            Err(e) => {
                                return Err(e);
                            },
                        }
                    } else {
                        s.push(c);
                    }
                },
            }
        }
    }

    /// Consumes the whitespace before the next token.
    fn skip_whitespace(&mut self)
        requires
            old(self).well_formed(),
        ensures
            final(self).well_formed(),
            final(self).source() == old(self).source(),
            final(self).offset() == run_end(
                old(self).source(),
                old(self).offset(),
                CharClass::Whitespace,
            ),
    {
        let ghost src = self.input@;
        let ghost from = self.offset as int;
        loop
            invariant
                self.well_formed(),
                self.input@ == src,
                run_end(src, from, CharClass::Whitespace) == run_end(
                    src,
                    self.offset as int,
                    CharClass::Whitespace,
                ),
            ensures
                self.offset == run_end(src, from, CharClass::Whitespace),
            decreases src.len() - self.offset,
        {
            match self.peek_char() {
                Some(c) => {
                    if !CharClass::Whitespace.has(c) {
                        break ;
                    }
                    self.read_char();
                },
                None => {
                    break ;
                },
            }
        }
    }

    /// The next token, or `None` where only whitespace is left. After an error
    /// the lexer stands where it stopped reading, and the error gives that
    /// place: for a character that starts no token, the place of the character.
    pub fn next_token(&mut self) -> (r: Result<Option<Token>, LexError>)
        requires
            old(self).well_formed(),
        ensures
            final(self).well_formed(),
            final(self).source() == old(self).source(),
            final(self).yields(lex(old(self).source(), old(self).offset()), r),
    {
        self.skip_whitespace();
        let c = match self.peek_char() {
            None => {
                return Ok(None);
            },
            Some(c) => c,
        };
        let scanned = match punctuation_token(c) {
            Some(token) => {
                self.read_char();
                Ok(token)
            },
            None => {
                if c == 't' || c == 'f' || c == 'n' {
                    self.read_char();
                    self.check_id(c)
                } else if c == '"' {
                    self.read_char();
                    self.scan_string()
                } else if c == '-' || check_digit(c) {
                    self.read_char();
                    self.scan_number(c)
                } else {
                    let mut text = String::new();
                    text.push(c);
                    assert(text@ =~= seq![c]);
                    Err(self.error(LexErrorKind::UnexpectedCharacter, text))
                }
            },
        };
        match scanned {
            Ok(token) => Ok(Some(token)),
            Err(e) => Err(e),
        }
    }

    /// Whether `r` and the state of this lexer are the outcome `lexed` of a call
    /// of `next_token`.
    pub open spec fn yields(&self, lexed: Lexed, r: Result<Option<Token>, LexError>) -> bool {
        match lexed {
            Lexed::Token { token, end } => r matches Ok(Some(t)) && t@ == token && self.offset()
                == end,
            Lexed::End { end } => r matches Ok(None) && self.offset() == end,
            Lexed::Failure(f) => r matches Err(e) && e.reports(self.source(), f) && self.offset()
                == f.at,
        }
    }

    /// Whether `r` and the state of this lexer are the outcome `lexed`.
    pub open spec fn matches_lexed(&self, lexed: Lexed, r: Result<Token, LexError>) -> bool {
        match lexed {
            Lexed::Token { token, end } => r matches Ok(t) && t@ == token && self.offset() == end,
            Lexed::End { end } => false,
            Lexed::Failure(f) => r matches Err(e) && e.reports(self.source(), f) && self.offset()
                == f.at,
        }
    }
}

} // verus!
