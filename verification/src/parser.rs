//! The parser: from tokens to a tree of values, by recursive descent with one
//! token of lookahead.
//!
//! `parse_value` says, for a text and an offset into it, which value the tokens
//! from there on form and where it ends, or why they form none.
//! `Parser::parse` computes exactly that.

use vstd::prelude::*;
use crate::error::{found_view, ParseError, ParseErrorKind, ParseFailure, SyntaxError};
use crate::chars::{run_end, CharClass};
use crate::lexer::{lemma_lex_bounds, lex, Lexed, Lexer};
use crate::token::{Token, TokenView};
use crate::value::{
    distinct_keys, has_key, is_last_with_key, items_view, key_index, lemma_last_value_wins,
    lemma_with_member, member_value, members_view, with_member, with_members, Value, ValueView,
};

verus! {

/// The deepest nesting of arrays and objects that a parser accepts unless it is
/// made with another limit.
pub const DEFAULT_MAX_DEPTH: usize = 512;

/// What the parser makes of the tokens from an offset on.
pub enum Parsed {
    /// A value, and the offset after its last token.
    Value { value: ValueView, next: int },
    /// No value.
    Failure(ParseFailure),
}

/// What the parser makes of the tokens of one member of an object.
pub enum ParsedMember {
    /// A key with its value, and the offset after the last token of the value.
    Member { key: Seq<char>, value: ValueView, next: int },
    /// No member.
    Failure(ParseFailure),
}

/// The two kinds of value that hold others.
#[derive(Clone, Copy, Debug, PartialEq, Eq)]
pub enum Container {
    Array,
    Object,
}

impl Container {
    /// The token that closes a container of this kind.
    pub open spec fn closing(self) -> TokenView {
        match self {
            Container::Array => TokenView::RBracket,
            Container::Object => TokenView::RBrace,
        }
    }
}

/// What follows an item of an array or a member of an object.
pub enum Separated {
    /// A comma, which ends before `end`: another item or member follows.
    More { end: int },
    /// The closing token, which ends before `end`.
    Done { end: int },
    /// Neither.
    Failure(ParseFailure),
}

/// What the parser makes of a whole text.
pub enum Document {
    /// No token at all; the text ends at `end`.
    Empty { end: int },
    /// A value, and the offset after its last token.
    Value { value: ValueView, next: int },
    /// No value.
    Failure(ParseFailure),
}

/// The failure to report where `lexed` is not what the grammar asks for: that of
/// the lexer if it has one, else one of kind `at_token` for a token and of kind
/// `at_end` for the end of the text.
pub open spec fn unexpected(lexed: Lexed, at_token: ParseErrorKind, at_end: ParseErrorKind)
    -> ParseFailure {
    match lexed {
        Lexed::Token { token, end } => ParseFailure::Syntax {
            kind: at_token,
            found: Some(token),
            at: end,
        },
        Lexed::End { end } => ParseFailure::Syntax { kind: at_end, found: None, at: end },
        Lexed::Failure(f) => ParseFailure::Lexical(f),
    }
}

/// What follows an item or a member at `from`, in a container of kind `container`.
pub open spec fn parse_separator(src: Seq<char>, from: int, container: Container) -> Separated {
    match lex(src, from) {
        Lexed::Token { token, end } => if token == TokenView::Comma {
            Separated::More { end }
        } else if token == container.closing() {
            Separated::Done { end }
        } else {
            Separated::Failure(
                ParseFailure::Syntax {
                    kind: ParseErrorKind::ExpectedCommaOrClose,
                    found: Some(token),
                    at: end,
                },
            )
        },
        other => Separated::Failure(
            unexpected(
                other,
                ParseErrorKind::ExpectedCommaOrClose,
                ParseErrorKind::ExpectedCommaOrClose,
            ),
        ),
    }
}

/// Whether `to` lies after `from` and within `src`. Every token ends at such an
/// offset (`lemma_lex_bounds`), and so does every value (`lemma_parse_bounds`);
/// the definitions below ask for it where they go on from such an end, which is
/// what shows that they terminate.
pub open spec fn advances(src: Seq<char>, from: int, to: int) -> bool {
    from < to <= src.len()
}

/// The value that starts at `from`, with arrays and objects nested at most
/// `depth` deep.
pub open spec fn parse_value(src: Seq<char>, from: int, depth: nat) -> Parsed
    decreases src.len() - from, 1int,
{
    match lex(src, from) {
        Lexed::Token { token, end } => match token {
            TokenView::Null => Parsed::Value { value: ValueView::Null, next: end },
            TokenView::True => Parsed::Value { value: ValueView::Boolean(true), next: end },
            TokenView::False => Parsed::Value { value: ValueView::Boolean(false), next: end },
            TokenView::Number(n) => Parsed::Value { value: ValueView::Number(n), next: end },
            TokenView::String(s) => Parsed::Value { value: ValueView::String(s), next: end },
            TokenView::LBracket => if depth == 0 {
                Parsed::Failure(
                    ParseFailure::Syntax {
                        kind: ParseErrorKind::MaxDepthExceeded,
                        found: Some(token),
                        at: end,
                    },
                )
            } else if advances(src, from, end) {
                parse_array(src, end, (depth - 1) as nat)
            } else {
                arbitrary()
            },
            TokenView::LBrace => if depth == 0 {
                Parsed::Failure(
                    ParseFailure::Syntax {
                        kind: ParseErrorKind::MaxDepthExceeded,
                        found: Some(token),
                        at: end,
                    },
                )
            } else if advances(src, from, end) {
                parse_object(src, end, (depth - 1) as nat)
            } else {
                arbitrary()
            },
            _ => Parsed::Failure(
                unexpected(
                    lex(src, from),
                    ParseErrorKind::UnexpectedToken,
                    ParseErrorKind::UnexpectedEndOfInput,
                ),
            ),
        },
        other => Parsed::Failure(
            unexpected(
                other,
                ParseErrorKind::UnexpectedToken,
                ParseErrorKind::UnexpectedEndOfInput,
            ),
        ),
    }
}

/// The array whose opening bracket ends before `from`.
pub open spec fn parse_array(src: Seq<char>, from: int, depth: nat) -> Parsed
    decreases src.len() - from, 3int,
{
    match lex(src, from) {
        Lexed::Token { token: TokenView::RBracket, end } => Parsed::Value {
            value: ValueView::Array(Seq::empty()),
            next: end,
        },
        _ => parse_items(src, from, depth, Seq::empty()),
    }
}

/// The rest of an array of which the items before `from` are `acc`: an item,
/// then either a comma and more items, or the closing bracket.
pub open spec fn parse_items(src: Seq<char>, from: int, depth: nat, acc: Seq<ValueView>) -> Parsed
    decreases src.len() - from, 2int,
{
    match parse_value(src, from, depth) {
        Parsed::Value { value, next } => match parse_separator(src, next, Container::Array) {
            Separated::More { end } => if advances(src, from, end) {
                parse_items(src, end, depth, acc.push(value))
            } else {
                arbitrary()
            },
            Separated::Done { end } => Parsed::Value {
                value: ValueView::Array(acc.push(value)),
                next: end,
            },
            Separated::Failure(f) => Parsed::Failure(f),
        },
        Parsed::Failure(f) => Parsed::Failure(f),
    }
}

/// The object whose opening brace ends before `from`.
pub open spec fn parse_object(src: Seq<char>, from: int, depth: nat) -> Parsed
    decreases src.len() - from, 4int,
{
    match lex(src, from) {
        Lexed::Token { token: TokenView::RBrace, end } => Parsed::Value {
            value: ValueView::Object(Seq::empty()),
            next: end,
        },
        _ => parse_members(src, from, depth, Seq::empty()),
    }
}

/// The rest of an object of which the members before `from` gave `acc`: a
/// member, then either a comma and more members, or the closing brace. A key
/// that `acc` has already takes the new value.
pub open spec fn parse_members(
    src: Seq<char>,
    from: int,
    depth: nat,
    acc: Seq<(Seq<char>, ValueView)>,
) -> Parsed
    decreases src.len() - from, 3int,
{
    match parse_member(src, from, depth) {
        ParsedMember::Member { key, value, next } => match parse_separator(
            src,
            next,
            Container::Object,
        ) {
            Separated::More { end } => if advances(src, from, end) {
                parse_members(src, end, depth, with_member(acc, key, value))
            } else {
                arbitrary()
            },
            Separated::Done { end } => Parsed::Value {
                value: ValueView::Object(with_member(acc, key, value)),
                next: end,
            },
            Separated::Failure(f) => Parsed::Failure(f),
        },
        ParsedMember::Failure(f) => Parsed::Failure(f),
    }
}

/// The member that starts at `from`: a string for the key, a colon, a value.
pub open spec fn parse_member(src: Seq<char>, from: int, depth: nat) -> ParsedMember
    decreases src.len() - from, 2int,
{
    match lex(src, from) {
        Lexed::Token { token: TokenView::String(key), end: key_end } => match lex(src, key_end) {
            Lexed::Token { token: TokenView::Colon, end: colon_end } => if advances(
                src,
                from,
                colon_end,
            ) {
                match parse_value(src, colon_end, depth) {
                    Parsed::Value { value, next } => ParsedMember::Member { key, value, next },
                    Parsed::Failure(f) => ParsedMember::Failure(f),
                }
            } else {
                arbitrary()
            },
            other => ParsedMember::Failure(
                unexpected(other, ParseErrorKind::ExpectedColon, ParseErrorKind::ExpectedColon),
            ),
        },
        other => ParsedMember::Failure(
            unexpected(
                other,
                ParseErrorKind::UnexpectedToken,
                ParseErrorKind::UnexpectedEndOfInput,
            ),
        ),
    }
}

/// What the text from `from` on holds: nothing, or one value of any of the six
/// forms. What follows the value is not read.
pub open spec fn parse_document(src: Seq<char>, from: int, depth: nat) -> Document {
    match lex(src, from) {
        Lexed::End { end } => Document::Empty { end },
        _ => match parse_value(src, from, depth) {
            Parsed::Value { value, next } => Document::Value { value, next },
            Parsed::Failure(f) => Document::Failure(f),
        },
    }
}

/// Whitespace before a token is of no account: from any offset within the
/// whitespace that follows `from`, the lexer and the parser find what they find
/// from `from`.
pub proof fn lemma_whitespace_is_skipped(src: Seq<char>, from: int, within: int, depth: nat)
    requires
        0 <= from <= within <= run_end(src, from, CharClass::Whitespace),
    ensures
        lex(src, within) == lex(src, from),
        parse_value(src, within, depth) == parse_value(src, from, depth),
        parse_document(src, within, depth) == parse_document(src, from, depth),
    decreases within - from,
{
    if from < within {
        lemma_whitespace_is_skipped(src, from + 1, within, depth);
        lemma_lex_bounds(src, from);
        lemma_lex_bounds(src, from + 1);
    }
}

/// A value ends after its start and within the text, and is well formed: its
/// numbers are number literals, and the members of each of its objects have
/// distinct keys.
pub proof fn lemma_parse_value(src: Seq<char>, from: int, depth: nat)
    requires
        0 <= from <= src.len(),
    ensures
        parse_value(src, from, depth) matches Parsed::Value { value, next } ==> advances(
            src,
            from,
            next,
        ) && value.well_formed(),
    decreases src.len() - from, 1int,
{
    lemma_lex_bounds(src, from);
    match lex(src, from) {
        Lexed::Token { token, end } => {
            if depth > 0 {
                if token is LBracket {
                    lemma_parse_array(src, end, (depth - 1) as nat);
                } else if token is LBrace {
                    lemma_parse_object(src, end, (depth - 1) as nat);
                }
            }
        },
        _ => {},
    }
}

/// `lemma_parse_value` for an array whose opening bracket has been read.
pub proof fn lemma_parse_array(src: Seq<char>, from: int, depth: nat)
    requires
        0 <= from <= src.len(),
    ensures
        parse_array(src, from, depth) matches Parsed::Value { value, next } ==> advances(
            src,
            from,
            next,
        ) && value.well_formed(),
    decreases src.len() - from, 3int,
{
    lemma_lex_bounds(src, from);
    lemma_parse_items(src, from, depth, Seq::empty());
}

/// `lemma_parse_value` for the rest of an array, whose earlier items are well formed.
pub proof fn lemma_parse_items(src: Seq<char>, from: int, depth: nat, acc: Seq<ValueView>)
    requires
        0 <= from <= src.len(),
        forall|i: int| 0 <= i < acc.len() ==> (#[trigger] acc[i]).well_formed(),
    ensures
        parse_items(src, from, depth, acc) matches Parsed::Value { value, next } ==> advances(
            src,
            from,
            next,
        ) && value.well_formed(),
    decreases src.len() - from, 2int,
{
    lemma_parse_value(src, from, depth);
    match parse_value(src, from, depth) {
        Parsed::Value { value, next } => {
            lemma_lex_bounds(src, next);
            match parse_separator(src, next, Container::Array) {
                Separated::More { end } => {
                    lemma_parse_items(src, end, depth, acc.push(value));
                },
                _ => {},
            }
        },
        _ => {},
    }
}

/// `lemma_parse_value` for an object whose opening brace has been read.
pub proof fn lemma_parse_object(src: Seq<char>, from: int, depth: nat)
    requires
        0 <= from <= src.len(),
    ensures
        parse_object(src, from, depth) matches Parsed::Value { value, next } ==> advances(
            src,
            from,
            next,
        ) && value.well_formed(),
    decreases src.len() - from, 4int,
{
    lemma_lex_bounds(src, from);
    lemma_parse_members(src, from, depth, Seq::empty());
}

/// `lemma_parse_value` for the rest of an object, whose earlier members have
/// distinct keys and well-formed values.
pub proof fn lemma_parse_members(
    src: Seq<char>,
    from: int,
    depth: nat,
    acc: Seq<(Seq<char>, ValueView)>,
)
    requires
        0 <= from <= src.len(),
        distinct_keys(acc),
        forall|i: int| 0 <= i < acc.len() ==> (#[trigger] acc[i]).1.well_formed(),
    ensures
        parse_members(src, from, depth, acc) matches Parsed::Value { value, next } ==> advances(
            src,
            from,
            next,
        ) && value.well_formed(),
    decreases src.len() - from, 3int,
{
    lemma_parse_member(src, from, depth);
    match parse_member(src, from, depth) {
        ParsedMember::Member { key, value, next } => {
            lemma_lex_bounds(src, next);
            lemma_with_member(acc, key, value);
            match parse_separator(src, next, Container::Object) {
                Separated::More { end } => {
                    lemma_parse_members(src, end, depth, with_member(acc, key, value));
                },
                _ => {},
            }
        },
        _ => {},
    }
}

/// `lemma_parse_value` for one member of an object.
pub proof fn lemma_parse_member(src: Seq<char>, from: int, depth: nat)
    requires
        0 <= from <= src.len(),
    ensures
        parse_member(src, from, depth) matches ParsedMember::Member { key, value, next }
            ==> advances(src, from, next) && value.well_formed(),
    decreases src.len() - from, 2int,
{
    lemma_lex_bounds(src, from);
    match lex(src, from) {
        Lexed::Token { token: TokenView::String(key), end: key_end } => {
            lemma_lex_bounds(src, key_end);
            match lex(src, key_end) {
                Lexed::Token { token: TokenView::Colon, end: colon_end } => {
                    lemma_parse_value(src, colon_end, depth);
                },
                _ => {},
            }
        },
        _ => {},
    }
}

/// The members of an object in the order of the text, from the one that starts
/// at `from` to the last before the closing brace, each with its key and value
/// as written.
pub open spec fn members_read(src: Seq<char>, from: int, depth: nat) -> Seq<(Seq<char>, ValueView)>
    decreases src.len() - from,
{
    match parse_member(src, from, depth) {
        ParsedMember::Member { key, value, next } => match parse_separator(
            src,
            next,
            Container::Object,
        ) {
            Separated::More { end } => if advances(src, from, end) {
                seq![(key, value)] + members_read(src, end, depth)
            } else {
                seq![(key, value)]
            },
            _ => seq![(key, value)],
        },
        ParsedMember::Failure(f) => Seq::empty(),
    }
}

/// What one member and what follows it add to the rest of an object.
proof fn lemma_members_step(
    src: Seq<char>,
    from: int,
    depth: nat,
    acc: Seq<(Seq<char>, ValueView)>,
)
    requires
        0 <= from <= src.len(),
    ensures
        match parse_member(src, from, depth) {
            ParsedMember::Member { key, value, next } => match parse_separator(
                src,
                next,
                Container::Object,
            ) {
                Separated::More { end } => {
                    &&& advances(src, from, end)
                    &&& parse_members(src, from, depth, acc) == parse_members(
                        src,
                        end,
                        depth,
                        with_member(acc, key, value),
                    )
                    &&& members_read(src, from, depth) == seq![(key, value)] + members_read(
                        src,
                        end,
                        depth,
                    )
                },
                Separated::Done { end } => {
                    &&& parse_members(src, from, depth, acc) == (Parsed::Value {
                        value: ValueView::Object(with_member(acc, key, value)),
                        next: end,
                    })
                    &&& members_read(src, from, depth) == seq![(key, value)]
                },
                Separated::Failure(f) => parse_members(src, from, depth, acc)
                    == Parsed::Failure(f),
            },
            ParsedMember::Failure(f) => parse_members(src, from, depth, acc) == Parsed::Failure(f),
        },
{
    lemma_parse_member(src, from, depth);
    match parse_member(src, from, depth) {
        ParsedMember::Member { key, value, next } => {
            lemma_lex_bounds(src, next);
        },
        _ => {},
    }
}

/// Setting a pair and then others is setting all of them.
proof fn lemma_with_members_first(
    members: Seq<(Seq<char>, ValueView)>,
    first: (Seq<char>, ValueView),
    rest: Seq<(Seq<char>, ValueView)>,
)
    ensures
        with_members(members, seq![first] + rest) == with_members(
            with_member(members, first.0, first.1),
            rest,
        ),
        with_members(members, seq![first]) == with_member(members, first.0, first.1),
{
    assert((seq![first] + rest).drop_first() =~= rest);
    assert((seq![first] + rest)[0] == first);
    assert(seq![first].drop_first() =~= Seq::empty());
    assert(seq![first][0] == first);
    let set = with_member(members, first.0, first.1);
    assert(with_members(set, Seq::empty()) == set);
}

/// The rest of an object is the members read before with each of the members
/// of the text set, one after the other.
pub proof fn lemma_members_are_set_in_turn(
    src: Seq<char>,
    from: int,
    depth: nat,
    acc: Seq<(Seq<char>, ValueView)>,
)
    requires
        0 <= from <= src.len(),
    ensures
        parse_members(src, from, depth, acc) matches Parsed::Value { value, .. } ==> value
            == ValueView::Object(with_members(acc, members_read(src, from, depth))),
    decreases src.len() - from,
{
    lemma_members_step(src, from, depth, acc);
    match parse_member(src, from, depth) {
        ParsedMember::Member { key, value, next } => {
            match parse_separator(src, next, Container::Object) {
                Separated::More { end } => {
                    lemma_members_are_set_in_turn(src, end, depth, with_member(acc, key, value));
                    lemma_with_members_first(acc, (key, value), members_read(src, end, depth));
                },
                Separated::Done { end } => {
                    lemma_with_members_first(acc, (key, value), Seq::empty());
                },
                _ => {},
            }
        },
        _ => {},
    }
}

/// In an object as it is read, each key stands once and has the value of the
/// last member of the text with that key. The members of the object are those
/// of the text, set one after the other; so the keys of the object are the
/// keys of the text, and the value of a key is that of the member after which
/// the text has no other with that key.
pub proof fn lemma_object_keeps_last_values(src: Seq<char>, from: int, depth: nat)
    requires
        0 <= from <= src.len(),
        parse_object(src, from, depth) is Value,
    ensures
        parse_object(src, from, depth) matches Parsed::Value {
            value: ValueView::Object(members),
            ..
        } && {
            let pairs = members_read(src, from, depth);
            &&& members == with_members(Seq::empty(), pairs)
            &&& distinct_keys(members)
            &&& forall|key: Seq<char>| #[trigger] has_key(members, key) == has_key(pairs, key)
            &&& forall|index: int| #[trigger]
                is_last_with_key(pairs, index) ==> member_value(members, pairs[index].0)
                    == pairs[index].1
        },
{
    let pairs = members_read(src, from, depth);
    lemma_lex_bounds(src, from);
    lemma_members_are_set_in_turn(src, from, depth, Seq::empty());
    lemma_last_value_wins(Seq::empty(), pairs);
    assert forall|key: Seq<char>| !has_key(Seq::<(Seq<char>, ValueView)>::empty(), key) by {}
}

/// Whether `failure` is the refusal of a value that is nested too deep.
pub open spec fn is_depth_failure(failure: ParseFailure) -> bool {
    failure matches ParseFailure::Syntax { kind: ParseErrorKind::MaxDepthExceeded, .. }
}

/// A limit to nesting that is no less than the number of characters left is no
/// limit: no value is refused for its depth.
pub proof fn lemma_depth_suffices(src: Seq<char>, from: int, depth: nat)
    requires
        0 <= from <= src.len(),
        depth >= src.len() - from,
    ensures
        !(parse_value(src, from, depth) matches Parsed::Failure(f) && is_depth_failure(f)),
        !(parse_document(src, from, depth) matches Document::Failure(f) && is_depth_failure(f)),
    decreases src.len() - from, 1int,
{
    lemma_lex_bounds(src, from);
    match lex(src, from) {
        Lexed::Token { token, end } => {
            if token is LBracket {
                lemma_depth_suffices_array(src, end, (depth - 1) as nat);
            } else if token is LBrace {
                lemma_depth_suffices_object(src, end, (depth - 1) as nat);
            }
        },
        _ => {},
    }
}

/// `lemma_depth_suffices` for an array whose opening bracket has been read.
proof fn lemma_depth_suffices_array(src: Seq<char>, from: int, depth: nat)
    requires
        0 <= from <= src.len(),
        depth >= src.len() - from,
    ensures
        !(parse_array(src, from, depth) matches Parsed::Failure(f) && is_depth_failure(f)),
    decreases src.len() - from, 3int,
{
    lemma_depth_suffices_items(src, from, depth, Seq::empty());
}

/// `lemma_depth_suffices` for the rest of an array.
proof fn lemma_depth_suffices_items(src: Seq<char>, from: int, depth: nat, acc: Seq<ValueView>)
    requires
        0 <= from <= src.len(),
        depth >= src.len() - from,
    ensures
        !(parse_items(src, from, depth, acc) matches Parsed::Failure(f) && is_depth_failure(f)),
    decreases src.len() - from, 2int,
{
    lemma_depth_suffices(src, from, depth);
    lemma_parse_value(src, from, depth);
    match parse_value(src, from, depth) {
        Parsed::Value { value, next } => {
            lemma_lex_bounds(src, next);
            match parse_separator(src, next, Container::Array) {
                Separated::More { end } => {
                    lemma_depth_suffices_items(src, end, depth, acc.push(value));
                },
                _ => {},
            }
        },
        _ => {},
    }
}

/// `lemma_depth_suffices` for an object whose opening brace has been read.
proof fn lemma_depth_suffices_object(src: Seq<char>, from: int, depth: nat)
    requires
        0 <= from <= src.len(),
        depth >= src.len() - from,
    ensures
        !(parse_object(src, from, depth) matches Parsed::Failure(f) && is_depth_failure(f)),
    decreases src.len() - from, 4int,
{
    lemma_depth_suffices_members(src, from, depth, Seq::empty());
}

/// `lemma_depth_suffices` for the rest of an object.
proof fn lemma_depth_suffices_members(
    src: Seq<char>,
    from: int,
    depth: nat,
    acc: Seq<(Seq<char>, ValueView)>,
)
    requires
        0 <= from <= src.len(),
        depth >= src.len() - from,
    ensures
        !(parse_members(src, from, depth, acc) matches Parsed::Failure(f) && is_depth_failure(f)),
    decreases src.len() - from, 3int,
{
    lemma_depth_suffices_member(src, from, depth);
    lemma_parse_member(src, from, depth);
    match parse_member(src, from, depth) {
        ParsedMember::Member { key, value, next } => {
            lemma_lex_bounds(src, next);
            match parse_separator(src, next, Container::Object) {
                Separated::More { end } => {
                    lemma_depth_suffices_members(src, end, depth, with_member(acc, key, value));
                },
                _ => {},
            }
        },
        _ => {},
    }
}

/// `lemma_depth_suffices` for one member of an object.
proof fn lemma_depth_suffices_member(src: Seq<char>, from: int, depth: nat)
    requires
        0 <= from <= src.len(),
        depth >= src.len() - from,
    ensures
        !(parse_member(src, from, depth) matches ParsedMember::Failure(f) && is_depth_failure(f)),
    decreases src.len() - from, 2int,
{
    lemma_lex_bounds(src, from);
    match lex(src, from) {
        Lexed::Token { token: TokenView::String(key), end: key_end } => {
            lemma_lex_bounds(src, key_end);
            match lex(src, key_end) {
                Lexed::Token { token: TokenView::Colon, end: colon_end } => {
                    lemma_depth_suffices(src, colon_end, depth);
                },
                _ => {},
            }
        },
        _ => {},
    }
}

/// The trees of the items after one more item.
proof fn lemma_items_push(items: Seq<Value>, item: Value)
    ensures
        items_view(items.push(item)) == items_view(items).push(item@),
{
    assert(items_view(items.push(item)) =~= items_view(items).push(item@));
}

/// Sets `key` to `value` in `members`.
fn insert_member(members: &mut Vec<(String, Value)>, key: String, value: Value)
    requires
        distinct_keys(members_view(old(members)@)),
    ensures
        members_view(final(members)@) == with_member(
            members_view(old(members)@),
            key@,
            value@,
        ),
{
    let ghost before = members_view(members@);
    let mut i: usize = 0;
    while i < members.len()
        invariant
            i <= members.len(),
            members@ == old(members)@,
            before == members_view(members@),
            distinct_keys(before),
            forall|j: int| 0 <= j < i ==> (#[trigger] before[j]).0 != key@,
        decreases members.len() - i,
    {
        if members[i].0 == key {
            proof {
                assert(before[i as int].0 == key@);
                assert(has_key(before, key@));
                let k = key_index(before, key@);
                assert(k == i) by {
                    if k < i {
                        assert(before[k].0 != before[i as int].0);
                    } else if k > i {
                        assert(before[i as int].0 != before[k].0);
                    }
                }
            }
            members.set(i, (key, value));
            assert(members_view(members@) =~= with_member(before, key@, value@)) by {
                reveal(with_member);
            }
            return ;
        }
        i = i + 1;
    }
    proof {
        assert(!has_key(before, key@));
    }
    members.push((key, value));
    assert(members_view(members@) =~= with_member(before, key@, value@)) by {
        reveal(with_member);
    }
}

/// A parser over the tokens of a lexer that it owns. It holds at most one token
/// that it has taken from the lexer and not yet used.
pub struct Parser {
    lexer: Lexer,
    stored: Option<Token>,
    max_depth: usize,
    cursor: Ghost<int>,
}

impl Parser {
    /// The text.
    pub closed spec fn source(&self) -> Seq<char> {
        self.lexer.source()
    }

    /// The offset of the text from which the parser goes on: the lookahead
    /// token, where there is one, lies after it.
    pub closed spec fn cursor(&self) -> int {
        self.cursor@
    }

    /// The deepest nesting of arrays and objects that the parser accepts.
    pub closed spec fn max_depth(&self) -> nat {
        self.max_depth as nat
    }

    /// The invariant: the lookahead token, where there is one, is the token at
    /// the cursor, and the lexer stands after it; else the lexer stands at the
    /// cursor.
    pub closed spec fn well_formed(&self) -> bool {
        &&& self.lexer.well_formed()
        &&& 0 <= self.cursor@ <= self.lexer.offset() <= self.lexer.source().len()
        &&& match self.stored {
            Some(t) => lex(self.lexer.source(), self.cursor@) == (Lexed::Token {
                token: t@,
                end: self.lexer.offset(),
            }),
            None => self.cursor@ == self.lexer.offset(),
        }
    }

    /// A parser that reads on from where `lexer` stands and refuses arrays and
    /// objects nested more than `DEFAULT_MAX_DEPTH` deep.
    pub fn new(lexer: Lexer) -> (parser: Parser)
        requires
            lexer.well_formed(),
        ensures
            parser.well_formed(),
            parser.source() == lexer.source(),
            parser.cursor() == lexer.offset(),
            parser.max_depth() == DEFAULT_MAX_DEPTH,
    {
        Parser::with_max_depth(lexer, DEFAULT_MAX_DEPTH)
    }

    /// A parser that reads on from where `lexer` stands and refuses arrays and
    /// objects nested more than `max_depth` deep.
    pub fn with_max_depth(lexer: Lexer, max_depth: usize) -> (parser: Parser)
        requires
            lexer.well_formed(),
        ensures
            parser.well_formed(),
            parser.source() == lexer.source(),
            parser.cursor() == lexer.offset(),
            parser.max_depth() == max_depth,
    {
        proof {
            lexer.lemma_offset_in_source();
        }
        Parser { cursor: Ghost(lexer.offset()), lexer, stored: None, max_depth }
    }

    /// Whether `r` and the state of this parser are the outcome `parsed`.
    pub open spec fn yields(&self, parsed: Parsed, r: Result<Value, ParseError>) -> bool {
        match parsed {
            Parsed::Value { value, next } => r matches Ok(v) && v@ == value && self.cursor()
                == next,
            Parsed::Failure(f) => r matches Err(e) && e.reports(self.source(), f) && self.cursor()
                == f.at(),
        }
    }

    /// A structural error of kind `kind` at the lexer's position.
    fn error(&self, kind: ParseErrorKind, found: Option<Token>) -> (e: ParseError)
        requires
            self.well_formed(),
            self.stored is None,
        ensures
            e.reports(
                self.source(),
                ParseFailure::Syntax { kind, found: found_view(found), at: self.cursor() },
            ),
    {
        ParseError::Syntax(SyntaxError { kind, position: self.lexer.position(), found })
    }

    /// Makes sure that the lookahead token is there, unless the tokens have ended.
    fn peek(&mut self) -> (r: Result<(), ParseError>)
        requires
            old(self).well_formed(),
        ensures
            final(self).well_formed(),
            final(self).source() == old(self).source(),
            final(self).max_depth() == old(self).max_depth(),
            old(self).cursor() <= final(self).cursor(),
            r is Ok ==> lex(final(self).source(), final(self).cursor()) == lex(
                old(self).source(),
                old(self).cursor(),
            ),
            match lex(old(self).source(), old(self).cursor()) {
                Lexed::Token { token, end } => {
                    &&& r is Ok
                    &&& final(self).cursor() == old(self).cursor()
                    &&& final(self).lexer.offset() == end
                    &&& final(self).stored matches Some(t)
                    &&& t@ == token
                },
                Lexed::End { end } => r is Ok && final(self).cursor() == end && final(self).stored is None && final(self).lexer.offset() == end,
                Lexed::Failure(f) => r matches Err(e) && e.reports(
                    final(self).source(),
                    ParseFailure::Lexical(f),
                ) && final(self).cursor() == f.at && final(self).stored is None,
            },
    {
        if self.stored.is_none() {
            proof {
                lemma_lex_bounds(self.lexer.source(), self.cursor@);
            }
            match self.lexer.next_token() {
                Ok(Some(token)) => {
                    self.stored = Some(token);
                    Ok(())
                },
                Ok(None) => {
                    self.cursor = Ghost(self.lexer.offset());
                    Ok(())
                },
                Err(e) => {
                    self.cursor = Ghost(self.lexer.offset());
                    Err(ParseError::Lexical(e))
                },
            }
        } else {
            Ok(())
        }
    }

    /// Takes the next token: the lookahead token if there is one, else the
    /// lexer's next.
    fn next(&mut self) -> (r: Result<Option<Token>, ParseError>)
        requires
            old(self).well_formed(),
        ensures
            final(self).well_formed(),
            final(self).source() == old(self).source(),
            final(self).max_depth() == old(self).max_depth(),
            final(self).stored is None,
            match lex(old(self).source(), old(self).cursor()) {
                Lexed::Token { token, end } => r matches Ok(Some(t)) && t@ == token && final(self).cursor() == end,
                Lexed::End { end } => r matches Ok(None) && final(self).cursor() == end,
                Lexed::Failure(f) => r matches Err(e) && e.reports(
                    final(self).source(),
                    ParseFailure::Lexical(f),
                ) && final(self).cursor() == f.at && final(self).stored is None,
            },
    {
        proof {
            lemma_lex_bounds(self.lexer.source(), self.cursor@);
        }
        if self.stored.is_some() {
            self.cursor = Ghost(self.lexer.offset());
            Ok(self.stored.take())
        } else {
            let r = self.lexer.next_token();
            self.cursor = Ghost(self.lexer.offset());
            match r {
                Ok(token) => Ok(token),
                Err(e) => Err(ParseError::Lexical(e)),
            }
        }
    }

    /// Reads one value, with arrays and objects nested at most `depth` deep.
    fn value(&mut self, depth: usize) -> (r: Result<Value, ParseError>)
        requires
            old(self).well_formed(),
        ensures
            final(self).well_formed(),
            final(self).source() == old(self).source(),
            final(self).max_depth() == old(self).max_depth(),
            final(self).yields(parse_value(old(self).source(), old(self).cursor(), depth as nat), r),
        decreases old(self).source().len() - old(self).cursor(), 1int,
    {
        proof {
            lemma_lex_bounds(self.lexer.source(), self.cursor@);
        }
        match self.next() {
            Err(e) => Err(e),
            Ok(None) => Err(self.error(ParseErrorKind::UnexpectedEndOfInput, None)),
            Ok(Some(token)) => match token {
                Token::Null => Ok(Value::Null),
                Token::True => Ok(Value::Boolean(true)),
                Token::False => Ok(Value::Boolean(false)),
                Token::Number(n) => Ok(Value::Number(n)),
                Token::String(s) => Ok(Value::String(s)),
                Token::LBracket => if depth == 0 {
                    Err(self.error(ParseErrorKind::MaxDepthExceeded, Some(Token::LBracket)))
                } else {
                    self.array(depth - 1)
                },
                Token::LBrace => if depth == 0 {
                    Err(self.error(ParseErrorKind::MaxDepthExceeded, Some(Token::LBrace)))
                } else {
                    self.object(depth - 1)
                },
                other => Err(self.error(ParseErrorKind::UnexpectedToken, Some(other))),
            },
        }
    }

    /// Reads what follows an item or a member: `true` after a comma, `false`
    /// after the token that closes `container`.
    fn separator(&mut self, container: Container) -> (r: Result<bool, ParseError>)
        requires
            old(self).well_formed(),
        ensures
            final(self).well_formed(),
            final(self).source() == old(self).source(),
            final(self).max_depth() == old(self).max_depth(),
            match parse_separator(old(self).source(), old(self).cursor(), container) {
                Separated::More { end } => r == Ok::<bool, ParseError>(true) && final(
                    self).cursor() == end,
                Separated::Done { end } => r == Ok::<bool, ParseError>(false) && final(
                    self).cursor() == end,
                Separated::Failure(f) => r matches Err(e) && e.reports(final(self).source(), f)
                    && final(self).cursor() == f.at(),
            },
    {
        match self.next() {
            Err(e) => Err(e),
            Ok(Some(Token::Comma)) => Ok(true),
            Ok(Some(Token::RBracket)) => match container {
                Container::Array => Ok(false),
                Container::Object => Err(
                    self.error(ParseErrorKind::ExpectedCommaOrClose, Some(Token::RBracket)),
                ),
            },
            Ok(Some(Token::RBrace)) => match container {
                Container::Object => Ok(false),
                Container::Array => Err(
                    self.error(ParseErrorKind::ExpectedCommaOrClose, Some(Token::RBrace)),
                ),
            },
            Ok(found) => Err(self.error(ParseErrorKind::ExpectedCommaOrClose, found)),
        }
    }

    /// Whether the lookahead token closes `container`; if so, takes it.
    fn closes(&mut self, container: Container) -> (r: Result<bool, ParseError>)
        requires
            old(self).well_formed(),
        ensures
            final(self).well_formed(),
            final(self).source() == old(self).source(),
            final(self).max_depth() == old(self).max_depth(),
            match lex(old(self).source(), old(self).cursor()) {
                Lexed::Token { token, end } => if token == container.closing() {
                    r == Ok::<bool, ParseError>(true) && final(self).cursor() == end
                } else {
                    r == Ok::<bool, ParseError>(false) && final(self).cursor() == old(
                        self).cursor()
                },
                Lexed::End { end } => r == Ok::<bool, ParseError>(false) && lex(
                    final(self).source(),
                    final(self).cursor(),
                ) == lex(old(self).source(), old(self).cursor()) && old(self).cursor() <= final(
                    self).cursor(),
                Lexed::Failure(f) => r matches Err(e) && e.reports(
                    final(self).source(),
                    ParseFailure::Lexical(f),
                ) && final(self).cursor() == f.at && final(self).stored is None,
            },
    {
        match self.peek() {
            Err(e) => {
                return Err(e);
            },
            Ok(()) => {},
        }
        let closing = match (&self.stored, container) {
            (Some(Token::RBracket), Container::Array) => true,
            (Some(Token::RBrace), Container::Object) => true,
            _ => false,
        };
        if closing {
            let _ = self.next();
        }
        Ok(closing)
    }

    /// Reads the rest of an array whose opening bracket has just been taken.
    fn array(&mut self, depth: usize) -> (r: Result<Value, ParseError>)
        requires
            old(self).well_formed(),
        ensures
            final(self).well_formed(),
            final(self).source() == old(self).source(),
            final(self).max_depth() == old(self).max_depth(),
            final(self).yields(parse_array(old(self).source(), old(self).cursor(), depth as nat), r),
        decreases old(self).source().len() - old(self).cursor(), 3int,
    {
        let ghost src = self.source();
        let ghost from = self.cursor();
        let mut items: Vec<Value> = Vec::new();
        assert(items_view(items@) =~= Seq::empty());
        match self.closes(Container::Array) {
            Err(e) => {
                return Err(e);
            },
            Ok(true) => {
                return Ok(Value::Array(items));
            },
            Ok(false) => {},
        }
        assert(parse_value(src, from, depth as nat) == parse_value(
            src,
            self.cursor(),
            depth as nat,
        ));
        loop
            invariant
                self.well_formed(),
                self.source() == src,
                src == old(self).source(),
                self.max_depth() == old(self).max_depth(),
                from == old(self).cursor(),
                from <= self.cursor(),
                parse_array(src, from, depth as nat) == parse_items(
                    src,
                    self.cursor(),
                    depth as nat,
                    items_view(items@),
                ),
            decreases src.len() - self.cursor(),
        {
            proof {
                self.lemma_cursor_in_source();
                lemma_parse_value(src, self.cursor(), depth as nat);
            }
            let item = match self.value(depth) {
                Ok(item) => item,
                Err(e) => {
                    return Err(e);
                },
            };
            proof {
                lemma_items_push(items@, item);
                lemma_lex_bounds(src, self.cursor());
            }
            items.push(item);
            match self.separator(Container::Array) {
                Err(e) => {
                    return Err(e);
                },
                Ok(true) => {},
                Ok(false) => {
                    return Ok(Value::Array(items));
                },
            }
        }
    }

    /// Reads one member of an object: its key, a colon, its value.
    fn member(&mut self, depth: usize) -> (r: Result<(String, Value), ParseError>)
        requires
            old(self).well_formed(),
        ensures
            final(self).well_formed(),
            final(self).source() == old(self).source(),
            final(self).max_depth() == old(self).max_depth(),
            match parse_member(old(self).source(), old(self).cursor(), depth as nat) {
                ParsedMember::Member { key, value, next } => r matches Ok(m) && m.0@ == key && m.1@
                    == value && final(self).cursor() == next,
                ParsedMember::Failure(f) => r matches Err(e) && e.reports(final(self).source(), f)
                    && final(self).cursor() == f.at(),
            },
        decreases old(self).source().len() - old(self).cursor(), 2int,
    {
        proof {
            self.lemma_cursor_in_source();
            lemma_lex_bounds(self.source(), self.cursor());
        }
        let key = match self.next() {
            Err(e) => {
                return Err(e);
            },
            Ok(None) => {
                return Err(self.error(ParseErrorKind::UnexpectedEndOfInput, None));
            },
            Ok(Some(Token::String(key))) => key,
            Ok(Some(other)) => {
                return Err(self.error(ParseErrorKind::UnexpectedToken, Some(other)));
            },
        };
        proof {
            lemma_lex_bounds(self.source(), self.cursor());
        }
        match self.next() {
            Err(e) => {
                return Err(e);
            },
            Ok(Some(Token::Colon)) => {},
            Ok(found) => {
                return Err(self.error(ParseErrorKind::ExpectedColon, found));
            },
        }
        match self.value(depth) {
            Ok(value) => Ok((key, value)),
            Err(e) => Err(e),
        }
    }

    /// Reads the rest of an object whose opening brace has just been taken.
    fn object(&mut self, depth: usize) -> (r: Result<Value, ParseError>)
        requires
            old(self).well_formed(),
        ensures
            final(self).well_formed(),
            final(self).source() == old(self).source(),
            final(self).max_depth() == old(self).max_depth(),
            final(self).yields(
                parse_object(old(self).source(), old(self).cursor(), depth as nat),
                r,
            ),
        decreases old(self).source().len() - old(self).cursor(), 4int,
    {
        let ghost src = self.source();
        let ghost from = self.cursor();
        let mut members: Vec<(String, Value)> = Vec::new();
        assert(members_view(members@) =~= Seq::empty());
        match self.closes(Container::Object) {
            Err(e) => {
                return Err(e);
            },
            Ok(true) => {
                return Ok(Value::Object(members));
            },
            Ok(false) => {},
        }
        assert(parse_member(src, from, depth as nat) == parse_member(
            src,
            self.cursor(),
            depth as nat,
        ));
        loop
            invariant
                self.well_formed(),
                self.source() == src,
                src == old(self).source(),
                self.max_depth() == old(self).max_depth(),
                from == old(self).cursor(),
                from <= self.cursor(),
                distinct_keys(members_view(members@)),
                parse_object(src, from, depth as nat) == parse_members(
                    src,
                    self.cursor(),
                    depth as nat,
                    members_view(members@),
                ),
            decreases src.len() - self.cursor(),
        {
            proof {
                self.lemma_cursor_in_source();
                lemma_parse_member(src, self.cursor(), depth as nat);
            }
            let (key, value) = match self.member(depth) {
                Ok(member) => member,
                Err(e) => {
                    return Err(e);
                },
            };
            proof {
                lemma_with_member(members_view(members@), key@, value@);
                lemma_lex_bounds(src, self.cursor());
            }
            insert_member(&mut members, key, value);
            match self.separator(Container::Object) {
                Err(e) => {
                    return Err(e);
                },
                Ok(true) => {},
                Ok(false) => {
                    return Ok(Value::Object(members));
                },
            }
        }
    }

    /// The cursor lies within the text.
    pub proof fn lemma_cursor_in_source(&self)
        requires
            self.well_formed(),
        ensures
            0 <= self.cursor() <= self.source().len(),
    {
    }

    /// Reads one document: `None` where the text holds no token, else the value
    /// that its tokens form, which may be of any of the six forms. Tokens after
    /// the value are left unread, so that a further call reads on after it.
    /// After an error the parser stands where reading stopped.
    pub fn parse(&mut self) -> (r: Result<Option<Value>, ParseError>)
        requires
            old(self).well_formed(),
        ensures
            final(self).well_formed(),
            final(self).source() == old(self).source(),
            final(self).max_depth() == old(self).max_depth(),
            match parse_document(old(self).source(), old(self).cursor(), old(self).max_depth()) {
                Document::Empty { end } => r matches Ok(None) && final(self).cursor() == end,
                Document::Value { value, next } => r matches Ok(Some(v)) && v@ == value
                    && value.well_formed() && final(self).cursor() == next,
                Document::Failure(f) => r matches Err(e) && e.reports(final(self).source(), f)
                    && final(self).cursor() == f.at(),
            },
    {
        proof {
            lemma_lex_bounds(self.lexer.source(), self.cursor@);
            lemma_parse_value(self.lexer.source(), self.cursor@, self.max_depth as nat);
        }
        match self.peek() {
            Err(e) => {
                return Err(e);
            },
            Ok(()) => {},
        }
        if self.stored.is_none() {
            return Ok(None);
        }
        match self.value(self.max_depth) {
            Ok(value) => Ok(Some(value)),
            Err(e) => Err(e),
        }
    }
}

} // verus!
