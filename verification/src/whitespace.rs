//! Whitespace between tokens is of no account, for any text.
//!
//! The lexer reads a token from its characters and from the one after them, and
//! from nothing else. So whitespace that is put in where a token starts leaves
//! every token as it was, and with the tokens the value that the parser reads.

use vstd::prelude::*;
use crate::chars::{is_whitespace, lemma_run_end, lemma_run_end_unique, run_end, CharClass};
use crate::lexer::{
    escape, lemma_escape_bounds, lemma_lex_bounds, lemma_scan_string_bounds, lex, punctuation,
    scan_string, Escaped, Lexed,
};
use crate::error::ParseFailure;
use crate::parser::{
    advances, lemma_parse_member, lemma_parse_value, lemma_whitespace_is_skipped, parse_array,
    parse_document, parse_items, parse_member, parse_members, parse_object, parse_separator,
    parse_value, Container, Document, Parsed, ParsedMember, Separated,
};
use crate::value::{with_member, ValueView};
use crate::text::is_gap;
use crate::token::TokenView;

verus! {

/// Whether `b` holds, `shift` further on, the characters that `a` holds from
/// `low` up to `high`.
pub open spec fn same_window(a: Seq<char>, b: Seq<char>, low: int, high: int, shift: int) -> bool {
    &&& 0 <= low <= high <= a.len()
    &&& 0 <= low + shift
    &&& high + shift <= b.len()
    &&& forall|x: int| low <= x < high ==> #[trigger] a[x] == b[x + shift]
}

/// Whether a run of `class` cannot go on at `at` in `src`.
pub open spec fn stops(src: Seq<char>, at: int, class: CharClass) -> bool {
    at >= src.len() || !class.contains(src[at])
}

/// A window seen from the other text.
proof fn lemma_window_back(a: Seq<char>, b: Seq<char>, low: int, high: int, shift: int)
    requires
        same_window(a, b, low, high, shift),
    ensures
        same_window(b, a, low + shift, high + shift, -shift),
{
    assert forall|y: int| low + shift <= y < high + shift implies #[trigger] b[y] == a[y - shift] by {
        assert(a[y - shift] == b[y - shift + shift]);
    }
}

/// A stretch of a window is the same text in both.
proof fn lemma_window_subrange(
    a: Seq<char>,
    b: Seq<char>,
    low: int,
    high: int,
    shift: int,
    from: int,
    to: int,
)
    requires
        same_window(a, b, low, high, shift),
        low <= from <= to <= high,
    ensures
        a.subrange(from, to) == b.subrange(from + shift, to + shift),
{
    let s = a.subrange(from, to);
    let u = b.subrange(from + shift, to + shift);
    assert forall|t: int| 0 <= t < s.len() implies #[trigger] s[t] == u[t] by {
        assert(a[from + t] == b[from + t + shift]);
    }
    assert(s =~= u);
}

/// A run that ends within a window ends at the same place in the other text,
/// where the other text stops it if it reaches the end of the window.
proof fn lemma_run_in_window(
    a: Seq<char>,
    b: Seq<char>,
    low: int,
    high: int,
    shift: int,
    from: int,
    class: CharClass,
)
    requires
        same_window(a, b, low, high, shift),
        low <= from <= high,
        run_end(a, from, class) <= high,
        run_end(a, from, class) < high || stops(b, high + shift, class),
    ensures
        run_end(b, from + shift, class) == run_end(a, from, class) + shift,
{
    lemma_run_end(a, from, class);
    let end = run_end(a, from, class);
    assert forall|y: int| from + shift <= y < end + shift implies class.contains(#[trigger] b[y]) by {
        assert(a[y - shift] == b[y - shift + shift]);
    }
    if end < high {
        assert(a[end] == b[end + shift]);
    }
    lemma_run_end_unique(b, from + shift, class, end + shift);
}

/// A run that covers `count` characters of the class goes at least that far.
proof fn lemma_run_covers(src: Seq<char>, from: int, class: CharClass, count: int)
    requires
        0 <= from,
        0 <= count,
        from + count <= src.len(),
        forall|x: int| from <= x < from + count ==> class.contains(#[trigger] src[x]),
    ensures
        run_end(src, from, class) >= from + count,
{
    lemma_run_end(src, from, class);
}

/// An escape that lies within a window is the same escape in the other text.
proof fn lemma_escape_in_window(
    a: Seq<char>,
    b: Seq<char>,
    low: int,
    high: int,
    shift: int,
    from: int,
)
    requires
        same_window(a, b, low, high, shift),
        low <= from <= high,
        escape(a, from) matches Escaped::Char { c, end } && end <= high,
    ensures
        escape(a, from) matches Escaped::Char { c, end } && escape(b, from + shift) == (
        Escaped::Char { c, end: end + shift }),
{
    lemma_escape_bounds(a, from);
    assert(a[from] == b[from + shift]);
    if a[from] == 'u' {
        let first = from + 1;
        lemma_run_end(a, first, CharClass::HexDigit);
        assert forall|y: int| first + shift <= y < first + shift + 4 implies CharClass::HexDigit.contains(
            #[trigger] b[y],
        ) by {
            assert(a[y - shift] == b[y - shift + shift]);
        }
        lemma_run_covers(b, first + shift, CharClass::HexDigit, 4);
        lemma_window_subrange(a, b, low, high, shift, first, first + 4);
    }
}

/// The rest of a string that ends within a window is read the same in the
/// other text.
proof fn lemma_string_in_window(
    a: Seq<char>,
    b: Seq<char>,
    low: int,
    high: int,
    shift: int,
    from: int,
    acc: Seq<char>,
)
    requires
        same_window(a, b, low, high, shift),
        low <= from <= high,
        scan_string(a, from, acc) matches Lexed::Token { token, end } && end <= high,
    ensures
        scan_string(a, from, acc) matches Lexed::Token { token, end } && scan_string(
            b,
            from + shift,
            acc,
        ) == (Lexed::Token { token, end: end + shift }),
    decreases a.len() - from,
{
    lemma_scan_string_bounds(a, from, acc);
    assert(a[from] == b[from + shift]);
    if a[from] == '"' {
    } else if a[from] == '\\' {
        lemma_escape_bounds(a, from + 1);
        match escape(a, from + 1) {
            Escaped::Char { c, end } => {
                lemma_scan_string_bounds(a, end, acc.push(c));
                lemma_escape_in_window(a, b, low, high, shift, from + 1);
                lemma_string_in_window(a, b, low, high, shift, end, acc.push(c));
            },
            Escaped::Failure(f) => {},
        }
    } else {
        lemma_string_in_window(a, b, low, high, shift, from + 1, acc.push(a[from]));
    }
}

/// A token that lies within a window is the same token in the other text,
/// where the other text ends a keyword or a number that reaches the end of the
/// window.
pub proof fn lemma_token_in_window(
    a: Seq<char>,
    b: Seq<char>,
    low: int,
    high: int,
    shift: int,
    from: int,
)
    requires
        same_window(a, b, low, high, shift),
        low <= from <= high,
        lex(a, from) matches Lexed::Token { token, end } && end <= high && (end < high || (stops(
            b,
            high + shift,
            CharClass::Alphabetic,
        ) && stops(b, high + shift, CharClass::Number))),
    ensures
        lex(a, from) matches Lexed::Token { token, end } && lex(b, from + shift) == (Lexed::Token {
            token,
            end: end + shift,
        }),
{
    lemma_lex_bounds(a, from);
    lemma_run_end(a, from, CharClass::Whitespace);
    let start = run_end(a, from, CharClass::Whitespace);
    lemma_run_end(a, start + 1, CharClass::Alphabetic);
    lemma_run_end(a, start + 1, CharClass::Number);
    lemma_scan_string_bounds(a, start + 1, Seq::empty());
    lemma_run_in_window(a, b, low, high, shift, from, CharClass::Whitespace);
    assert(a[start] == b[start + shift]);
    let c = a[start];
    if punctuation(c).is_some() {
    } else if c == 't' || c == 'f' || c == 'n' {
        let end = run_end(a, start + 1, CharClass::Alphabetic);
        lemma_run_in_window(a, b, low, high, shift, start + 1, CharClass::Alphabetic);
        lemma_window_subrange(a, b, low, high, shift, start, end);
    } else if c == '"' {
        lemma_string_in_window(a, b, low, high, shift, start + 1, Seq::empty());
    } else {
        let end = run_end(a, start + 1, CharClass::Number);
        lemma_run_in_window(a, b, low, high, shift, start + 1, CharClass::Number);
        lemma_window_subrange(a, b, low, high, shift, start, end);
    }
}

/// Where the lexer finds the end of one text within a window that reaches the
/// ends of both, it finds the end of the other.
pub proof fn lemma_end_in_window(
    a: Seq<char>,
    b: Seq<char>,
    low: int,
    shift: int,
    from: int,
)
    requires
        same_window(a, b, low, a.len() as int, shift),
        a.len() + shift == b.len(),
        low <= from <= a.len(),
        lex(a, from) is End,
    ensures
        lex(b, from + shift) is End,
{
    lemma_run_end(a, from, CharClass::Whitespace);
    let high = a.len() as int;
    let start = run_end(a, from, CharClass::Whitespace);
    if start < high {
        lemma_scan_string_bounds(a, start + 1, Seq::empty());
    }
    lemma_run_in_window(a, b, low, high, shift, from, CharClass::Whitespace);
}

/// The tokens that the lexer finds from `from` on, up to the end of the text or
/// to its first failure.
pub open spec fn tokens_from(src: Seq<char>, from: int) -> Seq<TokenView>
    decreases src.len() - from,
{
    match lex(src, from) {
        Lexed::Token { token, end } => if advances(src, from, end) {
            seq![token] + tokens_from(src, end)
        } else {
            Seq::empty()
        },
        _ => Seq::empty(),
    }
}

/// Whether the lexer fails nowhere from `from` on.
pub open spec fn lexes(src: Seq<char>, from: int) -> bool
    decreases src.len() - from,
{
    match lex(src, from) {
        Lexed::Token { token, end } => advances(src, from, end) && lexes(src, end),
        Lexed::End { end } => true,
        Lexed::Failure(f) => false,
    }
}

/// Whether `at` is a place between tokens, for a lexer that starts at `from`:
/// it lies in the whitespace before a token, at the start of that token, or
/// right after its end.
pub open spec fn is_boundary(src: Seq<char>, from: int, at: int) -> bool
    decreases src.len() - from,
{
    from <= at && (at <= run_end(src, from, CharClass::Whitespace) || match lex(src, from) {
        Lexed::Token { token, end } => advances(src, from, end) && is_boundary(src, end, at),
        _ => false,
    })
}

/// The text `src` with `gap` put in at `at`.
pub open spec fn with_gap(src: Seq<char>, at: int, gap: Seq<char>) -> Seq<char> {
    src.take(at) + gap + src.skip(at)
}

/// Where the lexer fails in one text within a window that reaches the ends of
/// both, it fails in the other.
proof fn lemma_failure_in_window(a: Seq<char>, b: Seq<char>, low: int, shift: int, from: int)
    requires
        same_window(a, b, low, a.len() as int, shift),
        a.len() + shift == b.len(),
        low <= from <= a.len(),
        lex(a, from) is Failure,
    ensures
        lex(b, from + shift) is Failure,
{
    let high = a.len() as int;
    lemma_window_back(a, b, low, high, shift);
    match lex(b, from + shift) {
        Lexed::Token { token, end } => {
            lemma_lex_bounds(b, from + shift);
            lemma_token_in_window(b, a, low + shift, high + shift, -shift, from + shift);
        },
        Lexed::End { end } => {
            lemma_end_in_window(b, a, low + shift, -shift, from + shift);
        },
        Lexed::Failure(g) => {},
    }
}

/// Two texts of which one holds, `shift` further on, what the other holds from
/// `low` to its end, have the same tokens from there on.
proof fn lemma_tokens_in_window(a: Seq<char>, b: Seq<char>, low: int, shift: int, from: int)
    requires
        same_window(a, b, low, a.len() as int, shift),
        a.len() + shift == b.len(),
        low <= from <= a.len(),
    ensures
        tokens_from(b, from + shift) == tokens_from(a, from),
        lexes(b, from + shift) == lexes(a, from),
    decreases a.len() - from,
{
    let high = a.len() as int;
    match lex(a, from) {
        Lexed::Token { token, end } => {
            lemma_lex_bounds(a, from);
            lemma_token_in_window(a, b, low, high, shift, from);
            lemma_tokens_in_window(a, b, low, shift, end);
            assert(advances(b, from + shift, end + shift));
        },
        Lexed::End { end } => {
            lemma_end_in_window(a, b, low, shift, from);
        },
        Lexed::Failure(f) => {
            lemma_failure_in_window(a, b, low, shift, from);
        },
    }
}

/// From any offset within the whitespace that follows `from`, the tokens are
/// those from `from`.
proof fn lemma_tokens_after_whitespace(src: Seq<char>, from: int, within: int)
    requires
        0 <= from <= within <= run_end(src, from, CharClass::Whitespace),
        within <= src.len(),
    ensures
        tokens_from(src, within) == tokens_from(src, from),
        lexes(src, within) == lexes(src, from),
{
    lemma_whitespace_is_skipped(src, from, within, 0);
    lemma_lex_bounds(src, from);
    lemma_lex_bounds(src, within);
}

/// Whitespace that is put in between tokens changes no token: the text with
/// the gap has the tokens of the text without it.
pub proof fn lemma_gap_keeps_tokens(src: Seq<char>, from: int, at: int, gap: Seq<char>)
    requires
        0 <= from <= at <= src.len(),
        is_gap(gap),
        is_boundary(src, from, at),
    ensures
        tokens_from(with_gap(src, at, gap), from) == tokens_from(src, from),
        lexes(with_gap(src, at, gap), from) == lexes(src, from),
    decreases src.len() - from,
{
    let wide = with_gap(src, at, gap);
    let n = gap.len() as int;
    if n == 0 {
        assert(wide =~= src);
    } else if at <= run_end(src, from, CharClass::Whitespace) {
        lemma_run_end(src, from, CharClass::Whitespace);
        assert forall|x: int| from <= x < at + n implies CharClass::Whitespace.contains(
            #[trigger] wide[x],
        ) by {
            if x < at {
                assert(wide[x] == src[x]);
            } else {
                assert(wide[x] == gap[x - at]);
            }
        }
        lemma_run_covers(wide, from, CharClass::Whitespace, at + n - from);
        lemma_tokens_after_whitespace(wide, from, at + n);
        lemma_tokens_after_whitespace(src, from, at);
        assert(same_window(src, wide, at, src.len() as int, n)) by {
            assert forall|x: int| at <= x < src.len() implies #[trigger] src[x] == wide[x + n] by {}
        }
        lemma_tokens_in_window(src, wide, at, n, at);
    } else {
        lemma_lex_bounds(src, from);
        match lex(src, from) {
            Lexed::Token { token, end } => {
                assert(is_boundary(src, end, at));
                assert(same_window(src, wide, 0, at, 0)) by {
                    assert forall|x: int| 0 <= x < at implies #[trigger] src[x] == wide[x + 0] by {}
                }
                assert(wide[at] == gap[0]);
                assert(is_whitespace(gap[0]));
                lemma_token_in_window(src, wide, 0, at, 0, from);
                lemma_gap_keeps_tokens(src, end, at, gap);
            },
            _ => {},
        }
    }
}

/// Whether the lexer fails nowhere in either text and finds the same tokens, from
/// `i` on in `a` and from `j` on in `b`.
pub open spec fn same_stream(a: Seq<char>, i: int, b: Seq<char>, j: int) -> bool {
    &&& 0 <= i <= a.len()
    &&& 0 <= j <= b.len()
    &&& lexes(a, i)
    &&& lexes(b, j)
    &&& tokens_from(a, i) == tokens_from(b, j)
}

/// Whether two failures are the same but for their place: structural failures
/// of one kind at the same token.
pub open spec fn same_failure(f: ParseFailure, g: ParseFailure) -> bool {
    match (f, g) {
        (
            ParseFailure::Syntax { kind: k1, found: t1, at: _ },
            ParseFailure::Syntax { kind: k2, found: t2, at: _ },
        ) => k1 == k2 && t1 == t2,
        _ => false,
    }
}

/// Whether the parser made the same of `a` and of `b`: the same value, with the
/// same tokens left, or the same failure.
pub open spec fn same_parsed(a: Seq<char>, p: Parsed, b: Seq<char>, q: Parsed) -> bool {
    match (p, q) {
        (Parsed::Value { value: v, next: n }, Parsed::Value { value: w, next: m }) => v == w
            && same_stream(a, n, b, m),
        (Parsed::Failure(f), Parsed::Failure(g)) => same_failure(f, g),
        _ => false,
    }
}

/// Whether the parser made the same of two documents: nothing, the same value,
/// or the same failure.
pub open spec fn same_document(p: Document, q: Document) -> bool {
    match (p, q) {
        (Document::Empty { end: _ }, Document::Empty { end: _ }) => true,
        (Document::Value { value: v, next: _ }, Document::Value { value: w, next: _ }) => v == w,
        (Document::Failure(f), Document::Failure(g)) => same_failure(f, g),
        _ => false,
    }
}

/// Where two texts have the same tokens, the lexer finds the same in both: the
/// end, or one token, after which the tokens are again the same.
proof fn lemma_same_token(a: Seq<char>, i: int, b: Seq<char>, j: int)
    requires
        same_stream(a, i, b, j),
    ensures
        match (lex(a, i), lex(b, j)) {
            (Lexed::Token { token: t, end: e }, Lexed::Token { token: u, end: f }) => t == u
                && same_stream(a, e, b, f) && advances(a, i, e) && advances(b, j, f),
            (Lexed::End { end: _ }, Lexed::End { end: _ }) => true,
            _ => false,
        },
{
    lemma_lex_bounds(a, i);
    lemma_lex_bounds(b, j);
    match (lex(a, i), lex(b, j)) {
        (Lexed::Token { token: t, end: e }, Lexed::Token { token: u, end: f }) => {
            let x = tokens_from(a, e);
            let y = tokens_from(b, f);
            assert((seq![t] + x)[0] == t);
            assert((seq![u] + y)[0] == u);
            assert(x =~= (seq![t] + x).drop_first());
            assert(y =~= (seq![u] + y).drop_first());
        },
        (Lexed::Token { token: t, end: e }, _) => {
            assert((seq![t] + tokens_from(a, e)).len() > 0);
        },
        (_, Lexed::Token { token: u, end: f }) => {
            assert((seq![u] + tokens_from(b, f)).len() > 0);
        },
        _ => {},
    }
}

/// Where two texts have the same tokens, the parser reads the same value from
/// both.
pub proof fn lemma_same_value(a: Seq<char>, i: int, b: Seq<char>, j: int, depth: nat)
    requires
        same_stream(a, i, b, j),
    ensures
        same_parsed(a, parse_value(a, i, depth), b, parse_value(b, j, depth)),
    decreases a.len() - i, 1int,
{
    lemma_same_token(a, i, b, j);
    match (lex(a, i), lex(b, j)) {
        (Lexed::Token { token: t, end: e }, Lexed::Token { token: u, end: f }) => {
            if depth > 0 {
                if t is LBracket {
                    lemma_same_array(a, e, b, f, (depth - 1) as nat);
                } else if t is LBrace {
                    lemma_same_object(a, e, b, f, (depth - 1) as nat);
                }
            }
        },
        _ => {},
    }
}

/// `lemma_same_value` for what follows an item or a member.
proof fn lemma_same_separator(a: Seq<char>, i: int, b: Seq<char>, j: int, container: Container)
    requires
        same_stream(a, i, b, j),
    ensures
        match (parse_separator(a, i, container), parse_separator(b, j, container)) {
            (Separated::More { end: e }, Separated::More { end: f }) => same_stream(a, e, b, f)
                && advances(a, i, e) && advances(b, j, f),
            (Separated::Done { end: e }, Separated::Done { end: f }) => same_stream(a, e, b, f),
            (Separated::Failure(x), Separated::Failure(y)) => same_failure(x, y),
            _ => false,
        },
{
    lemma_same_token(a, i, b, j);
}

/// `lemma_same_value` for an array whose opening bracket has been read.
proof fn lemma_same_array(a: Seq<char>, i: int, b: Seq<char>, j: int, depth: nat)
    requires
        same_stream(a, i, b, j),
    ensures
        same_parsed(a, parse_array(a, i, depth), b, parse_array(b, j, depth)),
    decreases a.len() - i, 3int,
{
    lemma_same_token(a, i, b, j);
    lemma_same_items(a, i, b, j, depth, Seq::empty());
}

/// `lemma_same_value` for the rest of an array.
proof fn lemma_same_items(
    a: Seq<char>,
    i: int,
    b: Seq<char>,
    j: int,
    depth: nat,
    acc: Seq<ValueView>,
)
    requires
        same_stream(a, i, b, j),
    ensures
        same_parsed(a, parse_items(a, i, depth, acc), b, parse_items(b, j, depth, acc)),
    decreases a.len() - i, 2int,
{
    lemma_same_value(a, i, b, j, depth);
    lemma_parse_value(a, i, depth);
    lemma_parse_value(b, j, depth);
    match (parse_value(a, i, depth), parse_value(b, j, depth)) {
        (Parsed::Value { value: v, next: n }, Parsed::Value { value: w, next: m }) => {
            lemma_same_separator(a, n, b, m, Container::Array);
            match (
                parse_separator(a, n, Container::Array),
                parse_separator(b, m, Container::Array),
            ) {
                (Separated::More { end: e }, Separated::More { end: f }) => {
                    lemma_same_items(a, e, b, f, depth, acc.push(v));
                },
                _ => {},
            }
        },
        _ => {},
    }
}

/// `lemma_same_value` for an object whose opening brace has been read.
proof fn lemma_same_object(a: Seq<char>, i: int, b: Seq<char>, j: int, depth: nat)
    requires
        same_stream(a, i, b, j),
    ensures
        same_parsed(a, parse_object(a, i, depth), b, parse_object(b, j, depth)),
    decreases a.len() - i, 4int,
{
    lemma_same_token(a, i, b, j);
    lemma_same_members(a, i, b, j, depth, Seq::empty());
}

/// `lemma_same_value` for the rest of an object.
proof fn lemma_same_members(
    a: Seq<char>,
    i: int,
    b: Seq<char>,
    j: int,
    depth: nat,
    acc: Seq<(Seq<char>, ValueView)>,
)
    requires
        same_stream(a, i, b, j),
    ensures
        same_parsed(a, parse_members(a, i, depth, acc), b, parse_members(b, j, depth, acc)),
    decreases a.len() - i, 3int,
{
    lemma_same_member(a, i, b, j, depth);
    lemma_parse_member(a, i, depth);
    lemma_parse_member(b, j, depth);
    match (parse_member(a, i, depth), parse_member(b, j, depth)) {
        (
            ParsedMember::Member { key: k1, value: v, next: n },
            ParsedMember::Member { key: k2, value: w, next: m },
        ) => {
            lemma_same_separator(a, n, b, m, Container::Object);
            match (
                parse_separator(a, n, Container::Object),
                parse_separator(b, m, Container::Object),
            ) {
                (Separated::More { end: e }, Separated::More { end: f }) => {
                    lemma_same_members(a, e, b, f, depth, with_member(acc, k1, v));
                },
                _ => {},
            }
        },
        _ => {},
    }
}

/// `lemma_same_value` for one member of an object.
proof fn lemma_same_member(a: Seq<char>, i: int, b: Seq<char>, j: int, depth: nat)
    requires
        same_stream(a, i, b, j),
    ensures
        match (parse_member(a, i, depth), parse_member(b, j, depth)) {
            (
                ParsedMember::Member { key: k1, value: v, next: n },
                ParsedMember::Member { key: k2, value: w, next: m },
            ) => k1 == k2 && v == w && same_stream(a, n, b, m),
            (ParsedMember::Failure(x), ParsedMember::Failure(y)) => same_failure(x, y),
            _ => false,
        },
    decreases a.len() - i, 2int,
{
    lemma_same_token(a, i, b, j);
    match (lex(a, i), lex(b, j)) {
        (
            Lexed::Token { token: TokenView::String(k1), end: e },
            Lexed::Token { token: TokenView::String(k2), end: f },
        ) => {
            lemma_same_token(a, e, b, f);
            match (lex(a, e), lex(b, f)) {
                (
                    Lexed::Token { token: TokenView::Colon, end: e2 },
                    Lexed::Token { token: TokenView::Colon, end: f2 },
                ) => {
                    lemma_same_value(a, e2, b, f2, depth);
                },
                _ => {},
            }
        },
        _ => {},
    }
}

/// Two texts in which the lexer fails nowhere and finds the same tokens are
/// read as the same document.
pub proof fn lemma_same_tokens_same_document(
    a: Seq<char>,
    i: int,
    b: Seq<char>,
    j: int,
    depth: nat,
)
    requires
        same_stream(a, i, b, j),
    ensures
        same_document(parse_document(a, i, depth), parse_document(b, j, depth)),
{
    lemma_same_token(a, i, b, j);
    lemma_same_value(a, i, b, j, depth);
}

/// Whitespace between tokens changes nothing. Let the lexer fail nowhere in
/// `src` from `from` on, and let `at` be a place between two of its tokens.
/// Then the text with whitespace put in at `at` is read as `src` is: as no
/// document, as the same value, or with the same failure.
pub proof fn lemma_gap_changes_nothing(
    src: Seq<char>,
    from: int,
    at: int,
    gap: Seq<char>,
    depth: nat,
)
    requires
        0 <= from <= at <= src.len(),
        is_gap(gap),
        is_boundary(src, from, at),
        lexes(src, from),
    ensures
        same_document(
            parse_document(src, from, depth),
            parse_document(with_gap(src, at, gap), from, depth),
        ),
{
    lemma_gap_keeps_tokens(src, from, at, gap);
    lemma_same_tokens_same_document(src, from, with_gap(src, at, gap), from, depth);
}

} // verus!
