//! The texts of a value, and the proof that reading any of them gives the value
//! back.
//!
//! A value has one text for each layout, that is for each choice of the
//! whitespace before every token. With no whitespace at all this is the
//! canonical text. The parser reads each of these texts as the value, whatever
//! the layout: whitespace between tokens changes nothing.

use vstd::prelude::*;
use crate::chars::{
    alphabetic, is_number_char, is_whitespace, lemma_run_end, lemma_run_end_unique, run_end,
    CharClass,
};
use crate::lexer::{keyword, lex, punctuation, scan_string, Lexed};
use crate::number::{
    has_point, is_number, is_number_literal, is_sign, lemma_number_literal_scans, mantissa_end,
    whole_end, whole_start,
};
use crate::parser::{
    advances, parse_array, parse_document, parse_items, parse_member, parse_members,
    parse_object, parse_value, Document, Parsed, ParsedMember,
};
use crate::token::TokenView;
use crate::value::{distinct_keys, has_key, with_member, ValueView};

verus! {

/// Whether `gaps` is a layout: each `gaps(k)`, which goes before the token of
/// index `k`, is whitespace.
pub open spec fn is_layout(gaps: spec_fn(int) -> Seq<char>) -> bool {
    forall|k: int, i: int| 0 <= i < gaps(k).len() ==> is_whitespace(#[trigger] gaps(k)[i])
}

/// The layout without any whitespace.
pub open spec fn dense() -> spec_fn(int) -> Seq<char> {
    |k: int| Seq::<char>::empty()
}

/// The text of one character of a string: a quote and a backslash are escaped,
/// every other character stands for itself.
pub open spec fn escaped_char(c: char) -> Seq<char> {
    if c == '"' || c == '\\' {
        seq!['\\', c]
    } else {
        seq![c]
    }
}

/// The text of the characters of a string, between the quotes.
pub open spec fn escaped(s: Seq<char>) -> Seq<char>
    decreases s.len(),
{
    if s.len() == 0 {
        Seq::empty()
    } else {
        escaped_char(s[0]) + escaped(s.drop_first())
    }
}

/// The text of a string.
pub open spec fn quoted(s: Seq<char>) -> Seq<char> {
    seq!['"'] + escaped(s) + seq!['"']
}

impl ValueView {
    /// Whether arrays and objects are nested at most `depth` deep in the value.
    pub open spec fn nested_within(self, depth: nat) -> bool
        decreases self,
    {
        match self {
            ValueView::Array(items) => depth > 0 && forall|i: int|
                0 <= i < items.len() ==> (#[trigger] items[i]).nested_within((depth - 1) as nat),
            ValueView::Object(members) => depth > 0 && forall|i: int|
                0 <= i < members.len() ==> (#[trigger] members[i]).1.nested_within(
                    (depth - 1) as nat,
                ),
            _ => true,
        }
    }

    /// The number of tokens of the value.
    pub open spec fn token_count(self) -> int
        decreases self, 0int,
    {
        match self {
            ValueView::Array(items) => 2 + items_token_count(items, 0),
            ValueView::Object(members) => 2 + members_token_count(members, 0),
            _ => 1,
        }
    }

    /// The text of the value in the layout `gaps`, where its first token has the
    /// index `k`.
    pub open spec fn text(self, gaps: spec_fn(int) -> Seq<char>, k: int) -> Seq<char>
        decreases self, 0int,
    {
        match self {
            ValueView::Null => gaps(k) + seq!['n', 'u', 'l', 'l'],
            ValueView::Boolean(b) => if b {
                gaps(k) + seq!['t', 'r', 'u', 'e']
            } else {
                gaps(k) + seq!['f', 'a', 'l', 's', 'e']
            },
            ValueView::Number(n) => gaps(k) + n,
            ValueView::String(s) => gaps(k) + quoted(s),
            ValueView::Array(items) => gaps(k) + seq!['['] + items_text(items, 0, gaps, k + 1)
                + gaps(k + 1 + items_token_count(items, 0)) + seq![']'],
            ValueView::Object(members) => gaps(k) + seq!['{'] + members_text(
                members,
                0,
                gaps,
                k + 1,
            ) + gaps(k + 1 + members_token_count(members, 0)) + seq!['}'],
        }
    }

    /// The text of a document that holds the value, in the layout `gaps`.
    pub open spec fn document(self, gaps: spec_fn(int) -> Seq<char>) -> Seq<char> {
        self.text(gaps, 0) + gaps(self.token_count())
    }

    /// The canonical text of the value: the one without whitespace.
    pub open spec fn canonical(self) -> Seq<char> {
        self.document(dense())
    }
}

/// The number of tokens of the items from index `from` on, commas included.
pub open spec fn items_token_count(items: Seq<ValueView>, from: int) -> int
    decreases items, items.len() - from,
{
    if from < 0 || from >= items.len() {
        0
    } else if from + 1 < items.len() {
        items[from].token_count() + 1 + items_token_count(items, from + 1)
    } else {
        items[from].token_count()
    }
}

/// The text of the items from index `from` on, where the first token has the
/// index `k`: the items with a comma between each two of them.
pub open spec fn items_text(
    items: Seq<ValueView>,
    from: int,
    gaps: spec_fn(int) -> Seq<char>,
    k: int,
) -> Seq<char>
    decreases items, items.len() - from,
{
    if from < 0 || from >= items.len() {
        Seq::empty()
    } else if from + 1 < items.len() {
        let n = items[from].token_count();
        items[from].text(gaps, k) + gaps(k + n) + seq![','] + items_text(
            items,
            from + 1,
            gaps,
            k + n + 1,
        )
    } else {
        items[from].text(gaps, k)
    }
}

/// The number of tokens of the members from index `from` on, commas included.
pub open spec fn members_token_count(members: Seq<(Seq<char>, ValueView)>, from: int) -> int
    decreases members, members.len() - from,
{
    if from < 0 || from >= members.len() {
        0
    } else if from + 1 < members.len() {
        2 + members[from].1.token_count() + 1 + members_token_count(members, from + 1)
    } else {
        2 + members[from].1.token_count()
    }
}

/// The text of one member whose first token has the index `k`: the key, a
/// colon, the value.
#[verifier::opaque]
pub open spec fn member_text(
    key: Seq<char>,
    value_text: Seq<char>,
    gaps: spec_fn(int) -> Seq<char>,
    k: int,
) -> Seq<char> {
    gaps(k) + quoted(key) + gaps(k + 1) + seq![':'] + value_text
}

/// The text of the members from index `from` on, where the first token has the
/// index `k`: the members with a comma between each two of them.
pub open spec fn members_text(
    members: Seq<(Seq<char>, ValueView)>,
    from: int,
    gaps: spec_fn(int) -> Seq<char>,
    k: int,
) -> Seq<char>
    decreases members, members.len() - from,
{
    if from < 0 || from >= members.len() {
        Seq::empty()
    } else if from + 1 < members.len() {
        let n = members[from].1.token_count();
        member_text(members[from].0, members[from].1.text(gaps, k + 2), gaps, k) + gaps(
            k + 2 + n,
        ) + seq![','] + members_text(members, from + 1, gaps, k + 3 + n)
    } else {
        member_text(members[from].0, members[from].1.text(gaps, k + 2), gaps, k)
    }
}

/// Whether `src` holds the characters of `t` from the offset `at` on.
pub open spec fn has_at(src: Seq<char>, at: int, t: Seq<char>) -> bool {
    &&& 0 <= at
    &&& at + t.len() <= src.len()
    &&& forall|i: int| 0 <= i < t.len() ==> src[at + i] == #[trigger] t[i]
}

/// Whether every character of `gap` is whitespace.
pub open spec fn is_gap(gap: Seq<char>) -> bool {
    forall|i: int| 0 <= i < gap.len() ==> is_whitespace(#[trigger] gap[i])
}

/// Whether a keyword or a number that ends before `at` ends there for the
/// lexer too: the text ends at `at`, or the character at `at` can go on neither.
pub open spec fn ends_token(src: Seq<char>, at: int) -> bool {
    at >= src.len() || (!alphabetic(src[at]) && !is_number_char(src[at]))
}

/// A text holds two texts in a row exactly when it holds their concatenation.
pub proof fn lemma_has_at_concat(src: Seq<char>, at: int, a: Seq<char>, b: Seq<char>)
    ensures
        has_at(src, at, a + b) <==> has_at(src, at, a) && has_at(src, at + a.len(), b),
{
    if has_at(src, at, a + b) {
        assert forall|i: int| 0 <= i < a.len() implies src[at + i] == #[trigger] a[i] by {
            assert((a + b)[i] == a[i]);
        }
        assert forall|i: int| 0 <= i < b.len() implies src[at + a.len() + i] == #[trigger] b[i] by {
            assert((a + b)[a.len() + i] == b[i]);
        }
    }
    if has_at(src, at, a) && has_at(src, at + a.len(), b) {
        assert forall|i: int| 0 <= i < (a + b).len() implies src[at + i] == #[trigger] (a + b)[i] by {
            if i < a.len() {
                assert((a + b)[i] == a[i]);
            } else {
                assert((a + b)[i] == b[i - a.len()]);
                assert(src[at + a.len() + (i - a.len())] == b[i - a.len()]);
            }
        }
    }
}

/// The lexer passes over a gap and stops at the character after it.
proof fn lemma_gap_is_skipped(src: Seq<char>, at: int, gap: Seq<char>)
    requires
        has_at(src, at, gap),
        is_gap(gap),
        at + gap.len() < src.len(),
        !is_whitespace(src[at + gap.len()]),
    ensures
        run_end(src, at, CharClass::Whitespace) == at + gap.len(),
{
    assert forall|i: int| at <= i < at + gap.len() implies CharClass::Whitespace.contains(
        #[trigger] src[i],
    ) by {
        assert(src[at + (i - at)] == gap[i - at]);
    }
    lemma_run_end_unique(src, at, CharClass::Whitespace, at + gap.len());
}

/// A gap, or one of the characters `,`, `]` and `}` right after it, ends a token.
proof fn lemma_gap_ends_token(src: Seq<char>, at: int, gap: Seq<char>, c: char)
    requires
        has_at(src, at, gap + seq![c]),
        is_gap(gap),
        c == ',' || c == ']' || c == '}',
    ensures
        ends_token(src, at),
{
    let t = gap + seq![c];
    assert(src[at + 0] == t[0]);
    if gap.len() > 0 {
        assert(t[0] == gap[0]);
    }
}

/// One character of punctuation after a gap is read as its token.
proof fn lemma_lex_punctuation(src: Seq<char>, at: int, gap: Seq<char>, c: char)
    requires
        has_at(src, at, gap + seq![c]),
        is_gap(gap),
        punctuation(c).is_some(),
    ensures
        lex(src, at) == (Lexed::Token {
            token: punctuation(c).unwrap(),
            end: at + gap.len() + 1,
        }),
{
    lemma_has_at_concat(src, at, gap, seq![c]);
    assert(src[at + gap.len() + 0] == seq![c][0]);
    lemma_gap_is_skipped(src, at, gap);
}

/// A keyword after a gap is read as its token, where the keyword ends there.
proof fn lemma_lex_keyword(src: Seq<char>, at: int, gap: Seq<char>, word: Seq<char>)
    requires
        has_at(src, at, gap + word),
        is_gap(gap),
        keyword(word).is_some(),
        ends_token(src, at + gap.len() + word.len()),
    ensures
        lex(src, at) == (Lexed::Token {
            token: keyword(word).unwrap(),
            end: at + gap.len() + word.len(),
        }),
{
    lemma_has_at_concat(src, at, gap, word);
    let start = at + gap.len();
    let end = start + word.len();
    assert(src[start + 0] == word[0]);
    lemma_gap_is_skipped(src, at, gap);
    assert forall|i: int| start + 1 <= i < end implies CharClass::Alphabetic.contains(
        #[trigger] src[i],
    ) by {
        assert(src[start + (i - start)] == word[i - start]);
    }
    lemma_run_end_unique(src, start + 1, CharClass::Alphabetic, end);
    assert(src.subrange(start, end) =~= word) by {
        assert forall|i: int| 0 <= i < word.len() implies src.subrange(start, end)[i] == word[i] by {
            assert(src[start + i] == word[i]);
        }
    }
}

/// Every character of a number literal is one that the number scanner accepts.
pub proof fn lemma_number_chars(n: Seq<char>)
    requires
        is_number_literal(n),
    ensures
        n.len() > 0,
        forall|i: int| 0 <= i < n.len() ==> is_number_char(#[trigger] n[i]),
{
    lemma_number_literal_scans(n);
    lemma_run_end(n, whole_start(n), CharClass::Digit);
    if has_point(n) {
        lemma_run_end(n, whole_end(n) + 1, CharClass::Digit);
    }
    let m = mantissa_end(n);
    if m < n.len() {
        let digits = if m + 1 < n.len() && is_sign(n[m + 1]) {
            m + 2
        } else {
            m + 1
        };
        lemma_run_end(n, digits, CharClass::Digit);
    }
    assert forall|i: int| 0 <= i < n.len() implies is_number_char(#[trigger] n[i]) by {
        if i < whole_start(n) {
        } else if i < whole_end(n) {
            assert(CharClass::Digit.contains(n[i]));
        } else if i < m {
            if i > whole_end(n) {
                assert(CharClass::Digit.contains(n[i]));
            }
        } else if i == m {
        } else {
            let digits = if m + 1 < n.len() && is_sign(n[m + 1]) {
                m + 2
            } else {
                m + 1
            };
            if i >= digits {
                assert(CharClass::Digit.contains(n[i]));
            }
        }
    }
}

/// A number after a gap is read as its token, where the number ends there.
proof fn lemma_lex_number(src: Seq<char>, at: int, gap: Seq<char>, n: Seq<char>)
    requires
        has_at(src, at, gap + n),
        is_gap(gap),
        is_number(n),
        ends_token(src, at + gap.len() + n.len()),
    ensures
        lex(src, at) == (Lexed::Token { token: TokenView::Number(n), end: at + gap.len() + n.len() }),
{
    lemma_has_at_concat(src, at, gap, n);
    lemma_number_chars(n);
    let start = at + gap.len();
    let end = start + n.len();
    assert(src[start + 0] == n[0]);
    lemma_gap_is_skipped(src, at, gap);
    assert forall|i: int| start + 1 <= i < end implies CharClass::Number.contains(
        #[trigger] src[i],
    ) by {
        assert(src[start + (i - start)] == n[i - start]);
    }
    lemma_run_end_unique(src, start + 1, CharClass::Number, end);
    assert(src.subrange(start, end) =~= n) by {
        assert forall|i: int| 0 <= i < n.len() implies src.subrange(start, end)[i] == n[i] by {
            assert(src[start + i] == n[i]);
        }
    }
}

/// The escaped characters of `s` and a closing quote are read as the rest of
/// a string: the characters read before, and then those of `s`.
proof fn lemma_scan_escaped(src: Seq<char>, from: int, s: Seq<char>, acc: Seq<char>)
    requires
        has_at(src, from, escaped(s) + seq!['"']),
    ensures
        scan_string(src, from, acc) == (Lexed::Token {
            token: TokenView::String(acc + s),
            end: from + escaped(s).len() + 1,
        }),
    decreases s.len(),
{
    let t = escaped(s) + seq!['"'];
    if s.len() == 0 {
        assert(src[from + 0] == t[0]);
        assert(acc + s =~= acc);
    } else {
        let c = s[0];
        let rest = s.drop_first();
        let e = escaped_char(c);
        assert(t =~= e + (escaped(rest) + seq!['"']));
        lemma_has_at_concat(src, from, e, escaped(rest) + seq!['"']);
        lemma_scan_escaped(src, from + e.len(), rest, acc.push(c));
        assert(acc.push(c) + rest =~= acc + s);
        assert(src[from + 0] == e[0]);
        if c == '"' || c == '\\' {
            assert(src[from + 1] == e[1]);
        }
    }
}

/// A string after a gap is read as its token.
proof fn lemma_lex_string(src: Seq<char>, at: int, gap: Seq<char>, s: Seq<char>)
    requires
        has_at(src, at, gap + quoted(s)),
        is_gap(gap),
    ensures
        lex(src, at) == (Lexed::Token {
            token: TokenView::String(s),
            end: at + gap.len() + quoted(s).len(),
        }),
{
    lemma_has_at_concat(src, at, gap, quoted(s));
    let start = at + gap.len();
    assert(quoted(s) =~= seq!['"'] + (escaped(s) + seq!['"']));
    lemma_has_at_concat(src, start, seq!['"'], escaped(s) + seq!['"']);
    assert(src[start + 0] == seq!['"'][0]);
    lemma_gap_is_skipped(src, at, gap);
    lemma_scan_escaped(src, start + 1, s, Seq::empty());
    assert(Seq::<char>::empty() + s =~= s);
}

/// The text of a value, wherever it stands in `src`, is read as the value, where
/// the last token of the value ends with the text.
pub proof fn lemma_parse_text(
    src: Seq<char>,
    at: int,
    v: ValueView,
    gaps: spec_fn(int) -> Seq<char>,
    k: int,
    depth: nat,
)
    requires
        v.well_formed(),
        v.nested_within(depth),
        is_layout(gaps),
        has_at(src, at, v.text(gaps, k)),
        ends_token(src, at + v.text(gaps, k).len()),
    ensures
        parse_value(src, at, depth) == (Parsed::Value {
            value: v,
            next: at + v.text(gaps, k).len(),
        }),
    decreases v, 0int,
{
    let gap = gaps(k);
    assert(is_gap(gap));
    match v {
        ValueView::Null => {
            lemma_lex_keyword(src, at, gap, seq!['n', 'u', 'l', 'l']);
        },
        ValueView::Boolean(b) => {
            if b {
                lemma_lex_keyword(src, at, gap, seq!['t', 'r', 'u', 'e']);
            } else {
                lemma_lex_keyword(src, at, gap, seq!['f', 'a', 'l', 's', 'e']);
            }
        },
        ValueView::Number(n) => {
            lemma_lex_number(src, at, gap, n);
        },
        ValueView::String(s) => {
            lemma_lex_string(src, at, gap, s);
        },
        ValueView::Array(items) => {
            lemma_parse_array_text(src, at, items, gaps, k, depth);
        },
        ValueView::Object(members) => {
            lemma_parse_object_text(src, at, members, gaps, k, depth);
        },
    }
}

/// `lemma_parse_text` for an array.
proof fn lemma_parse_array_text(
    src: Seq<char>,
    at: int,
    items: Seq<ValueView>,
    gaps: spec_fn(int) -> Seq<char>,
    k: int,
    depth: nat,
)
    requires
        ValueView::Array(items).well_formed(),
        ValueView::Array(items).nested_within(depth),
        is_layout(gaps),
        has_at(src, at, ValueView::Array(items).text(gaps, k)),
    ensures
        parse_value(src, at, depth) == (Parsed::Value {
            value: ValueView::Array(items),
            next: at + ValueView::Array(items).text(gaps, k).len(),
        }),
    decreases items, items.len() + 1,
{
    let gap = gaps(k);
    let body = items_text(items, 0, gaps, k + 1);
    let close = gaps(k + 1 + items_token_count(items, 0));
    assert(is_gap(gap));
    assert(is_gap(close));
    let rest = body + close + seq![']'];
    assert(ValueView::Array(items).text(gaps, k) =~= (gap + seq!['[']) + rest);
    lemma_has_at_concat(src, at, gap + seq!['['], rest);
    lemma_lex_punctuation(src, at, gap, '[');
    let inner = at + gap.len() + 1;
    if items.len() == 0 {
        assert(rest =~= close + seq![']']);
        lemma_lex_punctuation(src, inner, close, ']');
        assert(items =~= Seq::empty());
    } else {
        lemma_parse_items_text(src, inner, items, 0, gaps, k + 1, (depth - 1) as nat);
        assert(items.take(0) =~= Seq::empty());
    }
    lemma_opened(src, at, inner, depth);
}

/// `lemma_parse_text` for an object.
proof fn lemma_parse_object_text(
    src: Seq<char>,
    at: int,
    members: Seq<(Seq<char>, ValueView)>,
    gaps: spec_fn(int) -> Seq<char>,
    k: int,
    depth: nat,
)
    requires
        ValueView::Object(members).well_formed(),
        ValueView::Object(members).nested_within(depth),
        is_layout(gaps),
        has_at(src, at, ValueView::Object(members).text(gaps, k)),
    ensures
        parse_value(src, at, depth) == (Parsed::Value {
            value: ValueView::Object(members),
            next: at + ValueView::Object(members).text(gaps, k).len(),
        }),
    decreases members, members.len() + 1,
{
    let gap = gaps(k);
    let body = members_text(members, 0, gaps, k + 1);
    let close = gaps(k + 1 + members_token_count(members, 0));
    assert(is_gap(gap));
    assert(is_gap(close));
    let rest = body + close + seq!['}'];
    assert(ValueView::Object(members).text(gaps, k) =~= (gap + seq!['{']) + rest);
    lemma_has_at_concat(src, at, gap + seq!['{'], rest);
    lemma_lex_punctuation(src, at, gap, '{');
    let inner = at + gap.len() + 1;
    if members.len() == 0 {
        assert(rest =~= close + seq!['}']);
        lemma_lex_punctuation(src, inner, close, '}');
        assert(members =~= Seq::empty());
    } else {
        lemma_parse_members_text(src, inner, members, 0, gaps, k + 1, (depth - 1) as nat);
        assert(members.take(0) =~= Seq::empty());
    }
    lemma_opened(src, at, inner, depth);
}

/// What `parse_value` is where the token at `at` opens an array or an object
/// that the depth allows.
proof fn lemma_opened(src: Seq<char>, at: int, inner: int, depth: nat)
    requires
        at < inner <= src.len(),
        lex(src, at) == (Lexed::Token { token: TokenView::LBracket, end: inner }) || lex(src, at)
            == (Lexed::Token { token: TokenView::LBrace, end: inner }),
    ensures
        depth > 0 && lex(src, at) == (Lexed::Token { token: TokenView::LBracket, end: inner })
            ==> parse_value(src, at, depth) == parse_array(src, inner, (depth - 1) as nat),
        depth > 0 && lex(src, at) == (Lexed::Token { token: TokenView::LBrace, end: inner })
            ==> parse_value(src, at, depth) == parse_object(src, inner, (depth - 1) as nat),
{
}

/// The text of the items from `from` on, with the closing bracket after it, is
/// read as the rest of the array whose earlier items are those before `from`.
pub proof fn lemma_parse_items_text(
    src: Seq<char>,
    at: int,
    items: Seq<ValueView>,
    from: int,
    gaps: spec_fn(int) -> Seq<char>,
    k: int,
    depth: nat,
)
    requires
        0 <= from < items.len(),
        forall|i: int| 0 <= i < items.len() ==> (#[trigger] items[i]).well_formed(),
        forall|i: int| 0 <= i < items.len() ==> (#[trigger] items[i]).nested_within(depth),
        is_layout(gaps),
        has_at(
            src,
            at,
            items_text(items, from, gaps, k) + gaps(k + items_token_count(items, from)) + seq![']'],
        ),
    ensures
        parse_items(src, at, depth, items.take(from)) == (Parsed::Value {
            value: ValueView::Array(items),
            next: at + items_text(items, from, gaps, k).len() + gaps(
                k + items_token_count(items, from),
            ).len() + 1,
        }),
        parse_array(src, at, depth) == parse_items(src, at, depth, Seq::empty()),
    decreases items, items.len() - from,
{
    let item = items[from];
    let first = item.text(gaps, k);
    let n = item.token_count();
    let gap = gaps(k + n);
    assert(is_gap(gap));
    let after = at + first.len();
    if from + 1 < items.len() {
        let more = items_text(items, from + 1, gaps, k + n + 1);
        let close = gaps(k + n + 1 + items_token_count(items, from + 1));
        let tail = more + close + seq![']'];
        assert(items_text(items, from, gaps, k) + gaps(k + items_token_count(items, from)) + seq![
            ']',
        ] =~= first + ((gap + seq![',']) + tail));
        lemma_has_at_concat(src, at, first, (gap + seq![',']) + tail);
        lemma_has_at_concat(src, after, gap + seq![','], tail);
        lemma_gap_ends_token(src, after, gap, ',');
        lemma_parse_text(src, at, item, gaps, k, depth);
        lemma_lex_punctuation(src, after, gap, ',');
        lemma_parse_items_text(src, after + gap.len() + 1, items, from + 1, gaps, k + n + 1, depth);
        assert(items.take(from).push(item) =~= items.take(from + 1));
    } else {
        assert(items_text(items, from, gaps, k) + gaps(k + items_token_count(items, from)) + seq![
            ']',
        ] =~= first + (gap + seq![']']));
        lemma_has_at_concat(src, at, first, gap + seq![']']);
        lemma_gap_ends_token(src, after, gap, ']');
        lemma_parse_text(src, at, item, gaps, k, depth);
        lemma_lex_punctuation(src, after, gap, ']');
        assert(items.take(from).push(item) =~= items);
    }
}

/// The text of a member, wherever it stands in `src`, is read as the member,
/// where the last token of its value ends with the text.
proof fn lemma_parse_member_text(
    src: Seq<char>,
    at: int,
    members: Seq<(Seq<char>, ValueView)>,
    from: int,
    gaps: spec_fn(int) -> Seq<char>,
    k: int,
    depth: nat,
)
    requires
        0 <= from < members.len(),
        members[from].1.well_formed(),
        members[from].1.nested_within(depth),
        is_layout(gaps),
        has_at(
            src,
            at,
            member_text(members[from].0, members[from].1.text(gaps, k + 2), gaps, k),
        ),
        ends_token(
            src,
            at + member_text(members[from].0, members[from].1.text(gaps, k + 2), gaps, k).len(),
        ),
    ensures
        parse_member(src, at, depth) == (ParsedMember::Member {
            key: members[from].0,
            value: members[from].1,
            next: at + member_text(
                members[from].0,
                members[from].1.text(gaps, k + 2),
                gaps,
                k,
            ).len(),
        }),
        !(lex(src, at) matches Lexed::Token { token: TokenView::RBrace, .. }),
    decreases members, 0int,
{
    let key = members[from].0;
    let value = members[from].1;
    let key_text = gaps(k) + quoted(key);
    let colon_text = gaps(k + 1) + seq![':'];
    let value_text = value.text(gaps, k + 2);
    assert(is_gap(gaps(k)));
    assert(is_gap(gaps(k + 1)));
    let colon_at = at + key_text.len();
    let value_at = colon_at + colon_text.len();
    reveal(member_text);
    assert(member_text(key, value_text, gaps, k) =~= key_text + (colon_text + value_text));
    lemma_has_at_concat(src, at, key_text, colon_text + value_text);
    lemma_has_at_concat(src, colon_at, colon_text, value_text);
    lemma_lex_string(src, at, gaps(k), key);
    lemma_lex_punctuation(src, colon_at, gaps(k + 1), ':');
    lemma_parse_text(src, value_at, value, gaps, k + 2, depth);
}

/// How the rest of an object is read where a member and then a comma or the
/// closing brace are read.
proof fn lemma_members_step(
    src: Seq<char>,
    at: int,
    depth: nat,
    acc: Seq<(Seq<char>, ValueView)>,
    key: Seq<char>,
    value: ValueView,
    next: int,
    end: int,
)
    requires
        parse_member(src, at, depth) == (ParsedMember::Member { key, value, next }),
        advances(src, at, end),
        lex(src, next) == (Lexed::Token { token: TokenView::Comma, end }) || lex(src, next) == (
        Lexed::Token { token: TokenView::RBrace, end }),
        !(lex(src, at) matches Lexed::Token { token: TokenView::RBrace, .. }),
    ensures
        lex(src, next) == (Lexed::Token { token: TokenView::Comma, end }) ==> parse_members(
            src,
            at,
            depth,
            acc,
        ) == parse_members(src, end, depth, with_member(acc, key, value)),
        lex(src, next) == (Lexed::Token { token: TokenView::RBrace, end }) ==> parse_members(
            src,
            at,
            depth,
            acc,
        ) == (Parsed::Value { value: ValueView::Object(with_member(acc, key, value)), next: end }),
        parse_object(src, at, depth) == parse_members(src, at, depth, Seq::empty()),
{
}

/// The parts of the text of the members from `from` on and of the closing
/// brace after it: the first member, the comma or the brace, and the rest.
proof fn lemma_members_split(
    src: Seq<char>,
    at: int,
    members: Seq<(Seq<char>, ValueView)>,
    from: int,
    gaps: spec_fn(int) -> Seq<char>,
    k: int,
)
    requires
        0 <= from < members.len(),
        has_at(
            src,
            at,
            members_text(members, from, gaps, k) + gaps(k + members_token_count(members, from))
                + seq!['}'],
        ),
    ensures
        ({
            let n = members[from].1.token_count();
            let first = member_text(members[from].0, members[from].1.text(gaps, k + 2), gaps, k);
            let gap = gaps(k + 2 + n);
            let after = at + first.len();
            let end = after + gap.len() + 1;
            &&& has_at(src, at, first)
            &&& from + 1 < members.len() ==> {
                &&& has_at(src, after, gap + seq![','])
                &&& has_at(
                    src,
                    end,
                    members_text(members, from + 1, gaps, k + 3 + n) + gaps(
                        k + 3 + n + members_token_count(members, from + 1),
                    ) + seq!['}'],
                )
                &&& at + members_text(members, from, gaps, k).len() + gaps(
                    k + members_token_count(members, from),
                ).len() + 1 == end + members_text(members, from + 1, gaps, k + 3 + n).len()
                    + gaps(k + 3 + n + members_token_count(members, from + 1)).len() + 1
            }
            &&& from + 1 >= members.len() ==> {
                &&& has_at(src, after, gap + seq!['}'])
                &&& at + members_text(members, from, gaps, k).len() + gaps(
                    k + members_token_count(members, from),
                ).len() + 1 == end
            }
        }),
{
    let n = members[from].1.token_count();
    let first = member_text(members[from].0, members[from].1.text(gaps, k + 2), gaps, k);
    let gap = gaps(k + 2 + n);
    let after = at + first.len();
    if from + 1 < members.len() {
        let more = members_text(members, from + 1, gaps, k + 3 + n);
        let close = gaps(k + 3 + n + members_token_count(members, from + 1));
        let tail = more + close + seq!['}'];
        assert(members_text(members, from, gaps, k) + gaps(
            k + members_token_count(members, from),
        ) + seq!['}'] =~= first + ((gap + seq![',']) + tail));
        lemma_has_at_concat(src, at, first, (gap + seq![',']) + tail);
        lemma_has_at_concat(src, after, gap + seq![','], tail);
    } else {
        assert(members_text(members, from, gaps, k) + gaps(
            k + members_token_count(members, from),
        ) + seq!['}'] =~= first + (gap + seq!['}']));
        lemma_has_at_concat(src, at, first, gap + seq!['}']);
    }
}

/// Setting the next of members with distinct keys appends it to those before it.
proof fn lemma_next_member(members: Seq<(Seq<char>, ValueView)>, from: int)
    requires
        0 <= from < members.len(),
        distinct_keys(members),
    ensures
        with_member(members.take(from), members[from].0, members[from].1) == members.take(
            from + 1,
        ),
{
    reveal(with_member);
    let earlier = members.take(from);
    let key = members[from].0;
    if has_key(earlier, key) {
        let i = choose|i: int| 0 <= i < earlier.len() && (#[trigger] earlier[i]).0 == key;
        assert(members[i].0 != members[from].0);
    }
    assert(members[from] == (key, members[from].1));
    assert(earlier.push(members[from]) =~= members.take(from + 1));
}

/// The text of the members from `from` on, with the closing brace after it, is
/// read as the rest of the object whose earlier members are those before `from`.
pub proof fn lemma_parse_members_text(
    src: Seq<char>,
    at: int,
    members: Seq<(Seq<char>, ValueView)>,
    from: int,
    gaps: spec_fn(int) -> Seq<char>,
    k: int,
    depth: nat,
)
    requires
        0 <= from < members.len(),
        distinct_keys(members),
        forall|i: int| 0 <= i < members.len() ==> (#[trigger] members[i]).1.well_formed(),
        forall|i: int| 0 <= i < members.len() ==> (#[trigger] members[i]).1.nested_within(depth),
        is_layout(gaps),
        has_at(
            src,
            at,
            members_text(members, from, gaps, k) + gaps(k + members_token_count(members, from))
                + seq!['}'],
        ),
    ensures
        parse_members(src, at, depth, members.take(from)) == (Parsed::Value {
            value: ValueView::Object(members),
            next: at + members_text(members, from, gaps, k).len() + gaps(
                k + members_token_count(members, from),
            ).len() + 1,
        }),
        parse_object(src, at, depth) == parse_members(src, at, depth, Seq::empty()),
    decreases members, members.len() - from,
{
    let key = members[from].0;
    let value = members[from].1;
    let n = value.token_count();
    let first = member_text(key, value.text(gaps, k + 2), gaps, k);
    let gap = gaps(k + 2 + n);
    assert(is_gap(gap));
    let after = at + first.len();
    let end = after + gap.len() + 1;
    lemma_next_member(members, from);
    lemma_members_split(src, at, members, from, gaps, k);
    if from + 1 < members.len() {
        lemma_gap_ends_token(src, after, gap, ',');
        lemma_parse_member_text(src, at, members, from, gaps, k, depth);
        lemma_lex_punctuation(src, after, gap, ',');
        lemma_parse_members_text(src, end, members, from + 1, gaps, k + 3 + n, depth);
    } else {
        lemma_gap_ends_token(src, after, gap, '}');
        lemma_parse_member_text(src, at, members, from, gaps, k, depth);
        lemma_lex_punctuation(src, after, gap, '}');
        assert(members.take(from + 1) =~= members);
    }
    lemma_members_step(src, at, depth, members.take(from), key, value, after, end);
}

/// Reading gives back what was written: the text of a well-formed value, in any
/// layout, is read as that value, by a parser that allows its nesting.
pub proof fn lemma_round_trip(v: ValueView, gaps: spec_fn(int) -> Seq<char>, depth: nat)
    requires
        v.well_formed(),
        v.nested_within(depth),
        is_layout(gaps),
    ensures
        parse_document(v.document(gaps), 0, depth) == (Document::Value {
            value: v,
            next: v.text(gaps, 0).len() as int,
        }),
{
    let src = v.document(gaps);
    let text = v.text(gaps, 0);
    let trail = gaps(v.token_count());
    lemma_has_at_concat(src, 0, text, trail);
    assert(has_at(src, 0, src));
    assert(ends_token(src, text.len() as int)) by {
        if trail.len() > 0 {
            assert(src[text.len() as int] == trail[0]);
            assert(is_whitespace(trail[0]));
        }
    }
    lemma_parse_text(src, 0, v, gaps, 0, depth);
}

/// A value is nested no deeper than its text is long.
pub proof fn lemma_text_bounds_nesting(
    v: ValueView,
    gaps: spec_fn(int) -> Seq<char>,
    k: int,
    depth: nat,
)
    requires
        depth >= v.text(gaps, k).len(),
    ensures
        v.nested_within(depth),
    decreases v, 0int,
{
    match v {
        ValueView::Array(items) => {
            lemma_items_text_bounds_nesting(items, 0, gaps, k + 1, (depth - 1) as nat);
        },
        ValueView::Object(members) => {
            lemma_members_text_bounds_nesting(members, 0, gaps, k + 1, (depth - 1) as nat);
        },
        _ => {},
    }
}

/// `lemma_text_bounds_nesting` for the items from `from` on.
proof fn lemma_items_text_bounds_nesting(
    items: Seq<ValueView>,
    from: int,
    gaps: spec_fn(int) -> Seq<char>,
    k: int,
    depth: nat,
)
    requires
        0 <= from,
        depth >= items_text(items, from, gaps, k).len(),
    ensures
        forall|i: int| from <= i < items.len() ==> (#[trigger] items[i]).nested_within(depth),
    decreases items, items.len() - from,
{
    if from < items.len() {
        lemma_text_bounds_nesting(items[from], gaps, k, depth);
        if from + 1 < items.len() {
            let n = items[from].token_count();
            lemma_items_text_bounds_nesting(items, from + 1, gaps, k + n + 1, depth);
        }
    }
}

/// `lemma_text_bounds_nesting` for the members from `from` on.
proof fn lemma_members_text_bounds_nesting(
    members: Seq<(Seq<char>, ValueView)>,
    from: int,
    gaps: spec_fn(int) -> Seq<char>,
    k: int,
    depth: nat,
)
    requires
        0 <= from,
        depth >= members_text(members, from, gaps, k).len(),
    ensures
        forall|i: int| from <= i < members.len() ==> (#[trigger] members[i]).1.nested_within(depth),
    decreases members, members.len() - from,
{
    if from < members.len() {
        reveal(member_text);
        lemma_text_bounds_nesting(members[from].1, gaps, k + 2, depth);
        if from + 1 < members.len() {
            let n = members[from].1.token_count();
            lemma_members_text_bounds_nesting(members, from + 1, gaps, k + 3 + n, depth);
        }
    }
}

/// Reading gives back what was written, whatever the nesting, where the parser
/// allows a nesting as deep as the text is long.
pub proof fn lemma_round_trip_by_length(
    v: ValueView,
    gaps: spec_fn(int) -> Seq<char>,
    depth: nat,
)
    requires
        v.well_formed(),
        is_layout(gaps),
        depth >= v.document(gaps).len(),
    ensures
        parse_document(v.document(gaps), 0, depth) == (Document::Value {
            value: v,
            next: v.text(gaps, 0).len() as int,
        }),
{
    lemma_text_bounds_nesting(v, gaps, 0, depth);
    lemma_round_trip(v, gaps, depth);
}

/// The canonical text of a well-formed value is read as that value.
pub proof fn lemma_canonical_round_trip(v: ValueView, depth: nat)
    requires
        v.well_formed(),
        v.nested_within(depth),
    ensures
        parse_document(v.canonical(), 0, depth) == (Document::Value {
            value: v,
            next: v.canonical().len() as int,
        }),
{
    lemma_round_trip(v, dense(), depth);
    assert(v.canonical() =~= v.text(dense(), 0));
}

/// Whitespace between tokens changes nothing: two texts of one value that
/// differ in their layouts alone are read as the same value.
pub proof fn lemma_layout_is_immaterial(
    v: ValueView,
    one: spec_fn(int) -> Seq<char>,
    other: spec_fn(int) -> Seq<char>,
    depth: nat,
)
    requires
        v.well_formed(),
        v.nested_within(depth),
        is_layout(one),
        is_layout(other),
    ensures
        parse_document(v.document(one), 0, depth) matches Document::Value { value: a, .. }
            && parse_document(v.document(other), 0, depth) matches Document::Value {
            value: b,
            ..
        } && a == b && a == v,
{
    lemma_round_trip(v, one, depth);
    lemma_round_trip(v, other, depth);
}

} // verus!
