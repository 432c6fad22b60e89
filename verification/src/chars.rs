//! Character classes of the JSON grammar, runs of characters of one class, and the
//! few functions of the standard library on `char` and `String` that the lexer
//! relies on.

use vstd::prelude::*;

verus! {

/// The characters that may separate tokens: space, tab, carriage return, line feed.
pub open spec fn is_whitespace(c: char) -> bool {
    c == ' ' || c == '\t' || c == '\r' || c == '\n'
}

/// A decimal digit.
pub open spec fn is_digit(c: char) -> bool {
    '0' <= c <= '9'
}

/// A hexadecimal digit, in either case.
pub open spec fn is_hex_digit(c: char) -> bool {
    is_digit(c) || 'a' <= c <= 'f' || 'A' <= c <= 'F'
}

/// A character that the number scanner accepts after the first one.
pub open spec fn is_number_char(c: char) -> bool {
    is_digit(c) || c == '+' || c == '-' || c == '.' || c == 'e' || c == 'E'
}

/// A letter of the ASCII alphabet, in either case.
pub open spec fn is_ascii_letter(c: char) -> bool {
    'a' <= c <= 'z' || 'A' <= c <= 'Z'
}

/// Whether `c`, a character beyond ASCII, is `Alphabetic` in Unicode, as
/// `char::is_alphabetic` decides it.
pub uninterp spec fn unicode_alphabetic(c: char) -> bool;

/// Whether `c` is alphabetic: within ASCII the letters are, beyond it the
/// characters that Unicode calls `Alphabetic`.
pub open spec fn alphabetic(c: char) -> bool {
    if c <= '\u{7f}' {
        is_ascii_letter(c)
    } else {
        unicode_alphabetic(c)
    }
}

/// The value of a hexadecimal digit; 0 for any other character.
pub open spec fn hex_digit_value(c: char) -> nat {
    if is_digit(c) {
        (c as nat - '0' as nat) as nat
    } else if 'a' <= c <= 'f' {
        (c as nat - 'a' as nat + 10) as nat
    } else if 'A' <= c <= 'F' {
        (c as nat - 'A' as nat + 10) as nat
    } else {
        0
    }
}

/// The number that a string of hexadecimal digits denotes, most significant digit first.
pub open spec fn hex_value(digits: Seq<char>) -> nat
    decreases digits.len(),
{
    if digits.len() == 0 {
        0
    } else {
        16 * hex_value(digits.drop_last()) + hex_digit_value(digits.last())
    }
}

/// Whether `code` is a Unicode scalar value, that is a code point outside the
/// surrogate range.
pub open spec fn is_scalar_value(code: nat) -> bool {
    code <= 0xD7FF || 0xE000 <= code <= 0x10FFFF
}

/// The character that a UTF-16 code unit stands for when taken alone. A surrogate
/// has no character of its own and yields U+FFFD, the replacement character.
pub open spec fn code_unit_char(code: nat) -> char {
    if is_scalar_value(code) {
        code as char
    } else {
        '\u{FFFD}'
    }
}

/// A class of characters that the lexer consumes in runs.
#[derive(Clone, Copy, Debug, PartialEq, Eq)]
pub enum CharClass {
    Whitespace,
    Alphabetic,
    Number,
    Digit,
    HexDigit,
}

impl CharClass {
    /// Membership of `c` in the class.
    pub open spec fn contains(self, c: char) -> bool {
        match self {
            CharClass::Whitespace => is_whitespace(c),
            CharClass::Alphabetic => alphabetic(c),
            CharClass::Number => is_number_char(c),
            CharClass::Digit => is_digit(c),
            CharClass::HexDigit => is_hex_digit(c),
        }
    }

    /// Decides membership of `c` in the class.
    pub fn has(self, c: char) -> (b: bool)
        ensures
            b == self.contains(c),
    {
        match self {
            CharClass::Whitespace => c == ' ' || c == '\t' || c == '\r' || c == '\n',
            CharClass::Alphabetic => c.is_alphabetic(),
            CharClass::Number => check_digit(c) || c == '+' || c == '-' || c == '.' || c == 'e'
                || c == 'E',
            CharClass::Digit => check_digit(c),
            CharClass::HexDigit => check_digit(c) || ('a' <= c && c <= 'f') || ('A' <= c && c
                <= 'F'),
        }
    }
}

/// The end of the longest run of characters of `class` that starts at `from`: the
/// first index at or after `from` whose character is outside the class, or the
/// length of `src` where there is none.
pub open spec fn run_end(src: Seq<char>, from: int, class: CharClass) -> int
    decreases src.len() - from,
{
    if 0 <= from < src.len() && class.contains(src[from]) {
        run_end(src, from + 1, class)
    } else {
        from
    }
}

/// `run_end` is the least index at or after `from` that ends the run: everything
/// before it belongs to the class, and it is the end of the text or a character
/// outside the class.
pub proof fn lemma_run_end(src: Seq<char>, from: int, class: CharClass)
    requires
        0 <= from <= src.len(),
    ensures
        from <= run_end(src, from, class) <= src.len(),
        forall|i: int| from <= i < run_end(src, from, class) ==> class.contains(#[trigger] src[i]),
        run_end(src, from, class) < src.len() ==> !class.contains(
            src[run_end(src, from, class)],
        ),
    decreases src.len() - from,
{
    if from < src.len() && class.contains(src[from]) {
        lemma_run_end(src, from + 1, class);
    }
}

/// Any index that ends the run of `class` from `from` as `run_end` does is `run_end`.
pub proof fn lemma_run_end_unique(src: Seq<char>, from: int, class: CharClass, end: int)
    requires
        0 <= from <= end <= src.len(),
        forall|i: int| from <= i < end ==> class.contains(#[trigger] src[i]),
        end < src.len() ==> !class.contains(src[end]),
    ensures
        run_end(src, from, class) == end,
    decreases end - from,
{
    if from < end {
        lemma_run_end_unique(src, from + 1, class, end);
    }
}

/// Finds the end of the run of `class` in `text` that starts at `from`.
pub fn scan_run(text: &Vec<char>, from: usize, class: CharClass) -> (end: usize)
    requires
        from <= text.len(),
    ensures
        end == run_end(text@, from as int, class),
        from <= end <= text.len(),
{
    let mut end = from;
    while end < text.len() && class.has(text[end])
        invariant
            from <= end <= text.len(),
            run_end(text@, from as int, class) == run_end(text@, end as int, class),
        decreases text.len() - end,
    {
        end += 1;
    }
    end
}

/// Builds the string that holds the characters of `text`.
pub fn string_of(text: &Vec<char>) -> (s: String)
    ensures
        s@ == text@,
{
    let mut s = String::new();
    let mut i: usize = 0;
    while i < text.len()
        invariant
            i <= text.len(),
            s@ == text@.take(i as int),
        decreases text.len() - i,
    {
        s.push(text[i]);
        i += 1;
    }
    s
}

/// Collects the characters of `text`.
pub fn chars_of(text: &str) -> (v: Vec<char>)
    ensures
        v@ == text@,
{
    let mut v: Vec<char> = Vec::new();
    for c in it: text.chars()
        invariant
            v@ == it.seq().take(it.index()),
    {
        v.push(c);
    }
    v
}

/// Decides whether `c` is a decimal digit.
pub fn check_digit(c: char) -> (b: bool)
    ensures
        b == is_digit(c),
{
    '0' <= c && c <= '9'
}

/// The value of the hexadecimal digit `c`.
pub fn hex_digit(c: char) -> (v: u32)
    requires
        is_hex_digit(c),
    ensures
        v == hex_digit_value(c),
        v < 16,
{
    if '0' <= c && c <= '9' {
        c as u32 - '0' as u32
    } else if 'a' <= c && c <= 'f' {
        c as u32 - 'a' as u32 + 10
    } else {
        c as u32 - 'A' as u32 + 10
    }
}

/// The character for one UTF-16 code unit taken alone.
pub fn char_of_code_unit(code: u32) -> (c: char)
    ensures
        c == code_unit_char(code as nat),
{
    match char::from_u32(code) {
        Some(c) => c,
        None => '\u{FFFD}',
    }
}

/// `char::is_alphabetic`: of an ASCII character it says whether it is a letter;
/// of any other, whether Unicode calls it `Alphabetic`, an answer that depends
/// on the character alone and that `unicode_alphabetic` names.
pub assume_specification[ char::is_alphabetic ](c: char) -> (b: bool)
    ensures
        c <= '\u{7f}' ==> b == is_ascii_letter(c),
        c > '\u{7f}' ==> b == unicode_alphabetic(c),
;

/// `char::from_u32`: `Some` of the character with that code exactly when the code
/// is a Unicode scalar value, which is at most 0x10FFFF and no surrogate.
pub assume_specification[ char::from_u32 ](code: u32) -> (c: Option<char>)
    ensures
        is_scalar_value(code as nat) ==> c == Some(code as char),
        !is_scalar_value(code as nat) ==> c.is_none(),
;

/// `String::push`: the character is appended at the end of the string.
pub assume_specification[ std::string::String::push ](s: &mut std::string::String, c: char)
    ensures
        final(s)@ == old(s)@.push(c),
;

} // verus!
