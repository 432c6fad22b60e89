//! Number literals. A number is kept as the decimal literal that denotes it, so
//! that nothing of the written value is lost; the literal is known to be well
//! formed, and a caller turns it into the numeric type of its choice.

use vstd::prelude::*;
use crate::chars::{
    chars_of, check_digit, is_digit, lemma_run_end, lemma_run_end_unique, run_end, scan_run,
    string_of, CharClass,
};

verus! {

/// A sign character.
pub open spec fn is_sign(c: char) -> bool {
    c == '+' || c == '-'
}

/// An exponent marker.
pub open spec fn is_exponent_mark(c: char) -> bool {
    c == 'e' || c == 'E'
}

/// Whether every character of `s` is a decimal digit.
pub open spec fn all_digits(s: Seq<char>) -> bool {
    forall|i: int| 0 <= i < s.len() ==> is_digit(#[trigger] s[i])
}

/// Whether `s` is a sign or nothing.
pub open spec fn is_optional_sign(s: Seq<char>) -> bool {
    s.len() == 0 || (s.len() == 1 && is_sign(s[0]))
}

/// Whether `point` and `fraction` are a decimal point with the digits after
/// it, or both nothing.
pub open spec fn is_fraction(point: Seq<char>, fraction: Seq<char>) -> bool {
    &&& all_digits(fraction)
    &&& point =~= seq!['.'] || (point.len() == 0 && fraction.len() == 0)
}

/// The text of an exponent with the given parts.
pub open spec fn exponent_text(mark: char, sign: Seq<char>, digits: Seq<char>) -> Seq<char> {
    seq![mark] + sign + digits
}

/// Whether `s` is an exponent or nothing: a marker, an optional sign, and at
/// least one digit.
pub open spec fn is_optional_exponent(s: Seq<char>) -> bool {
    s.len() == 0 || exists|mark: char, sign: Seq<char>, digits: Seq<char>|
        {
            &&& #[trigger] exponent_text(mark, sign, digits) == s
            &&& is_exponent_mark(mark)
            &&& is_optional_sign(sign)
            &&& all_digits(digits)
            &&& digits.len() > 0
        }
}

/// The text of a number with the given parts.
pub open spec fn number_text(
    sign: Seq<char>,
    whole: Seq<char>,
    point: Seq<char>,
    fraction: Seq<char>,
    exponent: Seq<char>,
) -> Seq<char> {
    sign + whole + point + fraction + exponent
}

/// Whether the parts are those of a number literal.
pub open spec fn is_number_parts(
    sign: Seq<char>,
    whole: Seq<char>,
    point: Seq<char>,
    fraction: Seq<char>,
    exponent: Seq<char>,
) -> bool {
    &&& is_optional_sign(sign)
    &&& all_digits(whole)
    &&& is_fraction(point, fraction)
    &&& whole.len() + fraction.len() > 0
    &&& is_optional_exponent(exponent)
}

/// Whether `s` is a decimal floating-point literal: an optional sign; digits with
/// at most one decimal point among, before or after them, and at least one digit;
/// then an optional exponent.
pub open spec fn is_number_literal(s: Seq<char>) -> bool {
    exists|
        sign: Seq<char>,
        whole: Seq<char>,
        point: Seq<char>,
        fraction: Seq<char>,
        exponent: Seq<char>,
    |
        #[trigger] number_text(sign, whole, point, fraction, exponent) == s && is_number_parts(
            sign,
            whole,
            point,
            fraction,
            exponent,
        )
}

/// Whether `s` is a number as the lexer accepts one: a number literal that
/// starts with a minus sign or a digit.
pub open spec fn is_number(s: Seq<char>) -> bool {
    is_number_literal(s) && (s[0] == '-' || is_digit(s[0]))
}

/// Where the digits before the decimal point start: after the sign, if there is one.
pub open spec fn whole_start(s: Seq<char>) -> int {
    if s.len() > 0 && is_sign(s[0]) {
        1
    } else {
        0
    }
}

/// Where the digits before the decimal point end.
pub open spec fn whole_end(s: Seq<char>) -> int {
    run_end(s, whole_start(s), CharClass::Digit)
}

/// Whether a decimal point follows the digits of the whole part.
pub open spec fn has_point(s: Seq<char>) -> bool {
    whole_end(s) < s.len() && s[whole_end(s)] == '.'
}

/// Where the mantissa ends: after the digits that follow the decimal point, or
/// after the whole part where there is no point.
pub open spec fn mantissa_end(s: Seq<char>) -> int {
    if has_point(s) {
        run_end(s, whole_end(s) + 1, CharClass::Digit)
    } else {
        whole_end(s)
    }
}

/// The number of digits in the mantissa, on both sides of the point.
pub open spec fn mantissa_digits(s: Seq<char>) -> int {
    if has_point(s) {
        mantissa_end(s) - whole_start(s) - 1
    } else {
        mantissa_end(s) - whole_start(s)
    }
}

/// Whether `s` from `from` on is an exponent: a marker, an optional sign, and at
/// least one digit, up to the end of `s`.
pub open spec fn is_exponent(s: Seq<char>, from: int) -> bool {
    &&& 0 <= from < s.len()
    &&& is_exponent_mark(s[from])
    &&& {
        let digits = if from + 1 < s.len() && is_sign(s[from + 1]) {
            from + 2
        } else {
            from + 1
        };
        digits < s.len() && run_end(s, digits, CharClass::Digit) == s.len()
    }
}

/// Whether a scan of `s` from left to right finds a number literal: the runs of
/// digits hold at least one digit, and what follows them is nothing or an
/// exponent.
pub open spec fn scans_as_number(s: Seq<char>) -> bool {
    &&& mantissa_digits(s) > 0
    &&& (mantissa_end(s) == s.len() || is_exponent(s, mantissa_end(s)))
}

/// The characters of `s` at the places of the parts of a number.
proof fn lemma_parts_in_text(
    sign: Seq<char>,
    whole: Seq<char>,
    point: Seq<char>,
    fraction: Seq<char>,
    exponent: Seq<char>,
)
    ensures
        ({
            let s = number_text(sign, whole, point, fraction, exponent);
            let a = sign.len();
            let b = a + whole.len();
            let c = b + point.len();
            let d = c + fraction.len();
            &&& s.len() == d + exponent.len()
            &&& forall|i: int| 0 <= i < a ==> #[trigger] s[i] == sign[i]
            &&& forall|i: int| a <= i < b ==> #[trigger] s[i] == whole[i - a]
            &&& forall|i: int| b <= i < c ==> #[trigger] s[i] == point[i - b]
            &&& forall|i: int| c <= i < d ==> #[trigger] s[i] == fraction[i - c]
            &&& forall|i: int| d <= i < s.len() ==> #[trigger] s[i] == exponent[i - d]
        }),
{
}

/// A text with the parts of a number literal scans as a number.
proof fn lemma_parts_scan(
    sign: Seq<char>,
    whole: Seq<char>,
    point: Seq<char>,
    fraction: Seq<char>,
    exponent: Seq<char>,
)
    requires
        is_number_parts(sign, whole, point, fraction, exponent),
    ensures
        scans_as_number(number_text(sign, whole, point, fraction, exponent)),
{
    let s = number_text(sign, whole, point, fraction, exponent);
    let a = sign.len() as int;
    let b = a + whole.len();
    let c = b + point.len();
    let d = c + fraction.len();
    lemma_parts_in_text(sign, whole, point, fraction, exponent);
    if exponent.len() > 0 {
        let (mark, esign, digits) = choose|mark: char, esign: Seq<char>, digits: Seq<char>|
            {
                &&& #[trigger] exponent_text(mark, esign, digits) == exponent
                &&& is_exponent_mark(mark)
                &&& is_optional_sign(esign)
                &&& all_digits(digits)
                &&& digits.len() > 0
            };
        let first = d + 1 + esign.len();
        assert(exponent[0] == mark);
        assert(s[d] == exponent[d - d]);
        if esign.len() > 0 {
            assert(exponent[1] == esign[0]);
            assert(s[d + 1] == exponent[d + 1 - d]);
        } else {
            assert(exponent[1] == digits[0]);
            assert(s[d + 1] == exponent[d + 1 - d]);
        }
        assert forall|i: int| first <= i < s.len() implies CharClass::Digit.contains(
            #[trigger] s[i],
        ) by {
            assert(s[i] == exponent[i - d]);
            assert(exponent[i - d] == digits[i - first]);
        }
        lemma_run_end_unique(s, first, CharClass::Digit, s.len() as int);
    }
    assert(whole_start(s) == a) by {
        if a > 0 {
            assert(s[0] == sign[0]);
        } else if whole.len() > 0 {
            assert(s[0] == whole[0]);
        } else {
            assert(s[0] == point[0]);
        }
    }
    assert forall|i: int| a <= i < b implies CharClass::Digit.contains(#[trigger] s[i]) by {
        assert(s[i] == whole[i - a]);
    }
    if b < s.len() {
        if point.len() > 0 {
            assert(s[b] == point[b - b]);
        } else {
            assert(s[b] == exponent[b - d]);
        }
    }
    lemma_run_end_unique(s, a, CharClass::Digit, b);
    if point.len() > 0 {
        assert(s[b] == point[b - b]);
        assert forall|i: int| c <= i < d implies CharClass::Digit.contains(#[trigger] s[i]) by {
            assert(s[i] == fraction[i - c]);
        }
        if d < s.len() {
            assert(s[d] == exponent[d - d]);
        }
        lemma_run_end_unique(s, c, CharClass::Digit, d);
    }
}

/// A text that scans as a number has the parts of a number literal.
proof fn lemma_scan_parts(s: Seq<char>)
    requires
        scans_as_number(s),
    ensures
        is_number_literal(s),
{
    let a = whole_start(s);
    let b = whole_end(s);
    let d = mantissa_end(s);
    lemma_run_end(s, a, CharClass::Digit);
    if has_point(s) {
        lemma_run_end(s, b + 1, CharClass::Digit);
    }
    let sign = s.subrange(0, a);
    let whole = s.subrange(a, b);
    let point = if has_point(s) {
        s.subrange(b, b + 1)
    } else {
        Seq::empty()
    };
    let fraction = if has_point(s) {
        s.subrange(b + 1, d)
    } else {
        Seq::empty()
    };
    let exponent = s.subrange(d, s.len() as int);
    assert(all_digits(whole)) by {
        assert forall|i: int| 0 <= i < whole.len() implies is_digit(#[trigger] whole[i]) by {
            assert(CharClass::Digit.contains(s[a + i]));
        }
    }
    assert(all_digits(fraction)) by {
        assert forall|i: int| 0 <= i < fraction.len() implies is_digit(#[trigger] fraction[i]) by {
            assert(CharClass::Digit.contains(s[b + 1 + i]));
        }
    }
    if d < s.len() {
        let first = if d + 1 < s.len() && is_sign(s[d + 1]) {
            d + 2
        } else {
            d + 1
        };
        lemma_run_end(s, first, CharClass::Digit);
        let esign = s.subrange(d + 1, first);
        let digits = s.subrange(first, s.len() as int);
        assert(all_digits(digits)) by {
            assert forall|i: int| 0 <= i < digits.len() implies is_digit(#[trigger] digits[i]) by {
                assert(CharClass::Digit.contains(s[first + i]));
            }
        }
        assert(exponent_text(s[d], esign, digits) =~= exponent);
    }
    assert(number_text(sign, whole, point, fraction, exponent) =~= s);
}

/// A text is a number literal exactly when a scan from left to right finds one.
pub proof fn lemma_number_literal_scans(s: Seq<char>)
    ensures
        is_number_literal(s) == scans_as_number(s),
{
    if is_number_literal(s) {
        let (sign, whole, point, fraction, exponent) = choose|
            sign: Seq<char>,
            whole: Seq<char>,
            point: Seq<char>,
            fraction: Seq<char>,
            exponent: Seq<char>,
        |
            #[trigger] number_text(sign, whole, point, fraction, exponent) == s && is_number_parts(
                sign,
                whole,
                point,
                fraction,
                exponent,
            );
        lemma_parts_scan(sign, whole, point, fraction, exponent);
    }
    if scans_as_number(s) {
        lemma_scan_parts(s);
    }
}

/// Decides whether `text` is a number literal.
pub fn check_number_literal(text: &Vec<char>) -> (ok: bool)
    ensures
        ok == is_number_literal(text@),
{
    proof {
        lemma_number_literal_scans(text@);
    }
    let n = text.len();
    let start: usize = if n > 0 && (text[0] == '+' || text[0] == '-') {
        1
    } else {
        0
    };
    let whole = scan_run(text, start, CharClass::Digit);
    let point = whole < n && text[whole] == '.';
    let mantissa = if point {
        scan_run(text, whole + 1, CharClass::Digit)
    } else {
        whole
    };
    let digits = if point {
        mantissa - start - 1
    } else {
        mantissa - start
    };
    if digits == 0 {
        return false;
    }
    if mantissa == n {
        return true;
    }
    if !(text[mantissa] == 'e' || text[mantissa] == 'E') {
        return false;
    }
    let first = if mantissa + 1 < n && (text[mantissa + 1] == '+' || text[mantissa + 1] == '-') {
        mantissa + 2
    } else {
        mantissa + 1
    };
    first < n && scan_run(text, first, CharClass::Digit) == n
}

/// A number, held as its literal.
#[derive(Debug, PartialEq, Eq)]
pub struct Number {
    text: String,
}

impl View for Number {
    type V = Seq<char>;

    /// The literal.
    closed spec fn view(&self) -> Seq<char> {
        self.text@
    }
}

impl Number {
    #[verifier::type_invariant]
    spec fn well_formed(self) -> bool {
        is_number(self.text@)
    }

    /// The number that `text` denotes, where `text` is a number.
    pub fn new(text: &str) -> (r: Option<Number>)
        ensures
            is_number(text@) ==> r.is_some() && r.unwrap()@ == text@,
            !is_number(text@) ==> r.is_none(),
    {
        let chars = chars_of(text);
        Number::from_chars(&chars)
    }

    /// The number that the characters of `text` denote, where they form a number.
    pub fn from_chars(text: &Vec<char>) -> (r: Option<Number>)
        ensures
            is_number(text@) ==> r.is_some() && r.unwrap()@ == text@,
            !is_number(text@) ==> r.is_none(),
    {
        if check_number_literal(text) && (text[0] == '-' || check_digit(text[0])) {
            Some(Number { text: string_of(text) })
        } else {
            None
        }
    }

    /// The literal, which is always a number.
    pub fn as_str(&self) -> (text: &str)
        ensures
            text@ == self@,
            is_number(self@),
    {
        proof {
            use_type_invariant(self);
        }
        self.text.as_str()
    }
}

} // verus!
