use json_parser::chars::{char_of_code_unit, check_digit, chars_of, hex_digit, scan_run, string_of, CharClass};
use json_parser::error::{LexError, LexErrorKind};
use json_parser::lexer::Lexer;
use json_parser::number::{check_number_literal, Number};
use json_parser::position::Position;
use json_parser::token::Token;

fn tokens(text: &str) -> Result<Vec<Token>, LexError> {
    let mut lexer = Lexer::new(text);
    let mut found = Vec::new();
    loop {
        match lexer.next_token()? {
            Some(token) => found.push(token),
            None => return Ok(found),
        }
    }
}

fn failure(text: &str) -> (LexErrorKind, Position, String) {
    match tokens(text) {
        Err(e) => (e.kind, e.position, e.text),
        Ok(found) => panic!("expected an error, got {:?}", found),
    }
}

fn at(line: usize, column: usize) -> Position {
    Position { line, column }
}

fn num(text: &str) -> Token {
    Token::Number(Number::new(text).unwrap())
}

#[test]
fn structural_tokens() {
    assert_eq!(
        tokens("{}[],:"),
        Ok(vec![
            Token::LBrace,
            Token::RBrace,
            Token::LBracket,
            Token::RBracket,
            Token::Comma,
            Token::Colon,
        ])
    );
}

#[test]
fn keywords() {
    assert_eq!(
        tokens("true false null"),
        Ok(vec![Token::True, Token::False, Token::Null])
    );
    assert_eq!(tokens("true"), Ok(vec![Token::True]));
    assert_eq!(tokens("null,"), Ok(vec![Token::Null, Token::Comma]));
}

#[test]
fn unrecognized_keywords() {
    assert_eq!(
        failure("nul"),
        (LexErrorKind::UnrecognizedKeyword, at(1, 4), "nul".to_string())
    );
    assert_eq!(
        failure("truefalse"),
        (LexErrorKind::UnrecognizedKeyword, at(1, 10), "truefalse".to_string())
    );
    assert_eq!(
        failure(" nope "),
        (LexErrorKind::UnrecognizedKeyword, at(1, 6), "nope".to_string())
    );
    assert_eq!(
        failure("true\u{e9}"),
        (LexErrorKind::UnrecognizedKeyword, at(1, 6), "true\u{e9}".to_string())
    );
    assert_eq!(
        failure("True"),
        (LexErrorKind::UnexpectedCharacter, at(1, 1), "T".to_string())
    );
}

#[test]
fn keyword_ends_at_the_first_character_that_is_not_alphabetic() {
    assert_eq!(tokens("true1"), Ok(vec![Token::True, num("1")]));
    assert_eq!(tokens("null\"a\""), Ok(vec![Token::Null, Token::String("a".to_string())]));
}

#[test]
fn numbers() {
    assert_eq!(
        tokens("0 -1 2.5 1e3 1E-3 -0.5e+10 7. -.5"),
        Ok(vec![
            num("0"),
            num("-1"),
            num("2.5"),
            num("1e3"),
            num("1E-3"),
            num("-0.5e+10"),
            num("7."),
            num("-.5"),
        ])
    );
}

#[test]
fn number_scanning_is_greedy() {
    assert_eq!(
        failure("1-2"),
        (LexErrorKind::InvalidNumberLiteral, at(1, 4), "1-2".to_string())
    );
    assert_eq!(
        failure("1.2.3 "),
        (LexErrorKind::InvalidNumberLiteral, at(1, 6), "1.2.3".to_string())
    );
    assert_eq!(
        failure("-"),
        (LexErrorKind::InvalidNumberLiteral, at(1, 2), "-".to_string())
    );
    assert_eq!(tokens("12]"), Ok(vec![num("12"), Token::RBracket]));
}

#[test]
fn number_literal_grammar() {
    for text in ["0", "007", "-0", "1.", "-.5", "1.5", "1e5", "1E5", "1e+5", "1e-5", "1.e5", "-.5e5", "123456789012345678901234567890"] {
        assert!(check_number_literal(&text.chars().collect()), "{}", text);
        assert_eq!(Number::new(text).unwrap().as_str(), text);
    }
    for text in ["+1", ".5", "+.5e1"] {
        assert!(check_number_literal(&text.chars().collect()), "{}", text);
        assert_eq!(Number::new(text), None);
    }
    for text in ["", "-", "+", ".", "-.", "e5", "1e", "1e+", "1e-", "1e5.", "1e5e5", "1..2", "1.2.3", "--1", "+-1", "1-", "1+1", "1 ", " 1", "1a", "inf", "nan", "0x10", "1_000"] {
        assert!(!check_number_literal(&text.chars().collect()), "{}", text);
        assert_eq!(Number::new(text), None);
    }
}

#[test]
fn strings() {
    assert_eq!(tokens("\"\""), Ok(vec![Token::String(String::new())]));
    assert_eq!(
        tokens("\"a b\" \"c\""),
        Ok(vec![Token::String("a b".to_string()), Token::String("c".to_string())])
    );
    assert_eq!(
        tokens("\"line\nbreak\ttab\""),
        Ok(vec![Token::String("line\nbreak\ttab".to_string())])
    );
    assert_eq!(
        tokens("\"say \\\"hi\\\"\""),
        Ok(vec![Token::String("say \"hi\"".to_string())])
    );
    assert_eq!(
        tokens("\"\\u0041\\u00424\""),
        Ok(vec![Token::String("AB4".to_string())])
    );
}

#[test]
fn unterminated_string() {
    assert_eq!(
        failure("\"abc"),
        (LexErrorKind::UnterminatedString, at(1, 5), String::new())
    );
    assert_eq!(
        failure("\"a\nb"),
        (LexErrorKind::UnterminatedString, at(2, 2), String::new())
    );
    assert_eq!(
        failure("\"abc\\\""),
        (LexErrorKind::UnterminatedString, at(1, 7), String::new())
    );
}

#[test]
fn unterminated_escape() {
    assert_eq!(
        failure("\"abc\\"),
        (LexErrorKind::UnterminatedEscape, at(1, 6), String::new())
    );
}

#[test]
fn invalid_hex_digit() {
    assert_eq!(
        failure("\"\\u12G4\""),
        (LexErrorKind::InvalidHexDigit, at(1, 6), "G".to_string())
    );
    assert_eq!(
        failure("\"\\u12"),
        (LexErrorKind::InvalidHexDigit, at(1, 6), String::new())
    );
    assert_eq!(
        failure("\"\\u\""),
        (LexErrorKind::InvalidHexDigit, at(1, 4), "\"".to_string())
    );
    assert_eq!(
        failure("\"\\u123\n"),
        (LexErrorKind::InvalidHexDigit, at(1, 7), "\n".to_string())
    );
}

#[test]
fn unknown_escape() {
    assert_eq!(
        failure("\"\\q\""),
        (LexErrorKind::UnexpectedCharacter, at(1, 3), "q".to_string())
    );
    assert_eq!(
        failure("\"\\U0041\""),
        (LexErrorKind::UnexpectedCharacter, at(1, 3), "U".to_string())
    );
}

#[test]
fn unexpected_character() {
    assert_eq!(
        failure("@"),
        (LexErrorKind::UnexpectedCharacter, at(1, 1), "@".to_string())
    );
    assert_eq!(
        failure("\u{0}"),
        (LexErrorKind::UnexpectedCharacter, at(1, 1), "\u{0}".to_string())
    );
    assert_eq!(
        failure("+1"),
        (LexErrorKind::UnexpectedCharacter, at(1, 1), "+".to_string())
    );
    assert_eq!(
        failure(".5"),
        (LexErrorKind::UnexpectedCharacter, at(1, 1), ".".to_string())
    );
    assert_eq!(
        failure("[\n\n  \u{e9}"),
        (LexErrorKind::UnexpectedCharacter, at(3, 3), "\u{e9}".to_string())
    );
}

#[test]
fn form_feed_is_no_whitespace() {
    assert_eq!(
        failure("\u{c}1"),
        (LexErrorKind::UnexpectedCharacter, at(1, 1), "\u{c}".to_string())
    );
}

#[test]
fn unexpected_character_on_a_later_line() {
    let mut lexer = Lexer::new("[1,\n 2,\n @]");
    assert_eq!(lexer.next_token(), Ok(Some(Token::LBracket)));
    assert_eq!(lexer.next_token(), Ok(Some(num("1"))));
    assert_eq!(lexer.next_token(), Ok(Some(Token::Comma)));
    assert_eq!(lexer.next_token(), Ok(Some(num("2"))));
    assert_eq!(lexer.next_token(), Ok(Some(Token::Comma)));
    match lexer.next_token() {
        Err(e) => {
            assert_eq!(e.kind, LexErrorKind::UnexpectedCharacter);
            assert_eq!(e.text, "@");
            assert_eq!(e.position, at(3, 2));
        }
        other => panic!("expected an error, got {:?}", other),
    }
    assert_eq!(lexer.position(), at(3, 2));
}

#[test]
fn end_of_input_is_reported_again_and_again() {
    let mut lexer = Lexer::new(" 1 ");
    assert_eq!(lexer.next_token(), Ok(Some(num("1"))));
    assert_eq!(lexer.next_token(), Ok(None));
    assert_eq!(lexer.next_token(), Ok(None));
    assert_eq!(lexer.position(), at(1, 4));
}

#[test]
fn position_follows_the_tokens() {
    let mut lexer = Lexer::new("[1,\n \"a\\n\"\n]");
    assert_eq!(lexer.position(), at(1, 1));
    assert_eq!(lexer.next_token(), Ok(Some(Token::LBracket)));
    assert_eq!(lexer.position(), at(1, 2));
    assert_eq!(lexer.next_token(), Ok(Some(num("1"))));
    assert_eq!(lexer.position(), at(1, 3));
    assert_eq!(lexer.next_token(), Ok(Some(Token::Comma)));
    assert_eq!(lexer.position(), at(1, 4));
    assert_eq!(lexer.next_token(), Ok(Some(Token::String("a\n".to_string()))));
    assert_eq!(lexer.position(), at(2, 7));
    assert_eq!(lexer.next_token(), Ok(Some(Token::RBracket)));
    assert_eq!(lexer.position(), at(3, 2));
    assert_eq!(lexer.next_token(), Ok(None));
    assert_eq!(lexer.position(), at(3, 2));
}

#[test]
fn lexer_stays_at_an_unexpected_character() {
    let mut lexer = Lexer::new("1 @ 2");
    assert_eq!(lexer.next_token(), Ok(Some(num("1"))));
    for _ in 0..3 {
        match lexer.next_token() {
            Err(e) => {
                assert_eq!(e.kind, LexErrorKind::UnexpectedCharacter);
                assert_eq!(e.position, at(1, 3));
            }
            other => panic!("expected an error, got {:?}", other),
        }
        assert_eq!(lexer.position(), at(1, 3));
    }
}

#[test]
fn lexer_goes_on_after_an_offending_word() {
    let mut lexer = Lexer::new("nul 1");
    assert!(lexer.next_token().is_err());
    assert_eq!(lexer.position(), at(1, 4));
    assert_eq!(lexer.next_token(), Ok(Some(num("1"))));
}

#[test]
fn position_steps() {
    let start = Position::start();
    assert_eq!(start, at(1, 1));
    assert_eq!(start.advance('a'), at(1, 2));
    assert_eq!(start.advance('a').advance('\r'), at(1, 3));
    assert_eq!(start.advance('a').advance('\n'), at(2, 1));
    assert_eq!(start.advance('\n').advance('\n').advance('x'), at(3, 2));
}

#[test]
fn character_classes() {
    assert!(CharClass::Whitespace.has(' '));
    assert!(CharClass::Whitespace.has('\t'));
    assert!(CharClass::Whitespace.has('\r'));
    assert!(CharClass::Whitespace.has('\n'));
    assert!(!CharClass::Whitespace.has('\u{c}'));
    assert!(!CharClass::Whitespace.has('\u{a0}'));
    assert!(CharClass::Alphabetic.has('a'));
    assert!(CharClass::Alphabetic.has('\u{e9}'));
    assert!(!CharClass::Alphabetic.has('1'));
    assert!(!CharClass::Alphabetic.has('_'));
    for c in "0123456789+-.eE".chars() {
        assert!(CharClass::Number.has(c));
    }
    assert!(!CharClass::Number.has('x'));
    assert!(!CharClass::Number.has(','));
    assert!(CharClass::Digit.has('0') && CharClass::Digit.has('9'));
    assert!(!CharClass::Digit.has('/') && !CharClass::Digit.has(':'));
    for c in "0123456789abcdefABCDEF".chars() {
        assert!(CharClass::HexDigit.has(c));
    }
    assert!(!CharClass::HexDigit.has('g') && !CharClass::HexDigit.has('G'));
    assert!(check_digit('5') && !check_digit('a'));
}

#[test]
fn hex_digit_values() {
    let digits = "0123456789abcdef";
    for (value, c) in digits.chars().enumerate() {
        assert_eq!(hex_digit(c), value as u32);
        assert_eq!(hex_digit(c.to_ascii_uppercase()), value as u32);
    }
}

#[test]
fn code_units() {
    assert_eq!(char_of_code_unit(0x41), 'A');
    assert_eq!(char_of_code_unit(0xD7FF), '\u{d7ff}');
    assert_eq!(char_of_code_unit(0xD800), '\u{fffd}');
    assert_eq!(char_of_code_unit(0xDFFF), '\u{fffd}');
    assert_eq!(char_of_code_unit(0xE000), '\u{e000}');
    assert_eq!(char_of_code_unit(0xFFFF), '\u{ffff}');
}

#[test]
fn runs() {
    let text: Vec<char> = "  \n ab12".chars().collect();
    assert_eq!(scan_run(&text, 0, CharClass::Whitespace), 4);
    assert_eq!(scan_run(&text, 4, CharClass::Whitespace), 4);
    assert_eq!(scan_run(&text, 4, CharClass::Alphabetic), 6);
    assert_eq!(scan_run(&text, 6, CharClass::Digit), 8);
    assert_eq!(scan_run(&text, 8, CharClass::Digit), 8);
}

#[test]
fn strings_and_characters_convert_both_ways() {
    let text = "a\u{e9}\u{1f600}\n";
    let chars = chars_of(text);
    assert_eq!(chars, vec!['a', '\u{e9}', '\u{1f600}', '\n']);
    assert_eq!(string_of(&chars), text);
    assert_eq!(string_of(&Vec::new()), "");
}

#[test]
fn number_grammar_agrees_with_the_float_parser() {
    let alphabet = ['0', '7', '+', '-', '.', 'e', 'E'];
    let mut texts: Vec<Vec<char>> = vec![vec![]];
    let mut checked = 0;
    for _ in 0..6 {
        let mut longer = Vec::new();
        for text in &texts {
            for c in alphabet {
                let mut next = text.clone();
                next.push(c);
                longer.push(next);
            }
        }
        for text in &longer {
            let s: String = text.iter().collect();
            let single = s.parse::<f32>().is_ok();
            let double = s.parse::<f64>().is_ok();
            assert_eq!(check_number_literal(text), single, "{:?}", s);
            assert_eq!(single, double, "{:?}", s);
            let lexable = single && (text[0] == '-' || text[0].is_ascii_digit());
            assert_eq!(Number::new(&s).is_some(), lexable, "{:?}", s);
            checked += 1;
        }
        texts = longer;
    }
    assert_eq!(checked, 7 + 49 + 343 + 2401 + 16807 + 117649);
}

#[test]
fn every_scanned_number_is_one_for_the_float_parser() {
    let alphabet = ['3', '-', '.', 'e', '+'];
    let mut texts: Vec<String> = vec!["-".to_string(), "3".to_string()];
    for _ in 0..5 {
        let mut longer = Vec::new();
        for text in &texts {
            for c in alphabet {
                longer.push(format!("{text}{c}"));
            }
        }
        for text in &longer {
            let mut lexer = Lexer::new(text);
            match lexer.next_token() {
                Ok(Some(Token::Number(n))) => {
                    assert_eq!(n.as_str(), text);
                    assert!(text.parse::<f32>().is_ok(), "{:?}", text);
                }
                Err(e) => {
                    assert_eq!(e.kind, LexErrorKind::InvalidNumberLiteral);
                    assert_eq!(&e.text, text);
                    assert!(text.parse::<f32>().is_err(), "{:?}", text);
                }
                other => panic!("expected a number or an error, got {:?}", other),
            }
        }
        texts = longer;
    }
}
