use json_parser::error::{LexErrorKind, ParseError, ParseErrorKind};
use json_parser::lexer::Lexer;
use json_parser::number::Number;
use json_parser::parser::Parser;
use json_parser::position::Position;
use json_parser::token::Token;
use json_parser::value::Value;

fn parse(text: &str) -> Result<Option<Value>, ParseError> {
    Parser::new(Lexer::new(text)).parse()
}

fn value(text: &str) -> Value {
    parse(text).unwrap().unwrap()
}

fn number(text: &str) -> Value {
    Value::Number(Number::new(text).unwrap())
}

fn string(text: &str) -> Value {
    Value::String(text.to_string())
}

fn syntax_error(text: &str) -> (ParseErrorKind, Position, Option<Token>) {
    match parse(text) {
        Err(ParseError::Syntax(e)) => (e.kind, e.position, e.found),
        other => panic!("expected a syntax error, got {:?}", other),
    }
}

fn lex_error(text: &str) -> (LexErrorKind, Position, String) {
    match parse(text) {
        Err(ParseError::Lexical(e)) => (e.kind, e.position, e.text),
        other => panic!("expected a lexical error, got {:?}", other),
    }
}

fn at(line: usize, column: usize) -> Position {
    Position { line, column }
}

#[test]
fn empty_array() {
    assert_eq!(value("[]"), Value::Array(vec![]));
    assert_eq!(value(" [ \n ] "), Value::Array(vec![]));
}

#[test]
fn empty_object() {
    assert_eq!(value("{}"), Value::Object(vec![]));
    assert_eq!(value("\t{\r\n}"), Value::Object(vec![]));
}

#[test]
fn nesting() {
    let expected = Value::Array(vec![
        number("1"),
        Value::Array(vec![number("2"), number("3")]),
        Value::Object(vec![("a".to_string(), Value::Boolean(true))]),
    ]);
    assert_eq!(value("[1,[2,3],{\"a\":true}]"), expected);
}

#[test]
fn string_escapes() {
    assert_eq!(value("\"a\\nb\""), string("a\nb"));
    assert_eq!(value("\"\\u0041\""), string("A"));
}

#[test]
fn every_simple_escape() {
    assert_eq!(
        value("\"\\\" \\\\ \\/ \\b \\f \\n \\r \\t\""),
        string("\" \\ / \u{8} \u{c} \n \r \t")
    );
}

#[test]
fn unicode_escapes_in_both_cases() {
    assert_eq!(value("\"\\u00e9\\u00E9\\uABCD\\uabcd\""), string("\u{e9}\u{e9}\u{abcd}\u{abcd}"));
    assert_eq!(value("\"\\u0000\""), string("\u{0}"));
    assert_eq!(value("\"\\uFFFF\""), string("\u{ffff}"));
}

#[test]
fn lone_surrogate_becomes_replacement_character() {
    assert_eq!(value("\"\\uD800\""), string("\u{fffd}"));
    assert_eq!(value("\"\\uDFFF\""), string("\u{fffd}"));
    assert_eq!(value("\"\\uD83D\\uDE00\""), string("\u{fffd}\u{fffd}"));
    assert_eq!(value("\"\\uD7FF\\uE000\""), string("\u{d7ff}\u{e000}"));
}

#[test]
fn characters_beyond_ascii_are_kept() {
    assert_eq!(value("\"h\u{e9}llo \u{4e16}\u{754c} \u{1f600}\""), string("h\u{e9}llo \u{4e16}\u{754c} \u{1f600}"));
}

#[test]
fn whitespace_insensitivity() {
    assert_eq!(value("{ \"a\" : 1 }"), value("{\"a\":1}"));
    assert_eq!(
        value(" \t\r\n[ 1 ,\n\t[ 2 , 3 ] , { \"a\" : true } ]\n"),
        value("[1,[2,3],{\"a\":true}]")
    );
}

#[test]
fn duplicate_keys() {
    assert_eq!(
        value("{\"a\":1,\"a\":2}"),
        Value::Object(vec![("a".to_string(), number("2"))])
    );
}

#[test]
fn duplicate_key_keeps_its_first_place() {
    assert_eq!(
        value("{\"a\":1,\"b\":2,\"a\":3,\"c\":4,\"b\":5}"),
        Value::Object(vec![
            ("a".to_string(), number("3")),
            ("b".to_string(), number("5")),
            ("c".to_string(), number("4")),
        ])
    );
}

#[test]
fn members_keep_their_order() {
    assert_eq!(
        value("{\"z\":null,\"a\":false,\"m\":\"x\"}"),
        Value::Object(vec![
            ("z".to_string(), Value::Null),
            ("a".to_string(), Value::Boolean(false)),
            ("m".to_string(), string("x")),
        ])
    );
}

#[test]
fn truncated_input() {
    assert_eq!(
        syntax_error("[1,2"),
        (ParseErrorKind::ExpectedCommaOrClose, at(1, 5), None)
    );
}

#[test]
fn truncated_input_after_comma() {
    assert_eq!(
        syntax_error("[1,"),
        (ParseErrorKind::UnexpectedEndOfInput, at(1, 4), None)
    );
    assert_eq!(
        syntax_error("["),
        (ParseErrorKind::UnexpectedEndOfInput, at(1, 2), None)
    );
    assert_eq!(
        syntax_error("{\"a\":1,"),
        (ParseErrorKind::UnexpectedEndOfInput, at(1, 8), None)
    );
    assert_eq!(
        syntax_error("{\"a\":"),
        (ParseErrorKind::UnexpectedEndOfInput, at(1, 6), None)
    );
}

#[test]
fn numeric_forms() {
    for (text, expected) in [("-0", -0.0f64), ("1e10", 1e10), ("3.14", 3.14)] {
        match value(text) {
            Value::Number(n) => {
                assert_eq!(n.as_str(), text);
                let parsed: f64 = n.as_str().parse().unwrap();
                assert_eq!(parsed, expected);
                assert_eq!(parsed.is_sign_negative(), expected.is_sign_negative());
            }
            other => panic!("expected a number, got {:?}", other),
        }
    }
}

#[test]
fn numbers_in_single_precision() {
    for (text, expected) in [("0", 0.0f32), ("-12.5", -12.5), ("2E3", 2000.0), ("1.5e-2", 0.015), ("7.", 7.0), ("-.5", -0.5)] {
        match value(text) {
            Value::Number(n) => {
                let parsed: f32 = n.as_str().parse().unwrap();
                assert_eq!(parsed, expected);
            }
            other => panic!("expected a number, got {:?}", other),
        }
    }
}

#[test]
fn malformed_numbers() {
    for text in ["-", "1e", "1e+", "1.2.3", "--1", "1-2", "1e5.5", "-.", "1ee5", "1+"] {
        let (kind, _, offending) = lex_error(text);
        assert_eq!(kind, LexErrorKind::InvalidNumberLiteral, "{}", text);
        assert_eq!(offending, text);
    }
}

#[test]
fn invalid_number_position_is_after_the_run() {
    assert_eq!(
        lex_error("[1, 2-3, 4]"),
        (LexErrorKind::InvalidNumberLiteral, at(1, 8), "2-3".to_string())
    );
}

#[test]
fn position_accuracy() {
    let text = "{\n  \"a\": [1, 2,\n    @3]\n}";
    assert_eq!(
        lex_error(text),
        (LexErrorKind::UnexpectedCharacter, at(3, 5), "@".to_string())
    );
    let offset = text.chars().position(|c| c == '@').unwrap();
    let before: Vec<char> = text.chars().take(offset).collect();
    let line = 1 + before.iter().filter(|c| **c == '\n').count();
    let column = 1 + before.iter().rev().take_while(|c| **c != '\n').count();
    assert_eq!(at(line, column), at(3, 5));
}

#[test]
fn position_of_a_structural_error_on_a_later_line() {
    assert_eq!(
        syntax_error("[\n  1\n  2\n]"),
        (ParseErrorKind::ExpectedCommaOrClose, at(3, 4), Some(Token::Number(Number::new("2").unwrap())))
    );
    assert_eq!(
        syntax_error("{\n\"a\"\n\n  1}"),
        (ParseErrorKind::ExpectedColon, at(4, 4), Some(Token::Number(Number::new("1").unwrap())))
    );
}

#[test]
fn position_counts_characters_not_bytes() {
    assert_eq!(
        lex_error("[\"\u{e9}\u{4e16}\u{1f600}\", ?]"),
        (LexErrorKind::UnexpectedCharacter, at(1, 9), "?".to_string())
    );
}

#[test]
fn carriage_return_and_tab_advance_the_column() {
    assert_eq!(
        lex_error("\r\t @"),
        (LexErrorKind::UnexpectedCharacter, at(1, 4), "@".to_string())
    );
}

#[test]
fn top_level_scalars() {
    assert_eq!(value("null"), Value::Null);
    assert_eq!(value("true"), Value::Boolean(true));
    assert_eq!(value("false"), Value::Boolean(false));
    assert_eq!(value("42"), number("42"));
    assert_eq!(value("\"text\""), string("text"));
    assert_eq!(value("  null  "), Value::Null);
}

#[test]
fn no_input() {
    assert_eq!(parse(""), Ok(None));
    assert_eq!(parse(" \n\t\r "), Ok(None));
}

#[test]
fn unexpected_token() {
    assert_eq!(
        syntax_error("]"),
        (ParseErrorKind::UnexpectedToken, at(1, 2), Some(Token::RBracket))
    );
    assert_eq!(
        syntax_error("[1,]"),
        (ParseErrorKind::UnexpectedToken, at(1, 5), Some(Token::RBracket))
    );
    assert_eq!(
        syntax_error("[,"),
        (ParseErrorKind::UnexpectedToken, at(1, 3), Some(Token::Comma))
    );
    assert_eq!(
        syntax_error("{1:2}"),
        (ParseErrorKind::UnexpectedToken, at(1, 3), Some(Token::Number(Number::new("1").unwrap())))
    );
    assert_eq!(
        syntax_error("{\"a\":1,}"),
        (ParseErrorKind::UnexpectedToken, at(1, 9), Some(Token::RBrace))
    );
    assert_eq!(
        syntax_error(":"),
        (ParseErrorKind::UnexpectedToken, at(1, 2), Some(Token::Colon))
    );
}

#[test]
fn unexpected_end_of_input() {
    assert_eq!(
        syntax_error("{"),
        (ParseErrorKind::UnexpectedEndOfInput, at(1, 2), None)
    );
    assert_eq!(
        syntax_error("[[ "),
        (ParseErrorKind::UnexpectedEndOfInput, at(1, 4), None)
    );
}

#[test]
fn expected_colon() {
    assert_eq!(
        syntax_error("{\"a\" 1}"),
        (ParseErrorKind::ExpectedColon, at(1, 7), Some(Token::Number(Number::new("1").unwrap())))
    );
    assert_eq!(
        syntax_error("{\"a\""),
        (ParseErrorKind::ExpectedColon, at(1, 5), None)
    );
    assert_eq!(
        syntax_error("{\"a\",\"b\"}"),
        (ParseErrorKind::ExpectedColon, at(1, 6), Some(Token::Comma))
    );
}

#[test]
fn expected_comma_or_close() {
    assert_eq!(
        syntax_error("[1 2]"),
        (ParseErrorKind::ExpectedCommaOrClose, at(1, 5), Some(Token::Number(Number::new("2").unwrap())))
    );
    assert_eq!(
        syntax_error("[1}"),
        (ParseErrorKind::ExpectedCommaOrClose, at(1, 4), Some(Token::RBrace))
    );
    assert_eq!(
        syntax_error("{\"a\":1]"),
        (ParseErrorKind::ExpectedCommaOrClose, at(1, 8), Some(Token::RBracket))
    );
    assert_eq!(
        syntax_error("{\"a\":1 \"b\":2}"),
        (ParseErrorKind::ExpectedCommaOrClose, at(1, 11), Some(Token::String("b".to_string())))
    );
    assert_eq!(
        syntax_error("{\"a\":1"),
        (ParseErrorKind::ExpectedCommaOrClose, at(1, 7), None)
    );
}

#[test]
fn lexical_errors_reach_the_caller() {
    assert_eq!(
        lex_error("[1, tru]"),
        (LexErrorKind::UnrecognizedKeyword, at(1, 8), "tru".to_string())
    );
    assert_eq!(
        lex_error("{\"a\": \"b"),
        (LexErrorKind::UnterminatedString, at(1, 9), String::new())
    );
    assert_eq!(
        lex_error("[1 x"),
        (LexErrorKind::UnexpectedCharacter, at(1, 4), "x".to_string())
    );
}

#[test]
fn error_before_a_later_lexical_error_wins() {
    assert_eq!(
        syntax_error("[1 2 @"),
        (ParseErrorKind::ExpectedCommaOrClose, at(1, 5), Some(Token::Number(Number::new("2").unwrap())))
    );
}

#[test]
fn tokens_after_the_value_are_left_unread() {
    let mut parser = Parser::new(Lexer::new("[1] {\"a\":2} 3 @"));
    assert_eq!(parser.parse(), Ok(Some(Value::Array(vec![number("1")]))));
    assert_eq!(
        parser.parse(),
        Ok(Some(Value::Object(vec![("a".to_string(), number("2"))])))
    );
    assert_eq!(parser.parse(), Ok(Some(number("3"))));
    match parser.parse() {
        Err(ParseError::Lexical(e)) => {
            assert_eq!(e.kind, LexErrorKind::UnexpectedCharacter);
            assert_eq!(e.position, at(1, 15));
        }
        other => panic!("expected a lexical error, got {:?}", other),
    }
}

#[test]
fn parser_reads_on_from_where_the_lexer_stands() {
    let mut lexer = Lexer::new("[ 1, 2 ]");
    assert_eq!(lexer.next_token(), Ok(Some(Token::LBracket)));
    assert_eq!(lexer.next_token(), Ok(Some(Token::Number(Number::new("1").unwrap()))));
    assert_eq!(lexer.next_token(), Ok(Some(Token::Comma)));
    let mut parser = Parser::new(lexer);
    assert_eq!(parser.parse(), Ok(Some(number("2"))));
    assert_eq!(
        match parser.parse() {
            Err(ParseError::Syntax(e)) => (e.kind, e.position, e.found),
            other => panic!("expected a syntax error, got {:?}", other),
        },
        (ParseErrorKind::UnexpectedToken, at(1, 9), Some(Token::RBracket))
    );
    assert_eq!(parser.parse(), Ok(None));
}

#[test]
fn max_depth() {
    let parse_with = |text: &str, depth: usize| Parser::with_max_depth(Lexer::new(text), depth).parse();
    assert_eq!(parse_with("1", 0), Ok(Some(number("1"))));
    assert_eq!(parse_with("[]", 1), Ok(Some(Value::Array(vec![]))));
    assert_eq!(
        parse_with("[[1],{\"a\":[]}]", 3),
        Ok(Some(Value::Array(vec![
            Value::Array(vec![number("1")]),
            Value::Object(vec![("a".to_string(), Value::Array(vec![]))]),
        ])))
    );
    match parse_with("[]", 0) {
        Err(ParseError::Syntax(e)) => {
            assert_eq!(e.kind, ParseErrorKind::MaxDepthExceeded);
            assert_eq!(e.position, at(1, 2));
            assert_eq!(e.found, Some(Token::LBracket));
        }
        other => panic!("expected a syntax error, got {:?}", other),
    }
    match parse_with("[[1],{\"a\":[]}]", 2) {
        Err(ParseError::Syntax(e)) => {
            assert_eq!(e.kind, ParseErrorKind::MaxDepthExceeded);
            assert_eq!(e.position, at(1, 12));
            assert_eq!(e.found, Some(Token::LBracket));
        }
        other => panic!("expected a syntax error, got {:?}", other),
    }
    match parse_with("{\"a\":{}}", 1) {
        Err(ParseError::Syntax(e)) => {
            assert_eq!(e.kind, ParseErrorKind::MaxDepthExceeded);
            assert_eq!(e.found, Some(Token::LBrace));
        }
        other => panic!("expected a syntax error, got {:?}", other),
    }
}

#[test]
fn default_depth_limit() {
    let limit = json_parser::parser::DEFAULT_MAX_DEPTH;
    let fits = "[".repeat(limit) + &"]".repeat(limit);
    assert!(matches!(parse(&fits), Ok(Some(Value::Array(_)))));
    let deeper = "[".repeat(limit + 1) + &"]".repeat(limit + 1);
    match parse(&deeper) {
        Err(ParseError::Syntax(e)) => {
            assert_eq!(e.kind, ParseErrorKind::MaxDepthExceeded);
            assert_eq!(e.position, at(1, limit + 2));
            assert_eq!(e.found, Some(Token::LBracket));
        }
        other => panic!("expected a syntax error, got {:?}", other),
    }
    let objects = "{\"a\":".repeat(limit + 1) + "1" + &"}".repeat(limit + 1);
    match parse(&objects) {
        Err(ParseError::Syntax(e)) => {
            assert_eq!(e.kind, ParseErrorKind::MaxDepthExceeded);
            assert_eq!(e.found, Some(Token::LBrace));
        }
        other => panic!("expected a syntax error, got {:?}", other),
    }
    let wider = Parser::with_max_depth(Lexer::new(&deeper), limit + 1).parse();
    assert!(matches!(wider, Ok(Some(Value::Array(_)))));
}

#[test]
fn injected_character_is_reported_at_its_own_place() {
    let valid = "{\n  \"a\": [1, 2,\n    3],\n\t\"b\": {\"c\": null}\n}";
    let chars: Vec<char> = valid.chars().collect();
    let mut lexer = Lexer::new(valid);
    let mut starts = vec![];
    loop {
        let mut k = 0;
        let (mut line, mut column) = (1, 1);
        let here = lexer.position();
        while (line, column) != (here.line, here.column) {
            if chars[k] == '\n' {
                line += 1;
                column = 1;
            } else {
                column += 1;
            }
            k += 1;
        }
        while k < chars.len() && matches!(chars[k], ' ' | '\t' | '\r' | '\n') {
            k += 1;
        }
        match lexer.next_token() {
            Ok(Some(_)) => starts.push(k),
            _ => break,
        }
    }
    assert_eq!(starts.len(), 19);
    for k in starts {
        let mut text: Vec<char> = chars.clone();
        text[k] = '@';
        let text: String = text.into_iter().collect();
        let line = 1 + chars[..k].iter().filter(|c| **c == '\n').count();
        let column = 1 + chars[..k].iter().rev().take_while(|c| **c != '\n').count();
        match parse(&text) {
            Err(ParseError::Lexical(e)) => {
                assert_eq!(e.kind, LexErrorKind::UnexpectedCharacter);
                assert_eq!(e.text, "@");
                assert_eq!(e.position, at(line, column), "{:?}", text);
            }
            other => panic!("expected a lexical error, got {:?}", other),
        }
    }
}

#[test]
fn deep_nesting() {
    let depth = 200;
    let text = "[".repeat(depth) + &"]".repeat(depth);
    let mut v = value(&text);
    let mut seen = 0;
    loop {
        match v {
            Value::Array(mut items) => {
                seen += 1;
                match items.pop() {
                    Some(inner) => {
                        assert!(items.is_empty());
                        v = inner;
                    }
                    None => break,
                }
            }
            other => panic!("expected an array, got {:?}", other),
        }
    }
    assert_eq!(seen, depth);
}

#[test]
fn a_larger_document() {
    let text = "{\n  \"name\": \"json\",\n  \"tags\": [\"a\", \"b\"],\n  \"size\": -1.5e+3,\n  \"nested\": {\"ok\": true, \"none\": null}\n}\n";
    assert_eq!(
        value(text),
        Value::Object(vec![
            ("name".to_string(), string("json")),
            ("tags".to_string(), Value::Array(vec![string("a"), string("b")])),
            ("size".to_string(), number("-1.5e+3")),
            (
                "nested".to_string(),
                Value::Object(vec![
                    ("ok".to_string(), Value::Boolean(true)),
                    ("none".to_string(), Value::Null),
                ])
            ),
        ])
    );
}

fn write_string(s: &str, out: &mut String) {
    out.push('"');
    for c in s.chars() {
        if c == '"' || c == '\\' {
            out.push('\\');
        }
        out.push(c);
    }
    out.push('"');
}

fn write(v: &Value, gap: &mut dyn FnMut() -> String, out: &mut String) {
    out.push_str(&gap());
    match v {
        Value::Null => out.push_str("null"),
        Value::Boolean(true) => out.push_str("true"),
        Value::Boolean(false) => out.push_str("false"),
        Value::Number(n) => out.push_str(n.as_str()),
        Value::String(s) => write_string(s, out),
        Value::Array(items) => {
            out.push('[');
            for (i, item) in items.iter().enumerate() {
                if i > 0 {
                    out.push_str(&gap());
                    out.push(',');
                }
                write(item, gap, out);
            }
            out.push_str(&gap());
            out.push(']');
        }
        Value::Object(members) => {
            out.push('{');
            for (i, (key, member)) in members.iter().enumerate() {
                if i > 0 {
                    out.push_str(&gap());
                    out.push(',');
                }
                out.push_str(&gap());
                write_string(key, out);
                out.push_str(&gap());
                out.push(':');
                write(member, gap, out);
            }
            out.push_str(&gap());
            out.push('}');
        }
    }
}

fn document(v: &Value, gaps: &[&str]) -> String {
    let mut next = 0;
    let mut gap = || {
        let g = if gaps.is_empty() { "" } else { gaps[next % gaps.len()] };
        next += 1;
        g.to_string()
    };
    let mut out = String::new();
    write(v, &mut gap, &mut out);
    out.push_str(&gap());
    out
}

fn samples() -> Vec<Value> {
    vec![
        Value::Null,
        Value::Boolean(true),
        Value::Boolean(false),
        number("0"),
        number("-0"),
        number("1e10"),
        number("3.14"),
        number("-12.5E-3"),
        string(""),
        string("plain"),
        string("quote \" backslash \\ slash / tab \t newline \n"),
        string("\u{e9}\u{4e16}\u{1f600}\u{0}\u{7f}"),
        Value::Array(vec![]),
        Value::Object(vec![]),
        Value::Array(vec![Value::Null]),
        Value::Array(vec![number("1"), string("two"), Value::Boolean(false)]),
        Value::Object(vec![("".to_string(), Value::Null)]),
        Value::Object(vec![
            ("a".to_string(), number("1")),
            ("b \"quoted\"".to_string(), Value::Array(vec![Value::Array(vec![]), Value::Object(vec![])])),
            ("c\\".to_string(), Value::Object(vec![("a".to_string(), string("inner"))])),
        ]),
        Value::Array(vec![
            number("1"),
            Value::Array(vec![number("2"), number("3")]),
            Value::Object(vec![("a".to_string(), Value::Boolean(true))]),
        ]),
    ]
}

#[test]
fn canonical_text() {
    let v = Value::Array(vec![
        number("1"),
        Value::Array(vec![number("2"), number("3")]),
        Value::Object(vec![("a \"b\"".to_string(), Value::Boolean(true)), ("c".to_string(), Value::Null)]),
    ]);
    assert_eq!(document(&v, &[]), "[1,[2,3],{\"a \\\"b\\\"\":true,\"c\":null}]");
    assert_eq!(
        document(&v, &[" "]),
        " [ 1 , [ 2 , 3 ] , { \"a \\\"b\\\"\" : true , \"c\" : null } ] "
    );
}

#[test]
fn round_trip() {
    for v in samples() {
        let text = document(&v, &[]);
        assert_eq!(parse(&text), Ok(Some(v)), "{}", text);
    }
}

#[test]
fn round_trip_leaves_the_parser_at_the_end_of_the_value() {
    for v in samples() {
        let text = document(&v, &[]) + " ]";
        let mut parser = Parser::new(Lexer::new(&text));
        assert_eq!(parser.parse(), Ok(Some(v)));
        match parser.parse() {
            Err(ParseError::Syntax(e)) => {
                assert_eq!(e.kind, ParseErrorKind::UnexpectedToken);
                assert_eq!(e.found, Some(Token::RBracket));
            }
            other => panic!("expected a syntax error, got {:?}", other),
        }
    }
}

#[test]
fn layout_is_immaterial() {
    let layouts: [&[&str]; 5] = [
        &[" "],
        &["\n", "\t", "\r\n", "", "  "],
        &["", " ", ""],
        &["\n\n\t \r"],
        &["", "", "", "\n"],
    ];
    for v in samples() {
        for gaps in layouts {
            let text = document(&v, gaps);
            assert_eq!(parse(&text), Ok(Some(v_clone(&v))), "{:?}", text);
        }
    }
}

fn v_clone(v: &Value) -> Value {
    match v {
        Value::Null => Value::Null,
        Value::Boolean(b) => Value::Boolean(*b),
        Value::Number(n) => number(n.as_str()),
        Value::String(s) => Value::String(s.clone()),
        Value::Array(items) => Value::Array(items.iter().map(v_clone).collect()),
        Value::Object(members) => {
            Value::Object(members.iter().map(|(k, m)| (k.clone(), v_clone(m))).collect())
        }
    }
}

#[test]
fn whitespace_before_a_document_is_skipped() {
    for v in samples() {
        let text = document(&v, &[]);
        for lead in ["", " ", "\n\n", "\t \r\n "] {
            let padded = lead.to_string() + &text;
            assert_eq!(parse(&padded), Ok(Some(v_clone(&v))));
        }
    }
}

#[test]
fn line_and_column_follow_the_line_feeds() {
    let text = "[\n\n  1,\r\n 2 ,\n\t@";
    let (kind, position, _) = lex_error(text);
    assert_eq!(kind, LexErrorKind::UnexpectedCharacter);
    let before: Vec<char> = text.chars().take_while(|c| *c != '@').collect();
    let line_feeds = before.iter().filter(|c| **c == '\n').count();
    let line_start = before.iter().rposition(|c| *c == '\n').unwrap() + 1;
    assert_eq!(position, at(1 + line_feeds, before.len() - line_start + 1));
    assert_eq!(position, at(5, 2));
}

fn boundaries(text: &str) -> Vec<usize> {
    let mut lexer = Lexer::new(text);
    let mut found = vec![0];
    while let Ok(Some(_)) = lexer.next_token() {
        found.push(lexer.position().column - 1);
    }
    found
}

fn outcome(text: &str) -> Result<Option<Value>, (ParseErrorKind, Option<Token>)> {
    match parse(text) {
        Ok(v) => Ok(v),
        Err(ParseError::Syntax(e)) => Err((e.kind, e.found)),
        Err(ParseError::Lexical(e)) => panic!("unexpected lexical error {:?}", e),
    }
}

#[test]
fn whitespace_between_tokens_changes_nothing() {
    let texts = [
        "[1,[2,3],{\"a\":true}]",
        "{\"a\\u0041\\/\\n\":[1e5,-0.5,\"x y\"],\"b\":null}",
        "{\"a\":1,\"a\":2}",
        "true",
        "  null ",
        "",
        "[1 2]",
        "{\"a\" 1}",
        "{\"a\":1 \"b\"}",
        "[1,]",
        "[[[",
        "]",
    ];
    for text in texts {
        let chars: Vec<char> = text.chars().collect();
        let places = boundaries(text);
        assert!(places.contains(&0));
        for at in places {
            for gap in [" ", "\n", "\t\r\n  "] {
                let mut wide: String = chars[..at].iter().collect();
                wide.push_str(gap);
                wide.extend(chars[at..].iter());
                assert_eq!(outcome(&wide), outcome(text), "{:?}", wide);
            }
        }
    }
}

#[test]
fn whitespace_within_a_token_is_another_matter() {
    assert_eq!(value("[12]"), Value::Array(vec![number("12")]));
    assert_eq!(
        syntax_error("[1 2]").0,
        ParseErrorKind::ExpectedCommaOrClose
    );
    assert_eq!(value("\"ab\""), string("ab"));
    assert_eq!(value("\"a b\""), string("a b"));
    assert_eq!(lex_error("tr ue").0, LexErrorKind::UnrecognizedKeyword);
}

#[test]
fn parser_stands_where_reading_stopped() {
    let mut parser = Parser::new(Lexer::new("[1 2] 3"));
    assert_eq!(
        match parser.parse() {
            Err(ParseError::Syntax(e)) => (e.kind, e.position),
            other => panic!("expected a syntax error, got {:?}", other),
        },
        (ParseErrorKind::ExpectedCommaOrClose, at(1, 5))
    );
    assert_eq!(
        match parser.parse() {
            Err(ParseError::Syntax(e)) => (e.kind, e.position, e.found),
            other => panic!("expected a syntax error, got {:?}", other),
        },
        (ParseErrorKind::UnexpectedToken, at(1, 6), Some(Token::RBracket))
    );
    assert_eq!(parser.parse(), Ok(Some(number("3"))));
    assert_eq!(parser.parse(), Ok(None));
}

#[test]
fn last_value_wins_for_every_key() {
    let keys = ["a", "b", "a", "c", "b", "a", "d", "c", "a"];
    let mut text = String::from("{");
    for (i, key) in keys.iter().enumerate() {
        if i > 0 {
            text.push(',');
        }
        text.push_str(&format!("\"{key}\":{i}"));
    }
    text.push('}');
    let members = match value(&text) {
        Value::Object(members) => members,
        other => panic!("expected an object, got {:?}", other),
    };
    let found: Vec<&str> = members.iter().map(|(k, _)| k.as_str()).collect();
    assert_eq!(found, ["a", "b", "c", "d"]);
    for (key, member) in &members {
        let last = keys.iter().rposition(|k| k == key).unwrap();
        assert_eq!(*member, number(&last.to_string()));
    }
}
