use rust_json_parser::error::JsonError;
use rust_json_parser::number::JsonNumber;
use rust_json_parser::parser::{parse_json, JsonParser};
use rust_json_parser::text::chars_of;
use rust_json_parser::tokenizer::{Token, Tokenizer};
use rust_json_parser::value::{escape_string, JsonObject, JsonValue};

fn number(text: &str) -> JsonNumber {
    JsonNumber::from_text(text).unwrap()
}

fn unexpected(expected: &str, found: &str, position: usize) -> JsonError {
    JsonError::UnexpectedToken {
        expected: expected.to_string(),
        found: found.to_string(),
        position,
    }
}

fn end_of_input(expected: &str, position: usize) -> JsonError {
    JsonError::UnexpectedEndOfInput {
        expected: expected.to_string(),
        position,
    }
}

#[test]
fn canonical_text_parses_back_to_the_same_value() {
    let texts = [
        "null",
        "true",
        "false",
        "0",
        "-12.5",
        "007.2500",
        r#""plain""#,
        r#""quote \" backslash \\ slash \/ tab \t newline \n return \r""#,
        r#""Aé\b\f""#,
        "[]",
        "{}",
        "[1, [2, [3, []]], {}]",
        r#"{"a": 1, "b": [true, null], "c": {"d": "e"}, "a": 2}"#,
        r#"  { "k" : [ 1 , 2 ] }  "#,
    ];
    for text in texts {
        let value = parse_json(text).unwrap();
        let canonical = value.to_string();
        let again = parse_json(&canonical).unwrap();
        assert_eq!(again, value, "for {}", text);
        assert_eq!(again.to_string(), canonical, "for {}", text);
    }
}

#[test]
fn canonical_text_is_compact() {
    let value = parse_json(r#" { "a" : [ 1 , 2.50 , "x\ty" ] , "b" : { } } "#).unwrap();
    assert_eq!(value.to_string(), r#"{"a":[1,2.5,"x\ty"],"b":{}}"#);
}

#[test]
fn empty_input_has_no_tokens_and_no_value() {
    let tokens = Tokenizer::new("").tokenize().unwrap();
    assert!(tokens.is_empty());
    assert_eq!(parse_json(""), Err(end_of_input("JSON value", 0)));
}

#[test]
fn number_text_is_one_number_token() {
    for text in ["0", "7", "-7", "12.5", "-0.99", "10.", "0012", "123456789012345678901234567890.5"] {
        let tokens = Tokenizer::new(text).tokenize().unwrap();
        assert_eq!(tokens, vec![Token::Number(number(text))], "for {}", text);
        let as_float: f64 = text.parse().unwrap();
        let Token::Number(n) = &tokens[0] else {
            panic!("no number token")
        };
        assert_eq!(n.to_text().parse::<f64>().unwrap(), as_float, "for {}", text);
    }
}

#[test]
fn numbers_are_kept_in_canonical_form() {
    assert_eq!(number("007.2500").to_text(), "7.25");
    assert_eq!(number("42.0").to_text(), "42");
    assert_eq!(number("10.").to_text(), "10");
    assert_eq!(number("-0.50").to_text(), "-0.5");
    assert_eq!(number("000").to_text(), "0");
    assert_eq!(number("-0").to_text(), "0");
    assert_eq!(number("-0.000").to_text(), "0");
    assert_eq!(number("1.0"), number("1"));
    assert_eq!(number("-0"), number("0"));
    assert_ne!(number("1"), number("-1"));
    assert_ne!(number("1.5"), number("15"));
}

#[test]
fn text_that_is_no_number_is_refused() {
    for text in ["", "-", ".", ".5", "-.5", "1.2.3", "1-2", "--1", "1e5", "+1", "1.-2", "a"] {
        assert_eq!(JsonNumber::from_text(text), None, "for {}", text);
    }
}

#[test]
fn leading_dot_fails_tokenization() {
    assert_eq!(
        Tokenizer::new(".5").tokenize(),
        Err(unexpected("valid JSON token", ".", 0))
    );
    assert_eq!(
        Tokenizer::new("-.5").tokenize(),
        Err(unexpected("valid JSON token", "-.5", 0))
    );
    assert_eq!(
        Tokenizer::new(" [.5]").tokenize(),
        Err(unexpected("valid JSON token", ".", 2))
    );
    let mut at_dot = Tokenizer::new(".5");
    assert_eq!(
        at_dot.parse_number(),
        Err(unexpected("valid JSON token", ".5", 0))
    );
}

#[test]
fn malformed_number_is_reported_as_a_unit() {
    assert_eq!(
        Tokenizer::new("[1.2.3]").tokenize(),
        Err(JsonError::InvalidNumber {
            value: "1.2.3".to_string(),
            position: 1,
        })
    );
    assert_eq!(
        Tokenizer::new("12-34").tokenize(),
        Err(JsonError::InvalidNumber {
            value: "12-34".to_string(),
            position: 0,
        })
    );
    assert_eq!(
        Tokenizer::new("-").tokenize(),
        Err(JsonError::InvalidNumber {
            value: "-".to_string(),
            position: 0,
        })
    );
}

#[test]
fn trailing_commas_are_rejected() {
    assert_eq!(parse_json("[1, 2,]"), Err(unexpected("JSON value", "]", 5)));
    assert_eq!(
        parse_json(r#"{"a":1,}"#),
        Err(unexpected("string key", "}", 5))
    );
}

#[test]
fn unicode_escapes_are_decoded_or_refused() {
    assert_eq!(
        parse_json(r#""\u0048ello""#),
        Ok(JsonValue::String("Hello".to_string()))
    );
    assert_eq!(
        parse_json(r#""\uFFFD\uabCD""#),
        Ok(JsonValue::String("\u{FFFD}\u{ABCD}".to_string()))
    );
    assert_eq!(
        Tokenizer::new(r#""\u00""#).tokenize(),
        Err(JsonError::InvalidUnicode {
            sequence: "00\"".to_string(),
            position: 3,
        })
    );
    assert_eq!(
        Tokenizer::new(r#""\u"#).tokenize(),
        Err(JsonError::InvalidUnicode {
            sequence: "".to_string(),
            position: 3,
        })
    );
    assert_eq!(
        Tokenizer::new(r#""ab\uGGGG""#).tokenize(),
        Err(JsonError::InvalidUnicode {
            sequence: "GGGG".to_string(),
            position: 5,
        })
    );
    assert_eq!(
        Tokenizer::new(r#""\u+123""#).tokenize(),
        Err(JsonError::InvalidUnicode {
            sequence: "+123".to_string(),
            position: 3,
        })
    );
    assert_eq!(
        Tokenizer::new(r#""\ud800""#).tokenize(),
        Err(JsonError::InvalidUnicode {
            sequence: "d800".to_string(),
            position: 3,
        })
    );
    assert_eq!(
        Tokenizer::new(r#""\uDFFF""#).tokenize(),
        Err(JsonError::InvalidUnicode {
            sequence: "DFFF".to_string(),
            position: 3,
        })
    );
}

#[test]
fn unknown_escapes_are_refused() {
    assert_eq!(
        Tokenizer::new(r#""test\x""#).tokenize(),
        Err(JsonError::InvalidEscape {
            char: 'x',
            position: 6,
        })
    );
    let mut after_backslash = Tokenizer::new("");
    assert_eq!(
        after_backslash.parse_escape_sequence(),
        Err(end_of_input("escape character", 0))
    );
}

#[test]
fn unterminated_string_reports_its_opening_quote() {
    assert_eq!(
        Tokenizer::new(r#"[1, "abc"#).tokenize(),
        Err(end_of_input("closing quote", 4))
    );
    assert_eq!(
        Tokenizer::new("\"ab\\").tokenize(),
        Err(end_of_input("closing quote", 0))
    );
    assert_eq!(
        Tokenizer::new("\"\\").tokenize(),
        Err(end_of_input("closing quote", 0))
    );
    assert_eq!(
        parse_json("[\"x\\n\\"),
        Err(end_of_input("closing quote", 1))
    );
    let mut at_quote = Tokenizer::new("\"ab\\");
    assert_eq!(at_quote.parse_string(), Err(end_of_input("closing quote", 0)));
    assert_eq!(
        Tokenizer::new("\"ab\\\\").tokenize(),
        Err(end_of_input("closing quote", 0))
    );
}

#[test]
fn unknown_words_and_characters_are_refused() {
    assert_eq!(
        Tokenizer::new("[nul]").tokenize(),
        Err(unexpected("valid JSON token", "nul", 1))
    );
    assert_eq!(
        Tokenizer::new("truefalse").tokenize(),
        Err(unexpected("valid JSON token", "truefalse", 0))
    );
    assert_eq!(
        Tokenizer::new("True").tokenize(),
        Err(unexpected("valid JSON token", "T", 0))
    );
    assert_eq!(
        Tokenizer::new("  é").tokenize(),
        Err(unexpected("valid JSON token", "é", 2))
    );
}

#[test]
fn tokenizer_does_not_check_grammar() {
    let tokens = Tokenizer::new("]{,:").tokenize().unwrap();
    assert_eq!(
        tokens,
        vec![
            Token::RightBracket,
            Token::LeftBrace,
            Token::Comma,
            Token::Colon
        ]
    );
}

#[test]
fn nested_containers_are_parsed() {
    let n = |text: &str| JsonValue::Number(number(text));
    assert_eq!(
        parse_json("[[1,2],[3,4]]"),
        Ok(JsonValue::Array(vec![
            JsonValue::Array(vec![n("1"), n("2")]),
            JsonValue::Array(vec![n("3"), n("4")]),
        ]))
    );
    let value = parse_json(r#"{"items":[1,2,3],"meta":{"count":3}}"#).unwrap();
    assert_eq!(value.get("items").unwrap().as_array().unwrap().len(), 3);
    assert_eq!(
        value.get("meta").unwrap().get("count"),
        Some(&n("3"))
    );
}

#[test]
fn trailing_tokens_are_rejected() {
    assert_eq!(
        parse_json("42 true"),
        Err(unexpected("end of input", "Boolean(true)", 1))
    );
    assert_eq!(
        parse_json(r#"[] "a\"b""#),
        Err(unexpected("end of input", r#"String("a\"b")"#, 2))
    );
    assert_eq!(
        parse_json("null 1.50"),
        Err(unexpected("end of input", "Number(1.5)", 1))
    );
    assert_eq!(
        parse_json("null 42"),
        Err(unexpected("end of input", "Number(42.0)", 1))
    );
    assert_eq!(
        parse_json("{} ]"),
        Err(unexpected("end of input", "RightBracket", 2))
    );
}

#[test]
fn array_faults_are_reported() {
    assert_eq!(
        parse_json("[1 2]"),
        Err(unexpected("comma or closing bracket", "Number(2.0)", 2))
    );
    assert_eq!(
        parse_json("[1, 2"),
        Err(end_of_input("comma or closing bracket", 4))
    );
    assert_eq!(parse_json("["), Err(end_of_input("JSON value", 1)));
    assert_eq!(parse_json("[1,"), Err(end_of_input("JSON value", 3)));
    assert_eq!(parse_json("[, 1]"), Err(unexpected("JSON value", "Comma", 1)));
    assert_eq!(parse_json("[1,, 2]"), Err(unexpected("JSON value", "Comma", 3)));
    assert_eq!(parse_json("]"), Err(unexpected("JSON value", "RightBracket", 0)));
    assert_eq!(parse_json(":"), Err(unexpected("JSON value", "Colon", 0)));
    assert_eq!(parse_json("[1}"), Err(unexpected("comma or closing bracket", "RightBrace", 2)));
}

#[test]
fn object_faults_are_reported() {
    assert_eq!(parse_json("{"), Err(end_of_input("string key", 1)));
    assert_eq!(parse_json("{1: 2}"), Err(unexpected("string key", "Number(1.0)", 1)));
    assert_eq!(parse_json(r#"{"a""#), Err(end_of_input("colon", 2)));
    assert_eq!(
        parse_json(r#"{"a" 1}"#),
        Err(unexpected("colon", "Number(1.0)", 2))
    );
    assert_eq!(parse_json(r#"{"a":"#), Err(end_of_input("JSON value", 3)));
    assert_eq!(
        parse_json(r#"{"a":}"#),
        Err(unexpected("JSON value", "RightBrace", 3))
    );
    assert_eq!(
        parse_json(r#"{"a":1"#),
        Err(end_of_input("comma or closing brace", 4))
    );
    assert_eq!(
        parse_json(r#"{"a":1 "b":2}"#),
        Err(unexpected("comma or closing brace", r#"String("b")"#, 4))
    );
    assert_eq!(
        parse_json(r#"{"a":1,"#),
        Err(end_of_input("string key", 5))
    );
    assert_eq!(
        parse_json(r#"{"a":1,,}"#),
        Err(unexpected("string key", "Comma", 5))
    );
}

#[test]
fn a_repeated_key_takes_the_later_value_in_its_first_place() {
    let value = parse_json(r#"{"a":1,"b":2,"a":3}"#).unwrap();
    let members = value.as_object().unwrap();
    assert_eq!(members.len(), 2);
    assert_eq!(value.get("a"), Some(&JsonValue::Number(number("3"))));
    assert_eq!(value.get("b"), Some(&JsonValue::Number(number("2"))));
    assert_eq!(value.to_string(), r#"{"a":3,"b":2}"#);

    let mut object = JsonObject::new();
    object.insert("k".to_string(), JsonValue::Null);
    object.insert("l".to_string(), JsonValue::Boolean(true));
    object.insert("k".to_string(), JsonValue::Boolean(false));
    assert_eq!(object.len(), 2);
    assert_eq!(object.get("k"), Some(&JsonValue::Boolean(false)));
    assert_eq!(object.get("l"), Some(&JsonValue::Boolean(true)));
    assert_eq!(object.get("m"), None);
}

#[test]
fn accessors_return_none_for_every_other_variant() {
    let mut object = JsonObject::new();
    object.insert("k".to_string(), JsonValue::Null);
    let values = vec![
        JsonValue::Null,
        JsonValue::Boolean(false),
        JsonValue::Number(number("1")),
        JsonValue::String("s".to_string()),
        JsonValue::Array(vec![JsonValue::Null]),
        JsonValue::Object(object),
    ];
    for (i, value) in values.iter().enumerate() {
        assert_eq!(value.is_null(), i == 0);
        assert_eq!(value.as_bool().is_some(), i == 1);
        assert_eq!(value.as_f64().is_some(), i == 2);
        assert_eq!(value.as_str().is_some(), i == 3);
        assert_eq!(value.as_array().is_some(), i == 4);
        assert_eq!(value.get_index(0).is_some(), i == 4);
        assert_eq!(value.as_object().is_some(), i == 5);
        assert_eq!(value.get("k").is_some(), i == 5);
        assert_eq!(value.get_index(1), None);
        assert_eq!(value.get("missing"), None);
    }
}

#[test]
fn equality_is_exact_on_variants() {
    assert_ne!(JsonValue::Number(number("1")), JsonValue::Boolean(true));
    assert_ne!(JsonValue::Array(vec![]), JsonValue::Object(JsonObject::new()));
    assert_ne!(JsonValue::String("null".to_string()), JsonValue::Null);
    assert_eq!(parse_json("[1.0, 2]"), parse_json("[1,2.00]"));
}

#[test]
fn clones_are_equal() {
    let value = parse_json(r#"{"a":[1,"x",null,{"b":false}],"c":-2.5}"#).unwrap();
    let copy = value.clone();
    assert_eq!(copy, value);
    assert_eq!(copy.to_string(), value.to_string());
    let tokens = Tokenizer::new(r#"["a", 1.5, true]"#).tokenize().unwrap();
    assert_eq!(tokens.clone(), tokens);
}

#[test]
fn strings_are_escaped_in_canonical_text() {
    assert_eq!(escape_string("plain"), "plain");
    assert_eq!(escape_string(""), "");
    assert_eq!(
        escape_string("a\"b\\c\nd\re\tf/g"),
        "a\\\"b\\\\c\\nd\\re\\tf/g"
    );
    assert_eq!(escape_string("\u{0008}\u{000C}\u{0001}é"), "\u{0008}\u{000C}\u{0001}é");
    assert_eq!(
        JsonValue::String("tab\there".to_string()).to_string(),
        "\"tab\\there\""
    );
}

#[test]
fn errors_render_as_one_line() {
    assert_eq!(
        unexpected("colon", "Comma", 12).to_string(),
        "Unexpected token at position 12: expected colon, found Comma"
    );
    assert_eq!(
        end_of_input("closing quote", 0).to_string(),
        "Unexpected end of input at position 0: expected closing quote"
    );
    assert_eq!(
        JsonError::InvalidNumber {
            value: "1.2.3".to_string(),
            position: 1009,
        }
        .to_string(),
        "Invalid number at position 1009: 1.2.3"
    );
    assert_eq!(
        JsonError::InvalidEscape {
            char: 'x',
            position: 7,
        }
        .to_string(),
        "Invalid escape sequence '\\x' at position 7"
    );
    assert_eq!(
        JsonError::InvalidUnicode {
            sequence: "ZZZZ".to_string(),
            position: 340,
        }
        .to_string(),
        "Invalid unicode escape '\\uZZZZ' at position 340"
    );
    assert_eq!(
        end_of_input("x", usize::MAX).to_string(),
        format!("Unexpected end of input at position {}: expected x", usize::MAX)
    );
}

#[test]
fn tokens_are_named_in_diagnostics() {
    assert_eq!(Token::LeftBrace.describe(), "LeftBrace");
    assert_eq!(Token::RightBrace.describe(), "RightBrace");
    assert_eq!(Token::LeftBracket.describe(), "LeftBracket");
    assert_eq!(Token::RightBracket.describe(), "RightBracket");
    assert_eq!(Token::Comma.describe(), "Comma");
    assert_eq!(Token::Colon.describe(), "Colon");
    assert_eq!(Token::Null.describe(), "Null");
    assert_eq!(Token::Boolean(false).describe(), "Boolean(false)");
    assert_eq!(Token::Number(number("-2.50")).describe(), "Number(-2.5)");
    assert_eq!(Token::Number(number("7")).describe(), "Number(7.0)");
    assert_eq!(Token::Number(number("-10.")).describe(), "Number(-10.0)");
    assert_eq!(Token::Number(number("0")).describe(), "Number(0.0)");
    assert_eq!(
        Token::String("a\n\"b\"".to_string()).describe(),
        "String(\"a\\n\\\"b\\\"\")"
    );
}

#[test]
fn cursors_move_forward_only() {
    let mut tokenizer = Tokenizer::new("ab");
    assert!(!tokenizer.is_at_end());
    assert_eq!(tokenizer.peek(), Some('a'));
    assert_eq!(tokenizer.advance(), Some('a'));
    assert_eq!(tokenizer.peek(), Some('b'));
    assert_eq!(tokenizer.advance(), Some('b'));
    assert!(tokenizer.is_at_end());
    assert_eq!(tokenizer.peek(), None);
    assert_eq!(tokenizer.advance(), None);
    assert!(tokenizer.is_at_end());

    let mut parser = JsonParser::new("1 2").unwrap();
    assert!(!parser.is_at_end());
    assert_eq!(parser.advance(), Some(Token::Number(number("1"))));
    assert_eq!(parser.peek(), Some(&Token::Number(number("2"))));
    assert_eq!(parser.parse(), Ok(JsonValue::Number(number("2"))));
    assert!(parser.is_at_end());
    assert_eq!(parser.advance(), None);
    assert_eq!(parser.parse_value(), Err(end_of_input("JSON value", 2)));
}

#[test]
fn keywords_are_read_from_the_longest_run_of_letters() {
    let mut tokenizer = Tokenizer::new("null,");
    assert_eq!(tokenizer.parse_keyword(), Ok(Token::Null));
    assert_eq!(tokenizer.peek(), Some(','));
    let mut tokenizer = Tokenizer::new("nulls");
    assert_eq!(
        tokenizer.parse_keyword(),
        Err(unexpected("valid JSON token", "nulls", 0))
    );
}

#[test]
fn text_is_taken_apart_by_characters() {
    let chars = chars_of("aé\u{1F600}z");
    assert_eq!(chars, vec!['a', 'é', '\u{1F600}', 'z']);
    let tokens = Tokenizer::new("\"é\u{1F600}\" x").tokenize();
    assert_eq!(tokens, Err(unexpected("valid JSON token", "x", 5)));
}

#[test]
fn objects_are_equal_whatever_the_order_of_their_members() {
    assert_eq!(
        parse_json(r#"{"a":1,"b":[{"x":null,"y":true}]}"#),
        parse_json(r#"{"b":[{"y":true,"x":null}],"a":1.0}"#)
    );
    assert_ne!(parse_json(r#"{"a":1,"b":2}"#), parse_json(r#"{"a":1,"b":3}"#));
    assert_ne!(parse_json(r#"{"a":1,"b":2}"#), parse_json(r#"{"a":1,"c":2}"#));
    assert_ne!(parse_json(r#"{"a":1,"b":2}"#), parse_json(r#"{"a":1}"#));
    assert_ne!(parse_json(r#"{"a":1}"#), parse_json(r#"{"a":1,"b":2}"#));
    assert_ne!(parse_json("[1,2]"), parse_json("[2,1]"));
    assert_ne!(parse_json("[1,2]"), parse_json("[1]"));
    assert_eq!(parse_json("{}"), parse_json(" { } "));
    assert_ne!(parse_json("{}"), parse_json("[]"));
}
