use json_reader::number::Number;
use json_reader::parser::{JsonError, Parser, SyntaxError};
use json_reader::tokenizer::{JToken, LexError, Tokenizer};
use json_reader::value::{JValue, ObjectMap};

#[test]
fn key_order_is_source_order() {
    let input = "{\"b\": 1, \"a\": 2, \"c\": 3}".to_string();
    let mut parser = Parser::new(input);
    match parser.parse() {
        Ok(JValue::Object(m)) => {
            assert_eq!(m.len(), 3);
            let (k0, _) = m.entry_at(0).unwrap();
            let (k1, _) = m.entry_at(1).unwrap();
            let (k2, _) = m.entry_at(2).unwrap();
            assert_eq!(k0, "b");
            assert_eq!(k1, "a");
            assert_eq!(k2, "c");
            assert!(m.entry_at(3).is_none());
        }
        other => panic!("expected an object, got {:?}", other),
    }
}

#[test]
fn duplicate_key_keeps_first_position_last_value() {
    let input = "{\"a\":1,\"a\":2}".to_string();
    let mut parser = Parser::new(input);
    match parser.parse() {
        Ok(JValue::Object(m)) => {
            assert_eq!(m.len(), 1);
            let (k, v) = m.entry_at(0).unwrap();
            assert_eq!(k, "a");
            assert_eq!(v, JValue::Number(Number::new(2, None, None)));
        }
        other => panic!("expected an object, got {:?}", other),
    }
}

#[test]
fn duplicate_key_position_among_others() {
    let input = "{\"a\":1,\"b\":2,\"a\":3}".to_string();
    let mut parser = Parser::new(input);
    match parser.parse() {
        Ok(JValue::Object(m)) => {
            assert_eq!(m.len(), 2);
            let (k0, v0) = m.entry_at(0).unwrap();
            let (k1, v1) = m.entry_at(1).unwrap();
            assert_eq!(k0, "a");
            assert_eq!(v0, JValue::Number(Number::new(3, None, None)));
            assert_eq!(k1, "b");
            assert_eq!(v1, JValue::Number(Number::new(2, None, None)));
        }
        other => panic!("expected an object, got {:?}", other),
    }
}

#[test]
fn number_decomposition_and_rendering() {
    let mut t = Tokenizer::new("-123.456e+3".to_string());
    let n = Number::new(-123, Some(vec!['4', '5', '6']), Some(3));
    assert_eq!(t.next(), Ok(Some(JToken::Number(n.clone()))));
    assert_eq!(t.next(), Ok(None));
    assert_eq!(n.to_text(), "-123.456E+3");
}

#[test]
fn bare_fraction_leniency() {
    let mut t = Tokenizer::new(".123".to_string());
    let n = Number::new(0, Some(vec!['1', '2', '3']), None);
    assert_eq!(t.next(), Ok(Some(JToken::Number(n))));
    assert_eq!(t.next(), Ok(None));
}

#[test]
fn missing_value_is_fatal() {
    let mut parser = Parser::new("{\"a\":}".to_string());
    assert_eq!(
        parser.parse(),
        Err(JsonError::Syntax(SyntaxError::ExpectedValue))
    );
}

#[test]
fn missing_colon_is_fatal() {
    let mut parser = Parser::new("{\"a\" 1}".to_string());
    assert_eq!(
        parser.parse(),
        Err(JsonError::Syntax(SyntaxError::ExpectedColon))
    );
}

#[test]
fn array_trailing_comma_is_fatal() {
    let mut parser = Parser::new("[1,]".to_string());
    assert_eq!(
        parser.parse(),
        Err(JsonError::Syntax(SyntaxError::ExpectedValue))
    );
}

#[test]
fn unterminated_string_is_fatal() {
    let mut t = Tokenizer::new("\"abc".to_string());
    assert_eq!(t.next(), Err(LexError::UnterminatedString));
    let mut parser = Parser::new("[\"abc".to_string());
    assert_eq!(
        parser.parse(),
        Err(JsonError::Lex(LexError::UnterminatedString))
    );
}

#[test]
fn number_round_trip_keeps_value() {
    // trailing fraction zeros are dropped by rendering, the value is kept
    let n = Number::new(123, Some(vec!['4', '5', '6', '0']), Some(2));
    let text = n.to_text();
    assert_eq!(text, "123.456E+2");
    let mut t = Tokenizer::new(text);
    let m = Number::new(123, Some(vec!['4', '5', '6']), Some(2));
    assert_eq!(t.next(), Ok(Some(JToken::Number(m))));
    assert_eq!(t.next(), Ok(None));
}

#[test]
fn number_round_trip_all_zero_fraction() {
    let n = Number::new(-7, Some(vec!['0', '0']), None);
    let text = n.to_text();
    assert_eq!(text, "-7");
    let mut t = Tokenizer::new(text);
    let m = Number::new(-7, None, None);
    assert_eq!(t.next(), Ok(Some(JToken::Number(m))));
    assert_eq!(t.next(), Ok(None));
}

#[test]
fn empty_containers() {
    let mut op = Parser::new("{}".to_string());
    assert_eq!(op.parse(), Ok(JValue::Object(ObjectMap::new())));
    let mut ap = Parser::new("[]".to_string());
    assert_eq!(ap.parse(), Ok(JValue::Array(Vec::new())));
}

#[test]
fn unrecognized_character_is_fatal() {
    let mut t = Tokenizer::new("@".to_string());
    assert_eq!(t.next(), Err(LexError::UnrecognizedChar));
}

#[test]
fn invalid_keyword_is_fatal() {
    let mut t = Tokenizer::new("nul".to_string());
    assert_eq!(t.next(), Err(LexError::InvalidKeyword));
    let mut parser = Parser::new("[nulls]".to_string());
    assert_eq!(parser.parse(), Err(JsonError::Lex(LexError::InvalidKeyword)));
}

#[test]
fn misplaced_sign_is_fatal() {
    let mut t = Tokenizer::new("1+2".to_string());
    assert_eq!(t.next(), Err(LexError::MisplacedSign));
    let mut e = Tokenizer::new("1e2+3".to_string());
    assert_eq!(e.next(), Err(LexError::MisplacedSign));
}

#[test]
fn bare_scalar_document_is_rejected() {
    let mut parser = Parser::new("12".to_string());
    assert_eq!(
        parser.parse(),
        Err(JsonError::Syntax(SyntaxError::BadDocumentStart))
    );
    let mut sp = Parser::new("\"text\"".to_string());
    assert_eq!(
        sp.parse(),
        Err(JsonError::Syntax(SyntaxError::BadDocumentStart))
    );
}

#[test]
fn unexpected_end_is_fatal() {
    let mut parser = Parser::new("{\"a\":1".to_string());
    assert_eq!(
        parser.parse(),
        Err(JsonError::Syntax(SyntaxError::UnexpectedEnd))
    );
    let mut empty = Parser::new("".to_string());
    assert_eq!(
        empty.parse(),
        Err(JsonError::Syntax(SyntaxError::UnexpectedEnd))
    );
}

#[test]
fn missing_separator_is_fatal() {
    let mut parser = Parser::new("[1 2]".to_string());
    assert_eq!(
        parser.parse(),
        Err(JsonError::Syntax(SyntaxError::ExpectedSeparator))
    );
    let mut op = Parser::new("{\"a\":1 \"b\":2}".to_string());
    assert_eq!(
        op.parse(),
        Err(JsonError::Syntax(SyntaxError::ExpectedSeparator))
    );
}

#[test]
fn missing_key_is_fatal() {
    let mut parser = Parser::new("{1: 2}".to_string());
    assert_eq!(
        parser.parse(),
        Err(JsonError::Syntax(SyntaxError::ExpectedKey))
    );
}

#[test]
fn object_trailing_comma_is_accepted() {
    // after a comma the object loop still accepts the closer
    let mut parser = Parser::new("{\"a\":1,}".to_string());
    let mut m = ObjectMap::new();
    m.insert("a".to_string(), JValue::Number(Number::new(1, None, None)));
    assert_eq!(parser.parse(), Ok(JValue::Object(m)));
}

#[test]
fn integer_overflow_falls_back_to_zero() {
    let mut t = Tokenizer::new("99999999999".to_string());
    assert_eq!(t.next(), Ok(Some(JToken::Number(Number::new(0, None, None)))));
    let mut e = Tokenizer::new("1e99999999999".to_string());
    assert_eq!(e.next(), Ok(Some(JToken::Number(Number::new(1, None, None)))));
}

#[test]
fn lone_sign_parses_as_zero() {
    let mut t = Tokenizer::new("-".to_string());
    assert_eq!(t.next(), Ok(Some(JToken::Number(Number::new(0, None, None)))));
}

#[test]
fn string_copies_backslash_verbatim() {
    let mut t = Tokenizer::new("\"a\\nb\"".to_string());
    assert_eq!(
        t.next(),
        Ok(Some(JToken::String("a\\nb".to_string())))
    );
}

#[test]
fn whitespace_between_tokens_is_skipped() {
    let mut parser = Parser::new("\t{ \"a\" :\n[ true , null ] }\n".to_string());
    let mut m = ObjectMap::new();
    m.insert(
        "a".to_string(),
        JValue::Array(vec![JValue::Bool(true), JValue::Null]),
    );
    assert_eq!(parser.parse(), Ok(JValue::Object(m)));
}

#[test]
fn cloned_value_equals_original() {
    let mut parser = Parser::new("{\"a\": [1, {\"b\": null}]}".to_string());
    let v = parser.parse().unwrap();
    assert_eq!(v.clone(), v);
}

#[test]
fn boundary_integers_are_kept() {
    let mut t = Tokenizer::new("-2147483648".to_string());
    assert_eq!(
        t.next(),
        Ok(Some(JToken::Number(Number::new(i32::MIN, None, None))))
    );
    let mut u = Tokenizer::new("2147483647".to_string());
    assert_eq!(
        u.next(),
        Ok(Some(JToken::Number(Number::new(i32::MAX, None, None))))
    );
    // one past the positive boundary falls back to zero
    let mut o = Tokenizer::new("2147483648".to_string());
    assert_eq!(o.next(), Ok(Some(JToken::Number(Number::new(0, None, None)))));
}

#[test]
fn dot_without_digits_is_consumed_as_absent_fraction() {
    // "1." consumes the dot, and the fraction stays absent
    let mut t = Tokenizer::new("1.".to_string());
    assert_eq!(t.next(), Ok(Some(JToken::Number(Number::new(1, None, None)))));
    assert_eq!(t.next(), Ok(None));
    let mut parser = Parser::new("[1.]".to_string());
    let expected = JValue::Array(vec![JValue::Number(Number::new(1, None, None))]);
    assert_eq!(parser.parse(), Ok(expected));
}

#[test]
fn tokens_after_the_document_are_left_unread() {
    let mut parser = Parser::new("{} []".to_string());
    assert_eq!(parser.parse(), Ok(JValue::Object(ObjectMap::new())));
}
