use json_reader::number::Number;
use json_reader::tokenizer::{JToken, Tokenizer};

#[test]
fn main_test_brace() {
    let json = "{}".to_string();
    let mut t = Tokenizer::new(json);
    let expected = [JToken::LeftBrace, JToken::RightBrace];
    for e in expected {
        assert_eq!(Ok(Some(e.clone())), t.next());
    }
    assert_eq!(t.next(), Ok(None));
}

#[test]
fn main_test_string() {
    let json = "{\"key\": \"value\"}".to_string();
    let mut t = Tokenizer::new(json);
    let expected = [
        JToken::LeftBrace,
        JToken::String("key".to_string()),
        JToken::Collon,
        JToken::String("value".to_string()),
        JToken::RightBrace,
    ];
    for e in expected {
        assert_eq!(Ok(Some(e.clone())), t.next());
    }
    assert_eq!(t.next(), Ok(None));
}

#[test]
fn main_test_array() {
    let json = "{\"key\": [\"value1\", \"value2\"]}".to_string();
    let mut t = Tokenizer::new(json);
    let expected = [
        JToken::LeftBrace,
        JToken::String("key".to_string()),
        JToken::Collon,
        JToken::LeftBracket,
        JToken::String("value1".to_string()),
        JToken::Comma,
        JToken::String("value2".to_string()),
        JToken::RightBracket,
        JToken::RightBrace,
    ];
    for e in expected {
        assert_eq!(Ok(Some(e.clone())), t.next());
    }
    assert_eq!(t.next(), Ok(None));
}

#[test]
fn main_test_number() {
    let json = "{\"key\": [123, 123.456, -1.0, +1.2, .123, 1E-2, 123.456e+3]}".to_string();
    let mut t = Tokenizer::new(json);
    let expected = [
        JToken::LeftBrace,
        JToken::String("key".to_string()),
        JToken::Collon,
        JToken::LeftBracket,
        JToken::Number(Number::new(123, None, None)),
        JToken::Comma,
        JToken::Number(Number::new(123, Some(vec!['4', '5', '6']), None)),
        JToken::Comma,
        JToken::Number(Number::new(-1, Some(vec!['0']), None)),
        JToken::Comma,
        JToken::Number(Number::new(1, Some(vec!['2']), None)),
        JToken::Comma,
        JToken::Number(Number::new(0, Some(vec!['1', '2', '3']), None)),
        JToken::Comma,
        JToken::Number(Number::new(1, None, Some(-2))),
        JToken::Comma,
        JToken::Number(Number::new(123, Some(vec!['4', '5', '6']), Some(3))),
        JToken::RightBracket,
        JToken::RightBrace,
    ];
    for e in expected {
        assert_eq!(Ok(Some(e.clone())), t.next());
    }
    assert_eq!(t.next(), Ok(None));
}

#[test]
fn main_test_keyword() {
    let json = "{\"key\": [null, true, false]}".to_string();
    let mut t = Tokenizer::new(json);
    let expected = [
        JToken::LeftBrace,
        JToken::String("key".to_string()),
        JToken::Collon,
        JToken::LeftBracket,
        JToken::Null,
        JToken::Comma,
        JToken::Bool(true),
        JToken::Comma,
        JToken::Bool(false),
        JToken::RightBracket,
        JToken::RightBrace,
    ];
    for e in expected {
        assert_eq!(Ok(Some(e.clone())), t.next());
    }
    assert_eq!(t.next(), Ok(None));
}

#[test]
fn main_test_misc() {
    let json = "{\"foo\": [123.456E-2, \"bar\"], \"foobar\": true, \"fizz\": { \"buzz\": null }}"
        .to_string();
    let mut t = Tokenizer::new(json);
    let expected = [
        JToken::LeftBrace,
        JToken::String("foo".to_string()),
        JToken::Collon,
        JToken::LeftBracket,
        JToken::Number(Number::new(123, Some(vec!['4', '5', '6']), Some(-2))),
        JToken::Comma,
        JToken::String("bar".to_string()),
        JToken::RightBracket,
        JToken::Comma,
        JToken::String("foobar".to_string()),
        JToken::Collon,
        JToken::Bool(true),
        JToken::Comma,
        JToken::String("fizz".to_string()),
        JToken::Collon,
        JToken::LeftBrace,
        JToken::String("buzz".to_string()),
        JToken::Collon,
        JToken::Null,
        JToken::RightBrace,
        JToken::RightBrace,
    ];
    for e in expected {
        assert_eq!(Ok(Some(e.clone())), t.next());
    }
    assert_eq!(t.next(), Ok(None));
}

#[test]
fn mod_test_brace() {
    let json = "{}".to_string();
    let mut t = Tokenizer::new(json);
    let expected = [JToken::LeftBrace, JToken::RightBrace];
    for e in expected {
        assert_eq!(Ok(Some(e.clone())), t.next());
    }
    assert_eq!(t.next(), Ok(None));
}

#[test]
fn mod_test_string() {
    let json = "{\"key\": \"value\"}".to_string();
    let mut t = Tokenizer::new(json);
    let expected = [
        JToken::LeftBrace,
        JToken::String("key".to_string()),
        JToken::Collon,
        JToken::String("value".to_string()),
        JToken::RightBrace,
    ];
    for e in expected {
        assert_eq!(Ok(Some(e.clone())), t.next());
    }
    assert_eq!(t.next(), Ok(None));
}

#[test]
fn mod_test_array() {
    let json = "{\"key\": [\"value1\", \"value2\"]}".to_string();
    let mut t = Tokenizer::new(json);
    let expected = [
        JToken::LeftBrace,
        JToken::String("key".to_string()),
        JToken::Collon,
        JToken::LeftBracket,
        JToken::String("value1".to_string()),
        JToken::Comma,
        JToken::String("value2".to_string()),
        JToken::RightBracket,
        JToken::RightBrace,
    ];
    for e in expected {
        assert_eq!(Ok(Some(e.clone())), t.next());
    }
    assert_eq!(t.next(), Ok(None));
}

#[test]
fn mod_test_number() {
    let json = "{\"key\": [123, 123.456, -1.0, +1.2, .123, 1E-2, 123.456e+3]}".to_string();
    let mut t = Tokenizer::new(json);
    let expected = [
        JToken::LeftBrace,
        JToken::String("key".to_string()),
        JToken::Collon,
        JToken::LeftBracket,
        JToken::Number(Number::new(123, None, None)),
        JToken::Comma,
        JToken::Number(Number::new(123, Some(vec!['4', '5', '6']), None)),
        JToken::Comma,
        JToken::Number(Number::new(-1, Some(vec!['0']), None)),
        JToken::Comma,
        JToken::Number(Number::new(1, Some(vec!['2']), None)),
        JToken::Comma,
        JToken::Number(Number::new(0, Some(vec!['1', '2', '3']), None)),
        JToken::Comma,
        JToken::Number(Number::new(1, None, Some(-2))),
        JToken::Comma,
        JToken::Number(Number::new(123, Some(vec!['4', '5', '6']), Some(3))),
        JToken::RightBracket,
        JToken::RightBrace,
    ];
    for e in expected {
        assert_eq!(Ok(Some(e.clone())), t.next());
    }
    assert_eq!(t.next(), Ok(None));
}

#[test]
fn mod_test_keyword() {
    let json = "{\"key\": [null, true, false]}".to_string();
    let mut t = Tokenizer::new(json);
    let expected = [
        JToken::LeftBrace,
        JToken::String("key".to_string()),
        JToken::Collon,
        JToken::LeftBracket,
        JToken::Null,
        JToken::Comma,
        JToken::Bool(true),
        JToken::Comma,
        JToken::Bool(false),
        JToken::RightBracket,
        JToken::RightBrace,
    ];
    for e in expected {
        assert_eq!(Ok(Some(e.clone())), t.next());
    }
    assert_eq!(t.next(), Ok(None));
}

#[test]
fn mod_test_misc_tokens() {
    let json = "{\"foo\": [123.456E-2, \"bar\"], \"foobar\": true, \"fizz\": { \"buzz\": null }}"
        .to_string();
    let mut t = Tokenizer::new(json);
    let expected = [
        JToken::LeftBrace,
        JToken::String("foo".to_string()),
        JToken::Collon,
        JToken::LeftBracket,
        JToken::Number(Number::new(123, Some(vec!['4', '5', '6']), Some(-2))),
        JToken::Comma,
        JToken::String("bar".to_string()),
        JToken::RightBracket,
        JToken::Comma,
        JToken::String("foobar".to_string()),
        JToken::Collon,
        JToken::Bool(true),
        JToken::Comma,
        JToken::String("fizz".to_string()),
        JToken::Collon,
        JToken::LeftBrace,
        JToken::String("buzz".to_string()),
        JToken::Collon,
        JToken::Null,
        JToken::RightBrace,
        JToken::RightBrace,
    ];
    for e in expected {
        assert_eq!(Ok(Some(e.clone())), t.next());
    }
    assert_eq!(t.next(), Ok(None));
}
