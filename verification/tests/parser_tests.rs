use json_reader::number::Number;
use json_reader::parser::Parser;
use json_reader::value::{JValue, ObjectMap};

#[test]
fn test_empty_object() {
    let input = "{}".to_string();
    let mut parser = Parser::new(input);
    let m = ObjectMap::new();
    let expected = JValue::Object(m);

    assert_eq!(parser.parse(), Ok(expected));
}

#[test]
fn test_empty_array() {
    let input = "[]".to_string();
    let mut parser = Parser::new(input);
    let arr = Vec::<JValue>::new();
    let expected = JValue::Array(arr);

    assert_eq!(parser.parse(), Ok(expected));
}

#[test]
fn test_object() {
    let input = "{\"foo\": \"bar\"}".to_string();
    let mut parser = Parser::new(input);
    let mut m = ObjectMap::new();
    m.insert("foo".to_string(), JValue::String("bar".to_string()));
    let expected = JValue::Object(m);

    assert_eq!(parser.parse(), Ok(expected));
}

#[test]
fn test_object_with_multiple_keys() {
    let input = "{\"foo\": \"bar\", \"active\": true, \"arr\": [1, 2, 3]}".to_string();
    let mut parser = Parser::new(input);
    let mut m = ObjectMap::new();
    m.insert("foo".to_string(), JValue::String("bar".to_string()));
    m.insert("active".to_string(), JValue::Bool(true));
    m.insert(
        "arr".to_string(),
        JValue::Array(vec![
            JValue::Number(Number::new(1, None, None)),
            JValue::Number(Number::new(2, None, None)),
            JValue::Number(Number::new(3, None, None)),
        ]),
    );
    let expected = JValue::Object(m);

    assert_eq!(parser.parse(), Ok(expected));
}

#[test]
fn test_nested_object() {
    let input = "{\"foo\": { \"bar\": true, \"arr\": [1, 2, 3]}}".to_string();
    let mut parser = Parser::new(input);
    let mut m = ObjectMap::new();
    let mut mm = ObjectMap::new();
    mm.insert("bar".to_string(), JValue::Bool(true));
    mm.insert(
        "arr".to_string(),
        JValue::Array(vec![
            JValue::Number(Number::new(1, None, None)),
            JValue::Number(Number::new(2, None, None)),
            JValue::Number(Number::new(3, None, None)),
        ]),
    );
    m.insert("foo".to_string(), JValue::Object(mm));
    let expected = JValue::Object(m);

    assert_eq!(parser.parse(), Ok(expected));
}
