use json_reader::number::Number;

#[test]
fn test_display_int() {
    let n = Number::new(123, None, None);
    let expected = "123";
    assert_eq!(n.to_text(), expected);
}

#[test]
fn test_display_int_frac() {
    let n = Number::new(-123, Some(vec!['4', '5', '6']), None);
    let expected = "-123.456";
    assert_eq!(n.to_text(), expected);
}

#[test]
fn test_display_int_frac_exp() {
    let n = Number::new(-123, Some(vec!['4', '5', '6']), Some(2));
    let expected = "-123.456E+2";
    assert_eq!(n.to_text(), expected);
}

#[test]
fn mod_test_misc() {
    let n = Number::new(0, Some(vec!['2']), Some(-3));
    let expected = "0.2E-3";
    assert_eq!(n.to_text(), expected);
}
