use minicc::parser::literal::to_i64;

#[test]
fn digits_have_their_decimal_value() {
    assert_eq!(to_i64("0"), Some(0));
    assert_eq!(to_i64("3"), Some(3));
    assert_eq!(to_i64("100"), Some(100));
    assert_eq!(to_i64("135675424"), Some(135675424));
}

#[test]
fn leading_zeros_do_not_count() {
    assert_eq!(to_i64("007"), Some(7));
    assert_eq!(to_i64("0000000000000000000000000000001"), Some(1));
}

#[test]
fn a_sign_may_lead() {
    assert_eq!(to_i64("+5"), Some(5));
    assert_eq!(to_i64("-5"), Some(-5));
    assert_eq!(to_i64("-0"), Some(0));
}

#[test]
fn the_bounds_of_i64_have_values() {
    assert_eq!(to_i64("9223372036854775807"), Some(i64::MAX));
    assert_eq!(to_i64("-9223372036854775808"), Some(i64::MIN));
}

#[test]
fn beyond_the_bounds_there_is_no_value() {
    assert_eq!(to_i64("9223372036854775808"), None);
    assert_eq!(to_i64("-9223372036854775809"), None);
    assert_eq!(to_i64("99999999999999999999"), None);
    assert_eq!(to_i64("100000000000000000000000000000000000000000"), None);
}

#[test]
fn text_that_is_no_literal_has_no_value() {
    assert_eq!(to_i64(""), None);
    assert_eq!(to_i64("+"), None);
    assert_eq!(to_i64("-"), None);
    assert_eq!(to_i64("abc"), None);
    assert_eq!(to_i64("12a"), None);
    assert_eq!(to_i64("1 2"), None);
    assert_eq!(to_i64(" 1"), None);
    assert_eq!(to_i64("1_000"), None);
    assert_eq!(to_i64("--1"), None);
    assert_eq!(to_i64("+-1"), None);
    assert_eq!(to_i64("1-"), None);
    assert_eq!(to_i64("\u{663}"), None);
}

#[test]
fn agrees_with_the_standard_conversion() {
    for text in [
        "0", "7", "-7", "+7", "", "-", "+", "42x", "x42", "9223372036854775807",
        "9223372036854775808", "-9223372036854775808", "-9223372036854775809", "0009", "1e3",
        "0x10", " 5", "5 ", "١٢٣",
    ] {
        assert_eq!(to_i64(text), text.parse::<i64>().ok(), "text: {:?}", text);
    }
}
