use mal::numeral::{parse_int, push_decimal, push_digits};

#[test]
fn parse_int_reads_decimal_numerals() {
    assert_eq!(parse_int("0"), Some(0));
    assert_eq!(parse_int("42"), Some(42));
    assert_eq!(parse_int("-42"), Some(-42));
    assert_eq!(parse_int("+42"), Some(42));
    assert_eq!(parse_int("-0"), Some(0));
    assert_eq!(parse_int("0000123"), Some(123));
    assert_eq!(parse_int("2147483647"), Some(i32::MAX));
    assert_eq!(parse_int("-2147483648"), Some(i32::MIN));
    assert_eq!(parse_int("00000000000000000000002147483647"), Some(i32::MAX));
}

#[test]
fn parse_int_refuses_everything_else() {
    assert_eq!(parse_int(""), None);
    assert_eq!(parse_int("-"), None);
    assert_eq!(parse_int("+"), None);
    assert_eq!(parse_int("--1"), None);
    assert_eq!(parse_int("1-"), None);
    assert_eq!(parse_int("1 "), None);
    assert_eq!(parse_int(" 1"), None);
    assert_eq!(parse_int("1_000"), None);
    assert_eq!(parse_int("12a"), None);
    assert_eq!(parse_int("a12"), None);
    assert_eq!(parse_int("1.0"), None);
    assert_eq!(parse_int("\u{663}"), None);
    assert_eq!(parse_int("2147483648"), None);
    assert_eq!(parse_int("-2147483649"), None);
    assert_eq!(parse_int("99999999999999999999999999999"), None);
    assert_eq!(parse_int("99999999999999999999999999999x"), None);
}

#[test]
fn parse_int_agrees_with_the_standard_library() {
    let texts = [
        "", "-", "+", "0", "-0", "+0", "7", "-7", "+7", "007", "12x", "x12", "1 2", "2147483647",
        "2147483648", "-2147483648", "-2147483649", "+2147483647", "+2147483648", "4294967296",
        "18446744073709551616", "-+1", "+-1", "1+", "٣",
    ];
    for text in texts {
        assert_eq!(parse_int(text), text.parse::<i32>().ok(), "{text:?}");
    }
}

#[test]
fn push_digits_appends_decimal_digits() {
    let mut out = String::from("n=");
    push_digits(&mut out, 0);
    assert_eq!(out, "n=0");
    push_digits(&mut out, 9);
    push_digits(&mut out, 10);
    push_digits(&mut out, 1234567890);
    assert_eq!(out, "n=09101234567890");
    let mut out = String::new();
    push_digits(&mut out, u64::MAX);
    assert_eq!(out, "18446744073709551615");
}

#[test]
fn push_decimal_writes_the_sign() {
    let mut out = String::new();
    push_decimal(&mut out, -1);
    push_decimal(&mut out, 0);
    push_decimal(&mut out, 25);
    assert_eq!(out, "-1025");
    let mut out = String::new();
    push_decimal(&mut out, i32::MIN);
    assert_eq!(out, "-2147483648");
    let mut out = String::new();
    push_decimal(&mut out, i32::MAX);
    assert_eq!(out, "2147483647");
}

#[test]
fn push_decimal_agrees_with_the_standard_library() {
    for n in [0i32, 1, -1, 9, 10, 11, 99, 100, -100, 2147483647, -2147483648, 1000000007] {
        let mut out = String::new();
        push_decimal(&mut out, n);
        assert_eq!(out, format!("{n}"));
    }
}
