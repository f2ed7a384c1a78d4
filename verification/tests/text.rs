use tapestry::text::{decimal, parse_unsigned, trim, IntError};

#[test]
fn decimal_spelling() {
    assert_eq!(decimal(0), "0");
    assert_eq!(decimal(7), "7");
    assert_eq!(decimal(1234), "1234");
    assert_eq!(decimal(usize::MAX), usize::MAX.to_string());
}

#[test]
fn trim_removes_unicode_white_space() {
    assert_eq!(trim("  12 \n"), "12");
    assert_eq!(trim("\u{3000}a b\u{a0}"), "a b");
    assert_eq!(trim("   "), "");
    assert_eq!(trim(""), "");
}

#[test]
fn parse_unsigned_accepts_plus_and_digits() {
    assert_eq!(parse_unsigned("42", u64::MAX), Ok(42));
    assert_eq!(parse_unsigned("+42", u64::MAX), Ok(42));
    assert_eq!(parse_unsigned("007", u64::MAX), Ok(7));
    assert_eq!(parse_unsigned("18446744073709551615", u64::MAX), Ok(u64::MAX));
}

#[test]
fn parse_unsigned_errors() {
    assert_eq!(parse_unsigned("", u64::MAX), Err(IntError::Empty));
    assert_eq!(parse_unsigned("+", u64::MAX), Err(IntError::InvalidDigit));
    assert_eq!(parse_unsigned("-", u64::MAX), Err(IntError::InvalidDigit));
    assert_eq!(parse_unsigned("-1", u64::MAX), Err(IntError::InvalidDigit));
    assert_eq!(parse_unsigned("1 2", u64::MAX), Err(IntError::InvalidDigit));
    assert_eq!(parse_unsigned("18446744073709551616", u64::MAX), Err(IntError::Overflow));
    assert_eq!(parse_unsigned("256", 255), Err(IntError::Overflow));
    assert_eq!(parse_unsigned("999a", 99), Err(IntError::Overflow));
    assert_eq!(parse_unsigned("9a99", 99), Err(IntError::InvalidDigit));
}
