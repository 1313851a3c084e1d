use wallflower::numbers::{u64_to_string, parse_u32_bytes};

#[test]
fn formats_decimal_digits() {
    assert_eq!(u64_to_string(0), "0");
    assert_eq!(u64_to_string(7), "7");
    assert_eq!(u64_to_string(1305586162), "1305586162");
    assert_eq!(u64_to_string(u64::MAX), "18446744073709551615");
}

#[test]
fn parses_digit_strings() {
    assert_eq!(parse_u32_bytes(b"0"), Some(0));
    assert_eq!(parse_u32_bytes(b"42"), Some(42));
    assert_eq!(parse_u32_bytes(b"+42"), Some(42));
    assert_eq!(parse_u32_bytes(b"4294967295"), Some(u32::MAX));
}

#[test]
fn rejects_non_digits_and_overflow() {
    assert_eq!(parse_u32_bytes(b""), None);
    assert_eq!(parse_u32_bytes(b"+"), None);
    assert_eq!(parse_u32_bytes(b"4a"), None);
    assert_eq!(parse_u32_bytes(b"-1"), None);
    assert_eq!(parse_u32_bytes(b"4294967296"), None);
    assert_eq!(parse_u32_bytes(b" 42"), None);
}

#[test]
fn format_then_parse_returns_the_value() {
    let s = u64_to_string(123456);
    assert_eq!(parse_u32_bytes(s.as_bytes()), Some(123456));
}
