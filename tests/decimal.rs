use knapsack::decimal::parse_numbers;

#[test]
fn parses_key_line() {
    assert_eq!(
        parse_numbers(b"62 93 186 403 417 352 315 210 "),
        Some(vec![62, 93, 186, 403, 417, 352, 315, 210])
    );
}

#[test]
fn parses_mixed_whitespace() {
    assert_eq!(parse_numbers(b"\t 7\n\r08  9\x0b10\x0c"), Some(vec![7, 8, 9, 10]));
    assert_eq!(parse_numbers(b""), Some(vec![]));
    assert_eq!(parse_numbers(b"   \n"), Some(vec![]));
}

#[test]
fn rejects_non_digits() {
    assert_eq!(parse_numbers(b"12 x3"), None);
    assert_eq!(parse_numbers(b"-1"), None);
    assert_eq!(parse_numbers(b"+1"), None);
}

#[test]
fn largest_value_and_overflow() {
    assert_eq!(parse_numbers(b"4294967295"), Some(vec![u32::MAX]));
    assert_eq!(parse_numbers(b"1 4294967296"), None);
    assert_eq!(parse_numbers(b"99999999999999999999999 1"), None);
    assert_eq!(parse_numbers(b"0000000000004294967295"), Some(vec![u32::MAX]));
}
