use p2pvote::numbers::{decimal_width, parse_count};

#[test]
fn parse_plain_digits() {
    assert_eq!(parse_count(b"42"), Some(42));
    assert_eq!(parse_count(b"0"), Some(0));
    assert_eq!(parse_count(b"007"), Some(7));
}

#[test]
fn parse_with_plus_sign() {
    assert_eq!(parse_count(b"+7"), Some(7));
    assert_eq!(parse_count(b"+"), None);
    assert_eq!(parse_count(b"++7"), None);
}

#[test]
fn parse_rejects_other_text() {
    assert_eq!(parse_count(b""), None);
    assert_eq!(parse_count(b"-1"), None);
    assert_eq!(parse_count(b"1a"), None);
    assert_eq!(parse_count(b" 1"), None);
    assert_eq!(parse_count(b"1 "), None);
}

#[test]
fn parse_agrees_with_std() {
    for text in ["12", "+3", "", "+", "-0", "x", "99999", "18446744073709551615", "18446744073709551616"] {
        assert_eq!(parse_count(text.as_bytes()), text.parse::<usize>().ok(), "{}", text);
    }
}

#[test]
fn parse_overflow() {
    let max = usize::MAX.to_string();
    assert_eq!(parse_count(max.as_bytes()), Some(usize::MAX));
    let over = format!("{}0", max);
    assert_eq!(parse_count(over.as_bytes()), None);
}

#[test]
fn decimal_width_matches_to_string() {
    for n in [0usize, 1, 9, 10, 99, 100, 12345, usize::MAX] {
        assert_eq!(decimal_width(n), n.to_string().len());
    }
}
