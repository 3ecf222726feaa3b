use kvcache::commands::{Command, DecodeError};
use kvcache::numbers::{i64_to_string, parse_i64};
use kvcache::glob::glob_to_regex;

fn round_trip(c: Command) {
    let bytes = c.to_bytes();
    assert_eq!(Command::from_bytes(&bytes), Ok(c));
}

#[test]
fn round_trip_every_variant() {
    round_trip(Command::Put { key: "key".to_string(), value: "value".to_string() });
    round_trip(Command::Get { key: "key".to_string() });
    round_trip(Command::Delete { key: "k".to_string() });
    round_trip(Command::Expire { key: "k".to_string(), seconds: 0 });
    round_trip(Command::Expire { key: "k".to_string(), seconds: u64::MAX });
    round_trip(Command::Incr { key: "counter".to_string() });
    round_trip(Command::Decr { key: "counter".to_string() });
    round_trip(Command::Keys { pattern: "foo*".to_string() });
    round_trip(Command::Put { key: String::new(), value: String::new() });
    round_trip(Command::Get { key: "\u{00e9}\u{4e16}\u{1f600}".to_string() });
}

#[test]
fn encoding_is_the_documented_framing() {
    let c = Command::Put { key: "ab".to_string(), value: "c".to_string() };
    assert_eq!(c.to_bytes(), vec![1, 2, b'a', b'b', 1, b'c']);
    let c = Command::Get { key: "k".to_string() };
    assert_eq!(c.to_bytes(), vec![2, 1, b'k']);
    let c = Command::Expire { key: "k".to_string(), seconds: 258 };
    assert_eq!(c.to_bytes(), vec![4, 1, b'k', 2, 1, 0, 0, 0, 0, 0, 0]);
    let c = Command::Keys { pattern: "*".to_string() };
    assert_eq!(c.to_bytes(), vec![7, 1, b'*']);
}

#[test]
fn decode_ignores_trailing_bytes() {
    let mut bytes = Command::Get { key: "k".to_string() }.to_bytes();
    bytes.extend_from_slice(&[9, 9, 9]);
    assert_eq!(
        Command::from_bytes(&bytes),
        Ok(Command::Get { key: "k".to_string() })
    );
}

#[test]
fn decode_empty_buffer_is_truncated() {
    assert_eq!(Command::from_bytes(&[]), Err(DecodeError::Truncated));
}

#[test]
fn decode_unknown_tag() {
    assert_eq!(Command::from_bytes(&[0x99, 0]), Err(DecodeError::UnknownTag));
    assert_eq!(Command::from_bytes(&[0, 0]), Err(DecodeError::UnknownTag));
}

#[test]
fn decode_truncated_string_field() {
    // the length prefix claims 5 bytes, only 2 remain
    assert_eq!(
        Command::from_bytes(&[2, 5, b'a', b'b']),
        Err(DecodeError::Truncated)
    );
    // the tag stands alone, with no length prefix at all
    assert_eq!(Command::from_bytes(&[2]), Err(DecodeError::Truncated));
}

#[test]
fn decode_truncated_seconds_field() {
    // Expire with a one-byte key but only four of the eight seconds bytes
    assert_eq!(
        Command::from_bytes(&[4, 1, b'k', 1, 0, 0, 0]),
        Err(DecodeError::Truncated)
    );
}

#[test]
fn decode_invalid_utf8() {
    assert_eq!(
        Command::from_bytes(&[2, 2, 0xff, 0xfe]),
        Err(DecodeError::InvalidUtf8)
    );
}

#[test]
fn encodable_caps_fields_at_255_bytes() {
    let long = "x".repeat(256);
    let ok = "x".repeat(255);
    assert!(!Command::Get { key: long.clone() }.encodable());
    assert!(Command::Get { key: ok.clone() }.encodable());
    assert!(!Command::Put { key: "k".to_string(), value: long }.encodable());
    round_trip(Command::Get { key: ok });
}

#[test]
fn parse_i64_reads_decimal_strings() {
    assert_eq!(parse_i64("123"), Some(123));
    assert_eq!(parse_i64("-5"), Some(-5));
    assert_eq!(parse_i64("+7"), Some(7));
    assert_eq!(parse_i64("0"), Some(0));
    assert_eq!(parse_i64("007"), Some(7));
    assert_eq!(parse_i64(""), None);
    assert_eq!(parse_i64("-"), None);
    assert_eq!(parse_i64("+"), None);
    assert_eq!(parse_i64("12a"), None);
    assert_eq!(parse_i64(" 1"), None);
    assert_eq!(parse_i64("9223372036854775807"), Some(i64::MAX));
    assert_eq!(parse_i64("9223372036854775808"), None);
    assert_eq!(parse_i64("-9223372036854775808"), Some(i64::MIN));
    assert_eq!(parse_i64("-9223372036854775809"), None);
}

#[test]
fn i64_to_string_writes_decimal_strings() {
    assert_eq!(i64_to_string(0), "0");
    assert_eq!(i64_to_string(42), "42");
    assert_eq!(i64_to_string(-1), "-1");
    assert_eq!(i64_to_string(i64::MAX), "9223372036854775807");
    assert_eq!(i64_to_string(i64::MIN), "-9223372036854775808");
}

#[test]
fn glob_translation_replaces_stars_only() {
    assert_eq!(glob_to_regex("foo*"), "foo.*");
    assert_eq!(glob_to_regex("*"), ".*");
    assert_eq!(glob_to_regex("a.b"), "a.b");
    assert_eq!(glob_to_regex(""), "");
    assert_eq!(glob_to_regex("a*b*c"), "a.*b.*c");
}
