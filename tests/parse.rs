use lease_cache_sim::lease_table::{ConfigError, TraceItem};
use lease_cache_sim::parse::{parse_hex, parse_prefixed_hex};

#[test]
fn hex_numerals_parse() {
    assert_eq!(parse_hex("0"), Some(0));
    assert_eq!(parse_hex("1f"), Some(31));
    assert_eq!(parse_hex("FF"), Some(255));
    assert_eq!(parse_hex("aBc"), Some(0xabc));
    assert_eq!(parse_hex("ffffffffffffffff"), Some(u64::MAX));
    assert_eq!(parse_hex("0000000000000000001"), Some(1));
}

#[test]
fn hex_rejects_empty_foreign_and_overflowing_text() {
    assert_eq!(parse_hex(""), None);
    assert_eq!(parse_hex("12g"), None);
    assert_eq!(parse_hex(" 12"), None);
    assert_eq!(parse_hex("10000000000000000"), None);
}

#[test]
fn prefixed_hex_skips_two_characters() {
    assert_eq!(parse_prefixed_hex("0x1f"), Some(31));
    assert_eq!(parse_prefixed_hex("0X10"), Some(16));
    assert_eq!(parse_prefixed_hex("0x"), None);
    assert_eq!(parse_prefixed_hex("7"), None);
    assert_eq!(parse_prefixed_hex("0xzz"), None);
}

#[test]
fn trace_record_from_fields() {
    let item = TraceItem::from_fields("0x10", "0x5", "0xdeadbeef").unwrap();
    assert_eq!(item, TraceItem::new(0xdead_beef, 0x10, 5));
}

#[test]
fn malformed_trace_field_is_an_error() {
    assert_eq!(
        TraceItem::from_fields("0x10", "five", "0x1"),
        Err(ConfigError::MalformedField)
    );
    assert_eq!(TraceItem::from_fields("", "0x1", "0x1"), Err(ConfigError::MalformedField));
}
