use price_oracle::decimal::price_of_text;
use price_oracle::rates::{parse, ParseError, Rates};

#[test]
fn parse_truncates_not_rounds() {
    let body = br#"{"rates":{"EUR":1.2345}}"#;
    assert_eq!(parse(body, b"EUR"), Ok(123));
    let body2 = br#"{"rates":{"EUR":1.2399}}"#;
    assert_eq!(parse(body2, b"EUR"), Ok(123));
}

#[test]
fn parse_missing_quote_is_an_error_not_a_default() {
    let body = br#"{"rates":{"USD":1.0}}"#;
    assert_eq!(parse(body, b"EUR"), Err(ParseError::MissingQuote));
}

#[test]
fn parse_rejects_bodies_without_a_rate_table() {
    assert_eq!(parse(b"not json at all", b"EUR"), Err(ParseError::Malformed));
    assert_eq!(parse(br#"{"quotes":{"EUR":1.0}}"#, b"EUR"), Err(ParseError::Malformed));
    assert_eq!(parse(br#"{"rates":{"EUR":"high"}}"#, b"EUR"), Err(ParseError::Malformed));
    assert_eq!(parse(br#"{"rates":7}"#, b"EUR"), Err(ParseError::Malformed));
}

#[test]
fn parse_picks_the_requested_quote() {
    let body = br#"{"rates":{"EUR":1.25,"GBP":0.75,"JPY":150.5}}"#;
    assert_eq!(parse(body, b"GBP"), Ok(75));
    assert_eq!(parse(body, b"JPY"), Ok(15050));
    assert_eq!(parse(body, b"EUR"), Ok(125));
}

#[test]
fn parse_integer_rate_scales_by_one_hundred() {
    let body = br#"{"rates":{"EUR":2}}"#;
    assert_eq!(parse(body, b"EUR"), Ok(200));
}

#[test]
fn parse_negative_rate_wraps_around() {
    // A negative rate truncates to a negative cents value and is
    // reinterpreted as unsigned: the documented wraparound edge.
    let body = br#"{"rates":{"EUR":-1.5}}"#;
    assert_eq!(parse(body, b"EUR"), Ok(4294967146));
}

#[test]
fn table_lookup_finds_only_present_codes() {
    let raw = vec![
        (b"EUR".to_vec(), b"1.2345".to_vec()),
        (b"GBP".to_vec(), b"0.5".to_vec()),
    ];
    let table = Rates::from_raw(&raw).unwrap();
    assert_eq!(table.rate(b"EUR"), Some(123));
    assert_eq!(table.rate(b"GBP"), Some(50));
    assert_eq!(table.rate(b"JPY"), None);
}

#[test]
fn table_with_a_malformed_rate_text_is_rejected() {
    let raw = vec![(b"EUR".to_vec(), b"1.2.3".to_vec())];
    assert!(Rates::from_raw(&raw).is_none());
}

#[test]
fn price_of_text_plain_forms() {
    assert_eq!(price_of_text(b"1.2345"), Some(123));
    assert_eq!(price_of_text(b"1.2399"), Some(123));
    assert_eq!(price_of_text(b"0.29"), Some(29));
    assert_eq!(price_of_text(b"2"), Some(200));
    assert_eq!(price_of_text(b"2.0"), Some(200));
    assert_eq!(price_of_text(b"0.0"), Some(0));
    assert_eq!(price_of_text(b"-0.0"), Some(0));
    assert_eq!(price_of_text(b"-5"), Some(4294966796));
}

#[test]
fn price_of_text_exponent_forms() {
    assert_eq!(price_of_text(b"1e2"), Some(10000));
    assert_eq!(price_of_text(b"12.34e1"), Some(12340));
    assert_eq!(price_of_text(b"1e-7"), Some(0));
    assert_eq!(price_of_text(b"1e25"), Some(2147483647));
    assert_eq!(price_of_text(b"-1e25"), Some(2147483648));
}

#[test]
fn price_of_text_rejects_malformed_texts() {
    assert_eq!(price_of_text(b""), None);
    assert_eq!(price_of_text(b"-"), None);
    assert_eq!(price_of_text(b"1."), None);
    assert_eq!(price_of_text(b".5"), None);
    assert_eq!(price_of_text(b"1e"), None);
    assert_eq!(price_of_text(b"1e+5"), None);
    assert_eq!(price_of_text(b"abc"), None);
}
