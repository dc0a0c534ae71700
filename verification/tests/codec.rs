//! The persisted ticker list: round trips, degradation on malformed input,
//! and agreement with a common JSON serializer.

use stockfin::codec::{decode_tickers, encode_tickers, load_tickers};

fn pairs(raw: &[(&str, &str)]) -> Vec<(String, String)> {
    raw.iter()
        .map(|(t, n)| (t.to_string(), n.to_string()))
        .collect()
}

fn round_trips(list: Vec<(String, String)>) {
    let text = encode_tickers(&list);
    assert_eq!(decode_tickers(&text), Some(list.clone()));
    assert_eq!(load_tickers(&text), list);
}

#[test]
fn round_trip_empty() {
    round_trips(Vec::new());
    assert_eq!(encode_tickers(&Vec::new()), "[]");
}

#[test]
fn round_trip_single() {
    round_trips(pairs(&[("AAPL", "Apple Inc.")]));
}

#[test]
fn round_trip_several() {
    round_trips(pairs(&[
        ("AAPL", "Apple Inc."),
        ("MSFT", "Microsoft Corporation"),
        ("VOO", "Vanguard S&P 500 ETF"),
    ]));
}

#[test]
fn round_trip_duplicate_tickers() {
    round_trips(pairs(&[("AAPL", "Apple"), ("AAPL", "Apple again"), ("AAPL", "Apple")]));
}

#[test]
fn round_trip_empty_strings() {
    round_trips(pairs(&[("", ""), ("X", "")]));
}

#[test]
fn round_trip_escapes_and_unicode() {
    round_trips(pairs(&[
        ("A\"B", "quote \" and backslash \\"),
        ("T\tN", "line\nbreak and \r and \u{1} control"),
        ("ÅÄÖ", "ümlauts and 株式 and 🚀"),
    ]));
}

#[test]
fn encoded_form_is_exact() {
    let text = encode_tickers(&pairs(&[("AAPL", "Apple Inc.")]));
    assert_eq!(text, "[[\"AAPL\",\"Apple Inc.\"]]");
    let two = encode_tickers(&pairs(&[("A", "a"), ("B", "b")]));
    assert_eq!(two, "[[\"A\",\"a\"],[\"B\",\"b\"]]");
}

#[test]
fn control_characters_are_escaped() {
    let text = encode_tickers(&pairs(&[("N", "a\nb")]));
    assert_eq!(text, "[[\"N\",\"a\\u000ab\"]]");
}

#[test]
fn decoder_takes_short_escapes() {
    let decoded = decode_tickers("[[\"a\\nb\",\"c\\td\\\\e\\\"f\\/g\"]]").unwrap();
    assert_eq!(decoded, pairs(&[("a\nb", "c\td\\e\"f/g")]));
    let controls = decode_tickers("[[\"x\",\"\\b\\f\\r\"]]").unwrap();
    assert_eq!(controls, pairs(&[("x", "\u{8}\u{c}\r")]));
}

#[test]
fn decoder_takes_latin_hex_escapes() {
    let decoded = decode_tickers("[[\"\\u0041\",\"\\u00e9\"]]").unwrap();
    assert_eq!(decoded, pairs(&[("A", "é")]));
}

#[test]
fn malformed_inputs_decode_to_nothing() {
    for bad in [
        "",
        "[",
        "]",
        "{}",
        "[[\"A\",\"B\"]",
        "[[\"A\",\"B\"]] ",
        " [[\"A\",\"B\"]]",
        "[[\"A\",\"B\"],]",
        "[[\"A\"]]",
        "[[\"A\",\"B\",\"C\"]]",
        "[\"A\",\"B\"]",
        "[[\"A\",\"B\\x\"]]",
        "[[\"A\",\"B\\u12ab\"]]",
        "[[\"A\",\"B]]",
        "null",
    ] {
        assert_eq!(decode_tickers(bad), None, "input: {bad:?}");
        assert_eq!(load_tickers(bad), Vec::new(), "input: {bad:?}");
    }
}

#[test]
fn common_serializer_reads_what_we_write() {
    let list = pairs(&[
        ("AAPL", "Apple \"Inc.\""),
        ("B\\S", "back\\slash"),
        ("NL", "a\nb"),
        ("ÅÄÖ", "株式 🚀"),
    ]);
    let text = encode_tickers(&list);
    let reparsed: Vec<(String, String)> = serde_json::from_str(&text).unwrap();
    assert_eq!(reparsed, list);
}

#[test]
fn we_read_what_the_common_serializer_writes() {
    let list = pairs(&[
        ("AAPL", "Apple \"Inc.\""),
        ("B\\S", "back\\slash"),
        ("NL", "a\nb and \t and \u{b}"),
        ("ÅÄÖ", "株式 🚀"),
    ]);
    let text = serde_json::to_string(&list).unwrap();
    assert_eq!(decode_tickers(&text), Some(list));
}
