//! The status payload: classification table, formatting, and the exact JSON
//! shape other processes consume.

use stockfin::publisher::{classify, format_plain_pct, format_signed_pct, status_json_payload};
use stockfin::scheduler::StockManager;

// Scaled values: hundredths of a percent, so 10.00% is 1000.

#[test]
fn classification_table() {
    assert_eq!(classify(1000), "bullish");
    assert_eq!(classify(-1000), "bearish");
    assert_eq!(classify(0), "neutral");
}

#[test]
fn classification_is_a_bare_sign_split() {
    // One hundredth of a percent away from zero already classifies.
    assert_eq!(classify(1), "bullish");
    assert_eq!(classify(-1), "bearish");
}

#[test]
fn text_formatting_table() {
    assert_eq!(format_signed_pct(1000), "+10.00%");
    assert_eq!(format_signed_pct(-1000), "-10.00%");
    assert_eq!(format_signed_pct(0), "+0.00%");
}

#[test]
fn text_formatting_fractions() {
    assert_eq!(format_signed_pct(1), "+0.01%");
    assert_eq!(format_signed_pct(-1), "-0.01%");
    assert_eq!(format_signed_pct(1234), "+12.34%");
    assert_eq!(format_signed_pct(-507), "-5.07%");
    assert_eq!(format_signed_pct(12345678), "+123456.78%");
}

#[test]
fn plain_formatting_has_no_positive_sign() {
    assert_eq!(format_plain_pct(1000), "10.00%");
    assert_eq!(format_plain_pct(0), "0.00%");
    assert_eq!(format_plain_pct(-250), "-2.50%");
}

#[test]
fn payload_shape_is_exact() {
    assert_eq!(
        status_json_payload(1000),
        "{\"alt\":\"bullish\",\"class\":\"bullish\",\"text\":\"+10.00%\",\"tooltip\":\"Daily average: 10.00%\"}"
    );
    assert_eq!(
        status_json_payload(-35),
        "{\"alt\":\"bearish\",\"class\":\"bearish\",\"text\":\"-0.35%\",\"tooltip\":\"Daily average: -0.35%\"}"
    );
    assert_eq!(
        status_json_payload(0),
        "{\"alt\":\"neutral\",\"class\":\"neutral\",\"text\":\"+0.00%\",\"tooltip\":\"Daily average: 0.00%\"}"
    );
}

#[test]
fn payload_is_valid_json_with_exactly_four_string_fields() {
    let payload = status_json_payload(4321);
    let parsed: serde_json::Value = serde_json::from_str(&payload).unwrap();
    let obj = parsed.as_object().unwrap();
    assert_eq!(obj.len(), 4);
    assert_eq!(obj.get("text").unwrap().as_str().unwrap(), "+43.21%");
    assert_eq!(obj.get("alt").unwrap().as_str().unwrap(), "bullish");
    assert_eq!(obj.get("class").unwrap().as_str().unwrap(), "bullish");
    assert_eq!(
        obj.get("tooltip").unwrap().as_str().unwrap(),
        "Daily average: 43.21%"
    );
}

#[test]
fn manager_serves_its_scalar() {
    let manager = StockManager::new();
    assert_eq!(
        manager.status_json(),
        "{\"alt\":\"neutral\",\"class\":\"neutral\",\"text\":\"+0.00%\",\"tooltip\":\"Daily average: 0.00%\"}"
    );
}

#[test]
fn extreme_scalars_do_not_panic() {
    let low = status_json_payload(i64::MIN);
    assert!(low.contains("bearish"));
    let high = status_json_payload(i64::MAX);
    assert!(high.contains("bullish"));
}
