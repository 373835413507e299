use hft_engine::fixed::PRICE_SCALE;
use hft_engine::fixed::format_scaled;
use hft_engine::fixed::format_u64;
use hft_engine::fixed::parse_scaled;
use hft_engine::fixed::parse_u64;

#[test]
fn test_parse_scaled_values() {
    assert_eq!(parse_scaled("0"), Some(0));
    assert_eq!(parse_scaled("1"), Some(PRICE_SCALE));
    assert_eq!(parse_scaled("50000"), Some(50000 * PRICE_SCALE));
    assert_eq!(parse_scaled("50000.12345678"), Some(5_000_012_345_678));
    assert_eq!(parse_scaled("0.00000001"), Some(1));
    assert_eq!(parse_scaled("-1"), Some(-PRICE_SCALE));
    assert_eq!(parse_scaled("+2.5"), Some(2 * PRICE_SCALE + PRICE_SCALE / 2));
    // Both halves of the dot may be empty, but not together.
    assert_eq!(parse_scaled("1."), Some(PRICE_SCALE));
    assert_eq!(parse_scaled(".5"), Some(PRICE_SCALE / 2));
    // Digits past the eighth are truncated away.
    assert_eq!(parse_scaled("0.123456789"), Some(12_345_678));
}

#[test]
fn test_parse_scaled_rejects() {
    assert_eq!(parse_scaled(""), None);
    assert_eq!(parse_scaled("."), None);
    assert_eq!(parse_scaled("-"), None);
    assert_eq!(parse_scaled("abc"), None);
    assert_eq!(parse_scaled("1e5"), None);
    assert_eq!(parse_scaled("1.2.3"), None);
    assert_eq!(parse_scaled("1 "), None);
    assert_eq!(parse_scaled("12345678901234567890123"), None);
}

#[test]
fn test_format_scaled_values() {
    assert_eq!(format_scaled(0), "0");
    assert_eq!(format_scaled(PRICE_SCALE), "1");
    assert_eq!(format_scaled(5_000_012_345_678), "50000.12345678");
    assert_eq!(format_scaled(1), "0.00000001");
    assert_eq!(format_scaled(-PRICE_SCALE), "-1");
    assert_eq!(format_scaled(-150_000_000), "-1.50000000");
}

#[test]
fn test_price_round_trip_exec() {
    // The round-trip law, exercised: formatting any representable
    // price and parsing it back restores the exact scaled value.
    let samples = [
        0i64,
        1,
        99,
        PRICE_SCALE,
        PRICE_SCALE / 2,
        5_000_012_345_678,
        i64::MAX,
        987_654_321_987_654_321,
    ];
    for &v in &samples {
        let text = format_scaled(v);
        assert_eq!(parse_scaled(&text), Some(v), "round trip failed for {}", v);
    }
}

#[test]
fn test_parse_u64_values() {
    assert_eq!(parse_u64("0"), Some(0));
    assert_eq!(parse_u64("1748354318519"), Some(1_748_354_318_519));
    assert_eq!(parse_u64("18446744073709551615"), Some(u64::MAX));
    assert_eq!(parse_u64("18446744073709551616"), None);
    assert_eq!(parse_u64(""), None);
    assert_eq!(parse_u64("12a"), None);
    assert_eq!(parse_u64("-1"), None);
}

#[test]
fn test_format_integers() {
    assert_eq!(format_u64(0), "0");
    assert_eq!(format_u64(50000), "50000");
    assert_eq!(format_u64(u64::MAX), "18446744073709551615");
}
