use hft_engine::fixed::PRICE_SCALE;
use hft_engine::sim::MockVenueConfig;
use hft_engine::sim::synth_quote;
use hft_engine::types::OrderType;

#[test]
fn test_mock_config_default() {
    let config = MockVenueConfig::default();
    assert_eq!(config.quote_interval_ms, 100);
    assert_eq!(config.latency_ms, 5);
    assert_eq!(config.error_per_million, 10_000);
    assert_eq!(config.disconnect_per_million, 1_000);
    assert_eq!(config.base_price(&"BTCUSDT".to_string()), 50_000 * PRICE_SCALE);
    assert_eq!(config.base_price(&"ETHUSDT".to_string()), 3_000 * PRICE_SCALE);
    // An unknown symbol falls back to 100 whole units.
    assert_eq!(config.base_price(&"XRPUSDT".to_string()), 100 * PRICE_SCALE);
}

#[test]
fn test_synth_quote_exact() {
    // No movement: the mid is the base and the spread is 0.02% of it.
    let base = 50_000 * PRICE_SCALE; // 5_000_000_000_000
    let q = synth_quote(
        "BTCUSDT".to_string(),
        "MOCK".to_string(),
        base,
        0,
        PRICE_SCALE,
        2 * PRICE_SCALE,
        7,
    );
    let spread = base / 5_000; // 1_000_000_000 = 10.0
    assert_eq!(q.bid, base - spread / 2);
    assert_eq!(q.ask, base + spread / 2);
    assert_eq!(q.bid_size, PRICE_SCALE);
    assert_eq!(q.ask_size, 2 * PRICE_SCALE);
    assert_eq!(q.symbol, "BTCUSDT");
    assert_eq!(q.venue, "MOCK");
    assert_eq!(q.timestamp, 7);
}

#[test]
fn test_synth_quote_movement_and_ordering() {
    let base = 3_000 * PRICE_SCALE;
    // +0.5% movement: 5000 parts per million.
    let up = synth_quote("E".to_string(), "M".to_string(), base, 5_000, 1, 1, 0);
    let mid_up = base + base / 200;
    assert_eq!(up.bid, mid_up - (mid_up / 5_000) / 2);
    assert!(up.bid <= up.ask);
    assert!(up.bid > 0);

    // -0.5% movement.
    let down = synth_quote("E".to_string(), "M".to_string(), base, -5_000, 1, 1, 0);
    let mid_down = base - base / 200;
    assert!(down.ask >= mid_down);
    assert!(down.bid <= mid_down);
    assert!(down.bid > 0);

    // A tiny base keeps the quote well-formed even with a zero spread.
    let tiny = synth_quote("E".to_string(), "M".to_string(), 1, -500_000, 1, 1, 0);
    assert!(tiny.bid > 0);
    assert!(tiny.bid <= tiny.ask);
}

#[test]
fn test_order_type_label() {
    assert_eq!(OrderType::Market.label(), "market");
    assert_eq!(OrderType::Limit.label(), "limit");
}
