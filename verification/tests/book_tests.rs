use hft_engine::book::BookBuilder;
use hft_engine::book::OrderBook;
use hft_engine::fixed::PRICE_SCALE;
use hft_engine::types::Quote;

fn quote(symbol: &str, bid: i64, ask: i64, bid_size: i64, ask_size: i64) -> Quote {
    Quote {
        symbol: symbol.to_string(),
        bid,
        ask,
        bid_size,
        ask_size,
        venue: "TEST".to_string(),
        timestamp: 0,
    }
}

#[test]
fn test_order_book_creation() {
    let book = OrderBook::new("BTCUSDT".to_string());
    assert_eq!(book.symbol(), "BTCUSDT");
    assert_eq!(book.bid_levels(), 0);
    assert_eq!(book.ask_levels(), 0);
}

#[test]
fn test_order_book_update() {
    let mut book = OrderBook::new("BTCUSDT".to_string());

    let q = quote(
        "BTCUSDT",
        50000 * PRICE_SCALE,
        50001 * PRICE_SCALE,
        PRICE_SCALE + PRICE_SCALE / 2,
        2 * PRICE_SCALE + PRICE_SCALE / 2,
    );
    book.update(&q);

    assert_eq!(book.bid_levels(), 1);
    assert_eq!(book.ask_levels(), 1);

    let (bid_price, bid_size) = book.best_bid().unwrap();
    let (ask_price, ask_size) = book.best_ask().unwrap();

    assert_eq!(bid_price, 50000 * PRICE_SCALE);
    assert_eq!(bid_size, PRICE_SCALE + PRICE_SCALE / 2);
    assert_eq!(ask_price, 50001 * PRICE_SCALE);
    assert_eq!(ask_size, 2 * PRICE_SCALE + PRICE_SCALE / 2);
}

#[test]
fn test_price_normalization() {
    // A price with the full eight decimal digits survives the scaled
    // representation exactly: the codec round-trips it.
    let text = "50000.12345678";
    let scaled = hft_engine::fixed::parse_scaled(text).unwrap();
    assert_eq!(scaled, 5_000_012_345_678);
    assert_eq!(hft_engine::fixed::format_scaled(scaled), text);

    // The smallest increment keeps prices at distinct levels.
    let mut book = OrderBook::new("BTCUSDT".to_string());
    let q = quote("BTCUSDT", scaled, scaled + 1, PRICE_SCALE, PRICE_SCALE);
    book.update(&q);

    let (bid_price, _) = book.best_bid().unwrap();
    let (ask_price, _) = book.best_ask().unwrap();
    assert_eq!(bid_price, scaled);
    assert_eq!(ask_price, scaled + 1);
}

#[test]
fn test_order_book_multiple_levels() {
    let mut book = OrderBook::new("BTCUSDT".to_string());

    let quotes = [
        quote("BTCUSDT", 50000 * PRICE_SCALE, 50010 * PRICE_SCALE, PRICE_SCALE, PRICE_SCALE),
        quote("BTCUSDT", 49990 * PRICE_SCALE, 50020 * PRICE_SCALE, 2 * PRICE_SCALE, 2 * PRICE_SCALE),
        quote("BTCUSDT", 49980 * PRICE_SCALE, 50030 * PRICE_SCALE, 3 * PRICE_SCALE, 3 * PRICE_SCALE),
    ];
    for q in &quotes {
        book.update(q);
    }

    assert_eq!(book.bid_levels(), 3);
    assert_eq!(book.ask_levels(), 3);

    let (bid_price, bid_size) = book.best_bid().unwrap();
    assert_eq!(bid_price, 50000 * PRICE_SCALE);
    assert_eq!(bid_size, PRICE_SCALE);

    let (ask_price, ask_size) = book.best_ask().unwrap();
    assert_eq!(ask_price, 50010 * PRICE_SCALE);
    assert_eq!(ask_size, PRICE_SCALE);
}

#[test]
fn test_order_book_update_existing_level() {
    let mut book = OrderBook::new("BTCUSDT".to_string());

    book.update(&quote("BTCUSDT", 50000 * PRICE_SCALE, 50010 * PRICE_SCALE, PRICE_SCALE, PRICE_SCALE));
    book.update(&quote(
        "BTCUSDT",
        50000 * PRICE_SCALE,
        50010 * PRICE_SCALE,
        2 * PRICE_SCALE,
        3 * PRICE_SCALE,
    ));

    let (_, bid_size) = book.best_bid().unwrap();
    let (_, ask_size) = book.best_ask().unwrap();
    assert_eq!(bid_size, 2 * PRICE_SCALE);
    assert_eq!(ask_size, 3 * PRICE_SCALE);

    assert_eq!(book.bid_levels(), 1);
    assert_eq!(book.ask_levels(), 1);
}

#[test]
fn test_order_book_remove_level() {
    let mut book = OrderBook::new("BTCUSDT".to_string());

    book.update(&quote("BTCUSDT", 50000 * PRICE_SCALE, 50010 * PRICE_SCALE, PRICE_SCALE, PRICE_SCALE));
    book.update(&quote(
        "BTCUSDT",
        49990 * PRICE_SCALE,
        50020 * PRICE_SCALE,
        2 * PRICE_SCALE,
        2 * PRICE_SCALE,
    ));
    assert_eq!(book.bid_levels(), 2);
    assert_eq!(book.ask_levels(), 2);

    // A zero size removes the level.
    book.update(&quote("BTCUSDT", 50000 * PRICE_SCALE, 50010 * PRICE_SCALE, 0, 0));

    assert_eq!(book.bid_levels(), 1);
    assert_eq!(book.ask_levels(), 1);

    let (bid_price, bid_size) = book.best_bid().unwrap();
    let (ask_price, ask_size) = book.best_ask().unwrap();
    assert_eq!(bid_price, 49990 * PRICE_SCALE);
    assert_eq!(bid_size, 2 * PRICE_SCALE);
    assert_eq!(ask_price, 50020 * PRICE_SCALE);
    assert_eq!(ask_size, 2 * PRICE_SCALE);
}

#[test]
fn test_order_book_empty() {
    let book = OrderBook::new("BTCUSDT".to_string());
    assert!(book.best_bid().is_none());
    assert!(book.best_ask().is_none());
}

#[test]
fn test_concurrent_book_updates() {
    // Ten updates at distinct prices, applied in the order the write
    // lock serializes them: every level survives, none is lost.
    let mut book = OrderBook::new("BTCUSDT".to_string());
    for i in 0..10i64 {
        let offset = i * 10 * PRICE_SCALE;
        let q = quote(
            "BTCUSDT",
            50000 * PRICE_SCALE - offset,
            50010 * PRICE_SCALE + offset,
            PRICE_SCALE,
            PRICE_SCALE,
        );
        book.update(&q);
    }

    assert_eq!(book.bid_levels(), 10);
    assert_eq!(book.ask_levels(), 10);

    let (bid_price, _) = book.best_bid().unwrap();
    assert_eq!(bid_price, 50000 * PRICE_SCALE);

    let (ask_price, _) = book.best_ask().unwrap();
    assert_eq!(ask_price, 50010 * PRICE_SCALE);
}

#[test]
fn test_extreme_price_values() {
    // The smallest representable prices: one and two scaled units.
    let mut small = OrderBook::new("BTCUSDT".to_string());
    small.update(&quote("BTCUSDT", 1, 2, PRICE_SCALE, PRICE_SCALE));
    let (bid_price, _) = small.best_bid().unwrap();
    let (ask_price, _) = small.best_ask().unwrap();
    assert_eq!(bid_price, 1);
    assert_eq!(ask_price, 2);

    // Very large prices.
    let mut large = OrderBook::new("BTCUSDT".to_string());
    large.update(&quote(
        "BTCUSDT",
        1_000_000 * PRICE_SCALE,
        1_000_001 * PRICE_SCALE,
        PRICE_SCALE,
        PRICE_SCALE,
    ));
    let (bid_price, _) = large.best_bid().unwrap();
    let (ask_price, _) = large.best_ask().unwrap();
    assert_eq!(bid_price, 1_000_000 * PRICE_SCALE);
    assert_eq!(ask_price, 1_000_001 * PRICE_SCALE);

    // With both in one book the order still holds exactly: the best
    // bid is the maximum of all bids, the best ask the minimum of all
    // asks.
    small.update(&quote(
        "BTCUSDT",
        1_000_000 * PRICE_SCALE,
        1_000_001 * PRICE_SCALE,
        PRICE_SCALE,
        PRICE_SCALE,
    ));
    let (bid_price, _) = small.best_bid().unwrap();
    let (ask_price, _) = small.best_ask().unwrap();
    assert_eq!(bid_price, 1_000_000 * PRICE_SCALE);
    assert_eq!(ask_price, 2);
}

#[test]
fn test_book_builder_lazy_creation() {
    let mut builder = BookBuilder::new();
    assert_eq!(builder.book_count(), 0);
    assert!(builder.get_book(&"BTCUSDT".to_string()).is_none());

    builder.process_quote(&quote(
        "BTCUSDT",
        50000 * PRICE_SCALE,
        50001 * PRICE_SCALE,
        PRICE_SCALE,
        PRICE_SCALE,
    ));
    assert_eq!(builder.book_count(), 1);

    builder.process_quote(&quote(
        "ETHUSDT",
        3000 * PRICE_SCALE,
        3001 * PRICE_SCALE,
        PRICE_SCALE,
        PRICE_SCALE,
    ));
    assert_eq!(builder.book_count(), 2);

    // A second quote for a known symbol reuses its book.
    builder.process_quote(&quote(
        "BTCUSDT",
        49999 * PRICE_SCALE,
        50001 * PRICE_SCALE,
        PRICE_SCALE,
        PRICE_SCALE,
    ));
    assert_eq!(builder.book_count(), 2);

    let book = builder.get_book(&"BTCUSDT".to_string()).unwrap();
    assert_eq!(book.bid_levels(), 2);
    let (bid_price, _) = book.best_bid().unwrap();
    assert_eq!(bid_price, 50000 * PRICE_SCALE);

    let eth = builder.get_book(&"ETHUSDT".to_string()).unwrap();
    assert_eq!(eth.bid_levels(), 1);
}
