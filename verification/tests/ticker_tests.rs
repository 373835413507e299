use hft_engine::fixed::PRICE_SCALE;
use hft_engine::ticker::parse_ticker;
use hft_engine::ticker::quote_from_ticker;

const TICK: &str = r#"{"s":"BTCUSDT","b":"50000.5","B":"1.5","a":"50001","A":"2.5","T":1748354318519}"#;

#[test]
fn test_parse_ticker_valid() {
    let msg = parse_ticker(TICK).unwrap();
    assert_eq!(msg.symbol, "BTCUSDT");
    assert_eq!(msg.bid_price, "50000.5");
    assert_eq!(msg.bid_qty, "1.5");
    assert_eq!(msg.ask_price, "50001");
    assert_eq!(msg.ask_qty, "2.5");
    assert_eq!(msg.time, 1_748_354_318_519);
}

#[test]
fn test_parse_ticker_unknown_members_and_whitespace() {
    let text = r#" { "u" : 400900217 , "s" : "ETHUSDT" , "b" : "3000" , "B" : "31.21" , "a" : "3000.01" , "A" : "40" , "T" : 123 , "e" : "bookTicker" } "#;
    let msg = parse_ticker(text).unwrap();
    assert_eq!(msg.symbol, "ETHUSDT");
    assert_eq!(msg.bid_qty, "31.21");
    assert_eq!(msg.time, 123);
}

#[test]
fn test_parse_ticker_rejects() {
    // Not an object.
    assert!(parse_ticker("").is_none());
    assert!(parse_ticker("[1,2]").is_none());
    // A missing required member.
    assert!(parse_ticker(r#"{"s":"BTCUSDT","b":"1","B":"1","a":"1","T":5}"#).is_none());
    // A mistyped required member.
    assert!(parse_ticker(r#"{"s":7,"b":"1","B":"1","a":"1","A":"1","T":5}"#).is_none());
    assert!(parse_ticker(r#"{"s":"X","b":"1","B":"1","a":"1","A":"1","T":"5"}"#).is_none());
    // A duplicated required member.
    assert!(
        parse_ticker(r#"{"s":"X","s":"Y","b":"1","B":"1","a":"1","A":"1","T":5}"#).is_none()
    );
    // Trailing text after the object.
    assert!(parse_ticker(&format!("{}{}", TICK, "x")).is_none());
    // An escape in a string.
    assert!(
        parse_ticker(r#"{"s":"B\"TC","b":"1","B":"1","a":"1","A":"1","T":5}"#).is_none()
    );
    // An event time that does not fit a u64.
    assert!(
        parse_ticker(r#"{"s":"X","b":"1","B":"1","a":"1","A":"1","T":18446744073709551616}"#)
            .is_none()
    );
    // A negative number is outside the tick grammar.
    assert!(parse_ticker(r#"{"s":"X","b":"1","B":"1","a":"1","A":"1","T":-5}"#).is_none());
    // An empty object misses every required member.
    assert!(parse_ticker("{}").is_none());
    // A missing colon, and a trailing comma.
    assert!(parse_ticker(r#"{"s" "X","b":"1","B":"1","a":"1","A":"1","T":5}"#).is_none());
    assert!(parse_ticker(r#"{"s":"X","b":"1","B":"1","a":"1","A":"1","T":5,}"#).is_none());
}

#[test]
fn test_quote_from_ticker_valid() {
    let msg = parse_ticker(TICK).unwrap();
    let q = quote_from_ticker(&msg, "BINANCE_FUTURES".to_string(), 42).unwrap();
    assert_eq!(q.symbol, "BTCUSDT");
    assert_eq!(q.bid, 50000 * PRICE_SCALE + PRICE_SCALE / 2);
    assert_eq!(q.ask, 50001 * PRICE_SCALE);
    assert_eq!(q.bid_size, PRICE_SCALE + PRICE_SCALE / 2);
    assert_eq!(q.ask_size, 2 * PRICE_SCALE + PRICE_SCALE / 2);
    assert_eq!(q.venue, "BINANCE_FUTURES");
    assert_eq!(q.timestamp, 42);
}

#[test]
fn test_quote_from_ticker_drops_invalid() {
    // A zero or malformed numeric field drops the tick: no zero or
    // garbage quote may travel downstream.
    let zero_bid = parse_ticker(
        r#"{"s":"X","b":"0","B":"1","a":"1","A":"1","T":5}"#,
    )
    .unwrap();
    assert!(quote_from_ticker(&zero_bid, "V".to_string(), 0).is_none());

    let negative_size = parse_ticker(
        r#"{"s":"X","b":"1","B":"-2","a":"1","A":"1","T":5}"#,
    )
    .unwrap();
    assert!(quote_from_ticker(&negative_size, "V".to_string(), 0).is_none());

    let garbled = parse_ticker(
        r#"{"s":"X","b":"abc","B":"1","a":"1","A":"1","T":5}"#,
    )
    .unwrap();
    assert!(quote_from_ticker(&garbled, "V".to_string(), 0).is_none());
}
