use hft_engine::error::HftError;
use hft_engine::error::VenueError;
use hft_engine::fixed::PRICE_SCALE;
use hft_engine::types::Order;
use hft_engine::types::OrderSide;
use hft_engine::types::OrderType;
use hft_engine::venues::BinanceVenue;
use hft_engine::venues::ConnState;
use hft_engine::venues::ConnectionFsm;
use hft_engine::venues::ExampleVenue;
use hft_engine::venues::VenueAdapter;
use hft_engine::venues::stream_path;

#[test]
fn test_binance_venue_name() {
    let venue = BinanceVenue::new("fake_api_key".to_string(), "fake_api_secret".to_string());
    assert_eq!(venue.name(), "BINANCE_FUTURES");
}

#[test]
fn test_binance_invalid_order_quantity() {
    let venue = BinanceVenue::new("fake_api_key".to_string(), "fake_api_secret".to_string());

    let order = Order {
        symbol: "BTCUSDT".to_string(),
        side: OrderSide::Buy,
        quantity: -PRICE_SCALE, // -1.0, invalid
        price: 50000 * PRICE_SCALE,
        venue: "BINANCE".to_string(),
        order_type: OrderType::Limit,
    };

    let result = venue.submit_order(order);
    assert!(result.is_err());
    if let Err(HftError::Venue(VenueError::OrderSubmissionFailed(msg))) = result {
        assert!(msg.contains("Invalid quantity"));
        assert_eq!(msg, "Invalid quantity: -1");
    } else {
        panic!("Expected OrderSubmissionFailed error, got: {:?}", result);
    }
}

#[test]
fn test_binance_invalid_limit_price() {
    let venue = BinanceVenue::new("fake_api_key".to_string(), "fake_api_secret".to_string());

    let order = Order {
        symbol: "BTCUSDT".to_string(),
        side: OrderSide::Buy,
        quantity: PRICE_SCALE,
        price: 0, // invalid for a limit order
        venue: "BINANCE".to_string(),
        order_type: OrderType::Limit,
    };

    let result = venue.submit_order(order);
    assert!(result.is_err());
    if let Err(HftError::Venue(VenueError::OrderSubmissionFailed(msg))) = result {
        assert!(msg.contains("Invalid price for limit order"));
    } else {
        panic!("Expected OrderSubmissionFailed error, got: {:?}", result);
    }
}

#[test]
fn test_market_order_zero_price() {
    // Market orders can have a zero price.
    let venue = BinanceVenue::new("fake_api_key".to_string(), "fake_api_secret".to_string());

    let order = Order {
        symbol: "BTCUSDT".to_string(),
        side: OrderSide::Buy,
        quantity: PRICE_SCALE,
        price: 0,
        venue: "BINANCE".to_string(),
        order_type: OrderType::Market,
    };

    let result = venue.submit_order(order);
    assert!(result.is_ok());
}

#[test]
fn test_binance_empty_subscription() {
    let venue = BinanceVenue::new("fake_api_key".to_string(), "fake_api_secret".to_string());
    let result = venue.subscribe_quotes(vec![]);
    assert!(matches!(
        result,
        Err(HftError::Venue(VenueError::SubscriptionFailed(_)))
    ));
}

#[test]
fn test_stream_path_lowercases_and_joins() {
    // The real lowercasing runs here: the multiplexed path pairs each
    // lowercased symbol with the stream suffix, joined by slashes.
    let path = stream_path(&vec!["BTCUSDT".to_string()]);
    assert_eq!(path, "btcusdt@bookTicker");

    let path = stream_path(&vec!["BTCUSDT".to_string(), "ETHUSDT".to_string()]);
    assert_eq!(path, "btcusdt@bookTicker/ethusdt@bookTicker");

    let venue = BinanceVenue::new(String::new(), String::new());
    let url = venue.connection_url(&vec!["BTCUSDT".to_string()]);
    assert_eq!(url, "wss://fstream.binance.com/ws/btcusdt@bookTicker");
}

#[test]
fn test_example_venue() {
    let venue = ExampleVenue {
        venue_name: "EXAMPLE".to_string(),
    };
    assert_eq!(venue.name(), "EXAMPLE");
    assert!(venue.subscribe_quotes(vec!["BTCUSDT".to_string()]).is_ok());
    assert!(matches!(
        venue.subscribe_quotes(vec![]),
        Err(HftError::Venue(VenueError::SubscriptionFailed(_)))
    ));
    let order = Order {
        symbol: "BTCUSDT".to_string(),
        side: OrderSide::Sell,
        quantity: PRICE_SCALE,
        price: 50000 * PRICE_SCALE,
        venue: "EXAMPLE".to_string(),
        order_type: OrderType::Limit,
    };
    assert_eq!(venue.submit_order(order).unwrap(), "order_id");
    assert!(venue.stop().is_ok());
}

#[test]
fn test_reconnect_bounded_retries() {
    // Five failed attempts exhaust the default budget; the machine
    // fails with the attempt count and last error in its message.
    let mut fsm = ConnectionFsm::new();
    assert_eq!(fsm.state(), ConnState::Disconnected);

    let mut retries = 0;
    loop {
        fsm.begin_attempt();
        assert_eq!(fsm.state(), ConnState::Connecting);
        match fsm.on_connect_error() {
            Some(delay) => {
                assert_eq!(delay, 5000);
                assert_eq!(fsm.state(), ConnState::Reconnecting);
                retries += 1;
            }
            None => break,
        }
    }
    assert_eq!(fsm.state(), ConnState::Failed);
    assert_eq!(fsm.attempts(), 5);
    assert_eq!(retries, 4);

    let err = fsm.failure_error(&"connection refused".to_string());
    if let HftError::Venue(VenueError::ConnectionFailed(msg)) = err {
        assert_eq!(msg, "Failed after 5 attempts: connection refused");
    } else {
        panic!("Expected ConnectionFailed error, got: {:?}", err);
    }
}

#[test]
fn test_reconnect_success_and_transport_error() {
    let mut fsm = ConnectionFsm::with_limits(2, 100);
    fsm.begin_attempt();
    fsm.on_connected();
    assert_eq!(fsm.state(), ConnState::Connected);

    // A transport failure re-enters the reconnect loop while budget
    // remains.
    let retry = fsm.on_transport_error();
    assert_eq!(retry, Some(100));
    assert_eq!(fsm.state(), ConnState::Reconnecting);

    fsm.begin_attempt();
    fsm.on_connected();
    let retry = fsm.on_transport_error();
    assert!(retry.is_none());
    assert_eq!(fsm.state(), ConnState::Failed);
}
