use hft_engine::error::GatewayError;
use hft_engine::error::HftError;
use hft_engine::error::VenueError;
use hft_engine::gateway::QuoteGateway;

#[test]
fn test_quote_gateway_add_venue() {
    let mut gateway = QuoteGateway::new();
    let catch_up = gateway.add_venue("MOCK".to_string());
    assert!(catch_up.is_none());
    assert_eq!(gateway.venue_count(), 1);
}

#[test]
fn test_quote_gateway_remove_venue() {
    let mut gateway = QuoteGateway::new();
    gateway.add_venue("MOCK1".to_string());
    gateway.add_venue("MOCK2".to_string());
    assert_eq!(gateway.venue_count(), 2);

    let result = gateway.remove_venue(&"MOCK1".to_string());
    assert!(result.is_ok());
    assert_eq!(gateway.venue_count(), 1);

    let result = gateway.remove_venue(&"NONEXISTENT".to_string());
    assert!(result.is_err());
    if let Err(HftError::Gateway(GatewayError::VenueNotFound(name))) = result {
        assert_eq!(name, "NONEXISTENT");
    } else {
        panic!("Expected VenueNotFound error, got: {:?}", result);
    }
    // The registry is untouched by the failed removal.
    assert_eq!(gateway.venue_count(), 1);
}

#[test]
fn test_quote_gateway_subscribe() {
    let mut gateway = QuoteGateway::new();

    // No venues: fail fast.
    let result = gateway.subscribe_targets(&vec!["BTCUSDT".to_string()]);
    assert!(result.is_err());
    if let Err(HftError::Gateway(GatewayError::NoVenuesConfigured)) = result {
    } else {
        panic!("Expected NoVenuesConfigured error, got: {:?}", result);
    }

    gateway.add_venue("MOCK".to_string());

    // An empty symbol list: fail fast.
    let result = gateway.subscribe_targets(&vec![]);
    assert!(result.is_err());
    if let Err(HftError::Gateway(GatewayError::InvalidSymbol(msg))) = result {
        assert!(msg.contains("Empty"));
    } else {
        panic!("Expected InvalidSymbol error, got: {:?}", result);
    }

    // A valid request names the registered venue.
    let symbols = vec!["BTCUSDT".to_string()];
    let targets = gateway.subscribe_targets(&symbols).unwrap();
    assert_eq!(targets, vec!["MOCK".to_string()]);

    // The venue subscribes successfully.
    let outcomes = vec![("MOCK".to_string(), Ok(()))];
    let result = gateway.record_outcomes(&symbols, &outcomes);
    assert!(result.is_ok());
    assert!(gateway.is_running());

    let subs = gateway.get_subscription(&"MOCK".to_string()).unwrap();
    assert_eq!(subs.len(), 1);
    assert_eq!(subs[0], "BTCUSDT");

    let table = gateway.get_subscriptions();
    assert_eq!(table.len(), 1);
    assert_eq!(table[0].0, "MOCK");

    // Unsubscribe clears the flag and the table.
    let result = gateway.unsubscribe_all();
    assert!(result.is_ok());
    assert!(!gateway.is_running());
    assert!(gateway.get_subscription(&"MOCK".to_string()).is_none());
}

#[test]
fn test_quote_gateway_multiple_venues() {
    let mut gateway = QuoteGateway::new();
    gateway.add_venue("MOCK1".to_string());
    gateway.add_venue("MOCK2".to_string());

    let symbols = vec!["BTCUSDT".to_string(), "ETHUSDT".to_string()];
    let targets = gateway.subscribe_targets(&symbols).unwrap();
    assert_eq!(targets.len(), 2);

    let outcomes = vec![("MOCK1".to_string(), Ok(())), ("MOCK2".to_string(), Ok(()))];
    assert!(gateway.record_outcomes(&symbols, &outcomes).is_ok());
    assert!(gateway.is_running());

    assert_eq!(gateway.get_subscription(&"MOCK1".to_string()).unwrap().len(), 2);
    assert_eq!(gateway.get_subscription(&"MOCK2".to_string()).unwrap().len(), 2);
}

#[test]
fn test_subscribe_partial_failure() {
    // One venue fails, one succeeds: the subscription succeeds and the
    // gateway runs.
    let mut gateway = QuoteGateway::new();
    gateway.add_venue("GOOD".to_string());
    gateway.add_venue("BAD".to_string());

    let symbols = vec!["BTCUSDT".to_string()];
    let outcomes = vec![
        ("GOOD".to_string(), Ok(())),
        (
            "BAD".to_string(),
            Err(VenueError::SubscriptionFailed("socket refused".to_string())),
        ),
    ];
    let result = gateway.record_outcomes(&symbols, &outcomes);
    assert!(result.is_ok());
    assert!(gateway.is_running());
    assert!(gateway.get_subscription(&"GOOD".to_string()).is_some());
    assert!(gateway.get_subscription(&"BAD".to_string()).is_none());
}

#[test]
fn test_subscribe_all_venues_fail() {
    // Every venue fails: the aggregated error names them all and the
    // gateway stays idle.
    let mut gateway = QuoteGateway::new();
    gateway.add_venue("MOCK1".to_string());
    gateway.add_venue("MOCK2".to_string());

    let symbols = vec!["BTCUSDT".to_string()];
    let outcomes = vec![
        (
            "MOCK1".to_string(),
            Err(VenueError::SubscriptionFailed("no route".to_string())),
        ),
        (
            "MOCK2".to_string(),
            Err(VenueError::ConnectionFailed("timed out".to_string())),
        ),
    ];
    let result = gateway.record_outcomes(&symbols, &outcomes);
    assert!(result.is_err());
    if let Err(HftError::Gateway(GatewayError::SubscriptionFailed(msg))) = result {
        assert!(msg.contains("MOCK1"));
        assert!(msg.contains("MOCK2"));
        assert!(msg.contains("no route"));
        assert!(msg.contains("timed out"));
        assert_eq!(
            msg,
            "MOCK1: Subscription failed: no route, MOCK2: Connection failed: timed out"
        );
    } else {
        panic!("Expected SubscriptionFailed error, got: {:?}", result);
    }
    assert!(!gateway.is_running());
    assert!(gateway.get_subscription(&"MOCK1".to_string()).is_none());
}

#[test]
fn test_add_venue_catch_up() {
    // A venue added while the gateway runs must catch up on that
    // venue's existing subscription entry.
    let mut gateway = QuoteGateway::new();
    gateway.add_venue("MOCK".to_string());
    let symbols = vec!["BTCUSDT".to_string()];
    let outcomes = vec![("MOCK".to_string(), Ok(()))];
    gateway.record_outcomes(&symbols, &outcomes).unwrap();
    assert!(gateway.is_running());

    // A replacement adapter under the same name catches up.
    let catch_up = gateway.add_venue("MOCK".to_string());
    assert_eq!(catch_up, Some(vec!["BTCUSDT".to_string()]));

    // A venue with no entry has nothing to catch up on.
    let catch_up = gateway.add_venue("OTHER".to_string());
    assert!(catch_up.is_none());
}
