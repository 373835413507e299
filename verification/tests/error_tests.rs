use hft_engine::error::ErrorContext;
use hft_engine::error::ErrorExt;
use hft_engine::error::ExecutionError;
use hft_engine::error::GatewayError;
use hft_engine::error::HftError;
use hft_engine::error::VenueError;

#[test]
fn test_venue_error_messages() {
    assert_eq!(
        VenueError::ConnectionFailed("refused".to_string()).message(),
        "Connection failed: refused"
    );
    assert_eq!(VenueError::RateLimitExceeded.message(), "Rate limit exceeded");
    assert_eq!(
        VenueError::ParseError("bad digit".to_string()).message(),
        "Parse error: bad digit"
    );
    assert_eq!(
        VenueError::WebSocketError("closed".to_string()).message(),
        "WebSocket error: closed"
    );
    assert_eq!(
        VenueError::AuthenticationFailed("key".to_string()).message(),
        "Authentication failed: key"
    );
    assert_eq!(
        VenueError::OrderSubmissionFailed("qty".to_string()).message(),
        "Order submission failed: qty"
    );
    assert_eq!(
        VenueError::SubscriptionFailed("empty".to_string()).message(),
        "Subscription failed: empty"
    );
}

#[test]
fn test_gateway_error_messages() {
    assert_eq!(GatewayError::NoVenuesConfigured.message(), "No venues configured");
    assert_eq!(GatewayError::NotRunning.message(), "Gateway not running");
    assert_eq!(
        GatewayError::ChannelCapacityExceeded.message(),
        "Channel capacity exceeded"
    );
    assert_eq!(
        GatewayError::InvalidSymbol("Empty symbol list".to_string()).message(),
        "Invalid symbol: Empty symbol list"
    );
    assert_eq!(
        GatewayError::VenueNotFound("X".to_string()).message(),
        "Venue not found: X"
    );
    assert_eq!(
        GatewayError::ChannelSendFailed("closed".to_string()).message(),
        "Failed to send data through channel: closed"
    );
    assert_eq!(
        GatewayError::SubscriptionFailed("all failed".to_string()).message(),
        "Subscription failed: all failed"
    );
}

#[test]
fn test_execution_error_messages() {
    assert_eq!(
        ExecutionError::InvalidOrder("no symbol".to_string()).message(),
        "Invalid order: no symbol"
    );
    assert_eq!(
        ExecutionError::OrderRejected("risk".to_string()).message(),
        "Order rejected: risk"
    );
    assert_eq!(
        ExecutionError::RiskLimitExceeded("gross".to_string()).message(),
        "Risk limit exceeded: gross"
    );
}

#[test]
fn test_hft_error_from() {
    let e: HftError = VenueError::RateLimitExceeded.into();
    assert!(matches!(e, HftError::Venue(VenueError::RateLimitExceeded)));

    let e: HftError = GatewayError::NoVenuesConfigured.into();
    assert!(matches!(e, HftError::Gateway(GatewayError::NoVenuesConfigured)));

    let e: HftError = ExecutionError::InvalidOrder("x".to_string()).into();
    assert!(matches!(e, HftError::Execution(ExecutionError::InvalidOrder(_))));

    let e: HftError = hft_engine::error::BookError::InvalidBookState.into();
    assert!(matches!(
        e,
        HftError::Book(hft_engine::error::BookError::InvalidBookState)
    ));
}

#[test]
fn test_error_context() {
    let ok: Result<u32, VenueError> = Ok(7);
    assert_eq!(ok.context("subscribing").unwrap(), 7);

    let err: Result<u32, VenueError> = Err(VenueError::RateLimitExceeded);
    let wrapped: ErrorContext<VenueError> = err.context("subscribing").unwrap_err();
    assert_eq!(wrapped.context, "subscribing");
    assert!(matches!(wrapped.error, VenueError::RateLimitExceeded));
}
