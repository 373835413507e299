//! Error taxonomy for the engine: venue, gateway, execution and book
//! errors, the umbrella `HftError`, and a context-wrapping extension
//! for `Result`.

use vstd::prelude::*;
use vstd::string::StringExecFns;

verus! {

/// Errors related to venue connections and operations.
#[derive(Debug, Clone)]
pub enum VenueError {
    ConnectionFailed(String),
    AuthenticationFailed(String),
    SubscriptionFailed(String),
    OrderSubmissionFailed(String),
    RateLimitExceeded,
    WebSocketError(String),
    ParseError(String),
}

/// Errors related to gateway operations.
#[derive(Debug, Clone)]
pub enum GatewayError {
    NoVenuesConfigured,
    InvalidSymbol(String),
    ChannelCapacityExceeded,
    VenueNotFound(String),
    ChannelSendFailed(String),
    SubscriptionFailed(String),
    NotRunning,
}

/// Errors related to the execution engine.
#[derive(Debug, Clone)]
pub enum ExecutionError {
    InvalidOrder(String),
    OrderRejected(String),
    RiskLimitExceeded(String),
}

/// Errors related to order book operations. Prices and sizes are the
/// scaled fixed-point values the book works with.
#[derive(Debug, Clone)]
pub enum BookError {
    InvalidPrice(i64),
    InvalidSize(i64),
    InvalidBookState,
}

/// Umbrella error for the whole engine.
#[derive(Debug, Clone)]
pub enum HftError {
    Venue(VenueError),
    Gateway(GatewayError),
    Execution(ExecutionError),
    Book(BookError),
    Config(String),
    Unknown(String),
}

pub open spec fn venue_error_text(e: VenueError) -> Seq<char> {
    match e {
        VenueError::ConnectionFailed(m) => "Connection failed: "@ + m@,
        VenueError::AuthenticationFailed(m) => "Authentication failed: "@ + m@,
        VenueError::SubscriptionFailed(m) => "Subscription failed: "@ + m@,
        VenueError::OrderSubmissionFailed(m) => "Order submission failed: "@ + m@,
        VenueError::RateLimitExceeded => "Rate limit exceeded"@,
        VenueError::WebSocketError(m) => "WebSocket error: "@ + m@,
        VenueError::ParseError(m) => "Parse error: "@ + m@,
    }
}

pub open spec fn gateway_error_text(e: GatewayError) -> Seq<char> {
    match e {
        GatewayError::NoVenuesConfigured => "No venues configured"@,
        GatewayError::InvalidSymbol(m) => "Invalid symbol: "@ + m@,
        GatewayError::ChannelCapacityExceeded => "Channel capacity exceeded"@,
        GatewayError::VenueNotFound(m) => "Venue not found: "@ + m@,
        GatewayError::ChannelSendFailed(m) => "Failed to send data through channel: "@ + m@,
        GatewayError::SubscriptionFailed(m) => "Subscription failed: "@ + m@,
        GatewayError::NotRunning => "Gateway not running"@,
    }
}

pub open spec fn execution_error_text(e: ExecutionError) -> Seq<char> {
    match e {
        ExecutionError::InvalidOrder(m) => "Invalid order: "@ + m@,
        ExecutionError::OrderRejected(m) => "Order rejected: "@ + m@,
        ExecutionError::RiskLimitExceeded(m) => "Risk limit exceeded: "@ + m@,
    }
}

impl VenueError {
    /// Human-readable description of the error.
    pub fn message(&self) -> (r: String)
        ensures
            r@ == venue_error_text(*self),
    {
        match self {
            VenueError::ConnectionFailed(m) => String::from_str("Connection failed: ").concat(m.as_str()),
            VenueError::AuthenticationFailed(m) => String::from_str("Authentication failed: ").concat(
                m.as_str(),
            ),
            VenueError::SubscriptionFailed(m) => String::from_str("Subscription failed: ").concat(
                m.as_str(),
            ),
            VenueError::OrderSubmissionFailed(m) => String::from_str(
                "Order submission failed: ",
            ).concat(m.as_str()),
            VenueError::RateLimitExceeded => String::from_str("Rate limit exceeded"),
            VenueError::WebSocketError(m) => String::from_str("WebSocket error: ").concat(m.as_str()),
            VenueError::ParseError(m) => String::from_str("Parse error: ").concat(m.as_str()),
        }
    }
}

impl GatewayError {
    /// Human-readable description of the error.
    pub fn message(&self) -> (r: String)
        ensures
            r@ == gateway_error_text(*self),
    {
        match self {
            GatewayError::NoVenuesConfigured => String::from_str("No venues configured"),
            GatewayError::InvalidSymbol(m) => String::from_str("Invalid symbol: ").concat(m.as_str()),
            GatewayError::ChannelCapacityExceeded => String::from_str("Channel capacity exceeded"),
            GatewayError::VenueNotFound(m) => String::from_str("Venue not found: ").concat(m.as_str()),
            GatewayError::ChannelSendFailed(m) => String::from_str(
                "Failed to send data through channel: ",
            ).concat(m.as_str()),
            GatewayError::SubscriptionFailed(m) => String::from_str("Subscription failed: ").concat(
                m.as_str(),
            ),
            GatewayError::NotRunning => String::from_str("Gateway not running"),
        }
    }
}

impl ExecutionError {
    /// Human-readable description of the error.
    pub fn message(&self) -> (r: String)
        ensures
            r@ == execution_error_text(*self),
    {
        match self {
            ExecutionError::InvalidOrder(m) => String::from_str("Invalid order: ").concat(m.as_str()),
            ExecutionError::OrderRejected(m) => String::from_str("Order rejected: ").concat(m.as_str()),
            ExecutionError::RiskLimitExceeded(m) => String::from_str("Risk limit exceeded: ").concat(
                m.as_str(),
            ),
        }
    }
}

impl From<VenueError> for HftError {
    fn from(e: VenueError) -> (r: HftError) {
        HftError::Venue(e)
    }
}

impl vstd::std_specs::convert::FromSpecImpl<VenueError> for HftError {
    open spec fn obeys_from_spec() -> bool {
        true
    }

    open spec fn from_spec(e: VenueError) -> HftError {
        HftError::Venue(e)
    }
}

impl From<GatewayError> for HftError {
    fn from(e: GatewayError) -> (r: HftError) {
        HftError::Gateway(e)
    }
}

impl vstd::std_specs::convert::FromSpecImpl<GatewayError> for HftError {
    open spec fn obeys_from_spec() -> bool {
        true
    }

    open spec fn from_spec(e: GatewayError) -> HftError {
        HftError::Gateway(e)
    }
}

impl From<ExecutionError> for HftError {
    fn from(e: ExecutionError) -> (r: HftError) {
        HftError::Execution(e)
    }
}

impl vstd::std_specs::convert::FromSpecImpl<ExecutionError> for HftError {
    open spec fn obeys_from_spec() -> bool {
        true
    }

    open spec fn from_spec(e: ExecutionError) -> HftError {
        HftError::Execution(e)
    }
}

impl From<BookError> for HftError {
    fn from(e: BookError) -> (r: HftError) {
        HftError::Book(e)
    }
}

impl vstd::std_specs::convert::FromSpecImpl<BookError> for HftError {
    open spec fn obeys_from_spec() -> bool {
        true
    }

    open spec fn from_spec(e: BookError) -> HftError {
        HftError::Book(e)
    }
}

/// Wrapper that pairs an error with the context in which it arose.
#[derive(Debug, Clone)]
pub struct ErrorContext<E> {
    pub error: E,
    pub context: String,
}

/// Extension that attaches a context string to the error side of a
/// fallible value.
pub trait ErrorExt<T, E>: Sized {
    /// The success value carried by `self`, if any.
    spec fn ok_value(self) -> Option<T>;

    /// The error value carried by `self`, if any.
    spec fn err_value(self) -> Option<E>;

    fn context(self, context: &str) -> (r: Result<T, ErrorContext<E>>)
        ensures
            r is Ok <==> self.ok_value() is Some,
            match r {
                Ok(v) => self.ok_value() == Some(v),
                Err(c) => self.err_value() == Some(c.error) && c.context@ == context@,
            },
    ;
}

impl<T, E> ErrorExt<T, E> for Result<T, E> {
    open spec fn ok_value(self) -> Option<T> {
        match self {
            Ok(v) => Some(v),
            Err(_) => None,
        }
    }

    open spec fn err_value(self) -> Option<E> {
        match self {
            Ok(_) => None,
            Err(e) => Some(e),
        }
    }

    fn context(self, context: &str) -> (r: Result<T, ErrorContext<E>>) {
        match self {
            Ok(v) => Ok(v),
            Err(error) => Err(ErrorContext { error, context: context.to_owned() }),
        }
    }
}

} // verus!
