//! Venue adapters: the capability surface every venue implements, the
//! futures-exchange adapter's protocol logic, and the bounded-retry
//! connection state machine.
//!
//! Only the decisions live here: subscription addressing, order
//! validation, and the connect/reconnect transitions. The surrounding
//! runtime owns sockets, channels and timers, consults
//! [`ConnectionFsm`] at each step, and performs what it prescribes.

use vstd::prelude::*;
use vstd::string::StringExecFns;
use crate::error::HftError;
use crate::error::VenueError;
use crate::fixed::digits_of;
use crate::fixed::format_scaled;
use crate::fixed::format_u64;
use crate::fixed::spec_format_scaled;
use crate::gateway::names_view;
use crate::types::Order;
use crate::types::OrderType;

verus! {

/// Delay between reconnect attempts, in milliseconds.
pub const RECONNECT_DELAY_MS: u64 = 5000;

/// Bound on connection attempts before the adapter gives up.
pub const MAX_RECONNECT_ATTEMPTS: u64 = 5;

/// What `str::to_lowercase` returns for a given character sequence; the
/// result depends on the characters alone.
pub uninterp spec fn lower_of(s: Seq<char>) -> Seq<char>;

/// Relies on `str::to_lowercase`: lowercases the string; the empty
/// string stays empty.
#[verifier::external_body]
fn lowercase(s: &str) -> (r: String)
    ensures
        r@ == lower_of(s@),
        s@.len() == 0 ==> r@.len() == 0,
{
    s.to_lowercase()
}

/// An order the venue interface must reject: non-positive quantity, or a
/// limit order at a non-positive price.
pub open spec fn order_rejected(o: Order) -> bool {
    o.quantity <= 0 || (o.order_type == OrderType::Limit && o.price <= 0)
}

/// The capability surface of a venue, implemented polymorphically per
/// venue. The surrounding runtime holds its adapters through this
/// interface; subscription and validation rules below bind every
/// implementation.
pub trait VenueAdapter: Sized {
    /// The venue's stable identifier.
    spec fn spec_name(&self) -> Seq<char>;

    /// Stable identifier, no side effects.
    fn name(&self) -> (r: String)
        ensures
            r@ == self.spec_name(),
    ;

    /// Establish or update a live subscription for the given symbols.
    /// An empty symbol list always fails with `SubscriptionFailed`.
    fn subscribe_quotes(&self, symbols: Vec<String>) -> (r: Result<(), HftError>)
        ensures
            symbols@.len() == 0 ==> match r {
                Err(HftError::Venue(VenueError::SubscriptionFailed(_))) => true,
                _ => false,
            },
    ;

    /// Submit an order. A non-positive quantity, or a non-positive
    /// price on a limit order, always fails with
    /// `OrderSubmissionFailed`; venues may fail valid orders for their
    /// own reasons.
    fn submit_order(&self, order: Order) -> (r: Result<String, HftError>)
        ensures
            order_rejected(order) ==> match r {
                Err(HftError::Venue(VenueError::OrderSubmissionFailed(_))) => true,
                _ => false,
            },
    ;

    /// Signal any background work to terminate; idempotent.
    fn stop(&self) -> (r: Result<(), HftError>);
}

/// Validation every order faces at the venue boundary: rejected orders
/// get an `OrderSubmissionFailed` whose message names the offending
/// value; valid orders pass.
pub fn validate_order(order: &Order) -> (r: Result<(), HftError>)
    ensures
        r is Ok <==> !order_rejected(*order),
        order.quantity <= 0 ==> match r {
            Err(HftError::Venue(VenueError::OrderSubmissionFailed(m))) => m@ == "Invalid quantity: "@
                + spec_format_scaled(order.quantity as int),
            _ => false,
        },
        order.quantity > 0 && order.order_type == OrderType::Limit && order.price <= 0 ==> match r {
            Err(HftError::Venue(VenueError::OrderSubmissionFailed(m))) => m@
                == "Invalid price for limit order: "@ + spec_format_scaled(order.price as int),
            _ => false,
        },
{
    if order.quantity <= 0 {
        let msg = String::from_str("Invalid quantity: ").concat(
            format_scaled(order.quantity).as_str(),
        );
        return Err(HftError::Venue(VenueError::OrderSubmissionFailed(msg)));
    }
    let limit = match order.order_type {
        OrderType::Limit => true,
        OrderType::Market => false,
    };
    if order.price <= 0 && limit {
        let msg = String::from_str("Invalid price for limit order: ").concat(
            format_scaled(order.price).as_str(),
        );
        return Err(HftError::Venue(VenueError::OrderSubmissionFailed(msg)));
    }
    Ok(())
}

/// A venue's stream name for one symbol: the lowercased symbol paired
/// with the book-ticker stream suffix.
pub open spec fn spec_stream_name(sym: Seq<char>) -> Seq<char> {
    lower_of(sym) + "@bookTicker"@
}

/// The multiplexed connection path: one stream name per symbol, joined
/// by `/` — one socket, many streams.
pub open spec fn spec_stream_path(syms: Seq<Seq<char>>) -> Seq<char>
    decreases syms.len(),
{
    if syms.len() == 0 {
        Seq::<char>::empty()
    } else if syms.len() == 1 {
        spec_stream_name(syms[0])
    } else {
        spec_stream_path(syms.drop_last()) + "/"@ + spec_stream_name(syms.last())
    }
}

/// Build the multiplexed stream path for a symbol list.
pub fn stream_path(symbols: &Vec<String>) -> (r: String)
    ensures
        r@ == spec_stream_path(names_view(symbols@)),
{
    let mut out = String::new();
    let n: usize = symbols.len();
    let mut i: usize = 0;
    while i < n
        invariant
            n == symbols@.len(),
            i <= n,
            out@ == spec_stream_path(names_view(symbols@.take(i as int))),
        decreases n - i,
    {
        proof {
            let pre = names_view(symbols@.take(i as int));
            let post = names_view(symbols@.take(i as int + 1));
            assert(post.drop_last() =~= pre);
            assert(post.last() == symbols@[i as int]@);
            assert(post[0] == names_view(symbols@)[0] || i > 0);
        }
        if i > 0 {
            out.append("/");
        }
        let low = lowercase(symbols[i].as_str());
        out.append(low.as_str());
        out.append("@bookTicker");
        proof {
            let post = names_view(symbols@.take(i as int + 1));
            if i == 0 {
                assert(post.len() == 1);
                assert(post[0] == symbols@[0]@);
                assert(out@ =~= spec_stream_name(symbols@[0]@));
                assert(spec_stream_path(post) == spec_stream_name(post[0]));
            } else {
                assert(out@ =~= spec_stream_path(names_view(symbols@.take(i as int))) + "/"@
                    + spec_stream_name(symbols@[i as int]@));
            }
        }
        i = i + 1;
    }
    proof {
        assert(symbols@.take(n as int) =~= symbols@);
    }
    out
}

/// The streaming futures-exchange adapter's protocol state: endpoints
/// and credentials. The credentials are accepted for the order path and
/// unused for public market data. Socket and channel live with the
/// runtime; this type owns the decisions.
#[derive(Debug)]
pub struct BinanceVenue {
    ws_url: String,
    api_key: String,
    api_secret: String,
    rest_url: String,
}

impl BinanceVenue {
    pub closed spec fn spec_ws_url(&self) -> Seq<char> {
        self.ws_url@
    }

    pub fn new(api_key: String, api_secret: String) -> (r: BinanceVenue)
        ensures
            r.spec_ws_url() == "wss://fstream.binance.com/ws"@,
    {
        BinanceVenue {
            ws_url: String::from_str("wss://fstream.binance.com/ws"),
            rest_url: String::from_str("https://fapi.binance.com/fapi"),
            api_key,
            api_secret,
        }
    }

    /// The full connection URL for a multiplexed subscription: the
    /// websocket endpoint, a slash, and the joined stream path.
    pub fn connection_url(&self, symbols: &Vec<String>) -> (r: String)
        ensures
            r@ == self.spec_ws_url() + "/"@ + spec_stream_path(names_view(symbols@)),
    {
        let mut out = self.ws_url.clone();
        out.append("/");
        let path = stream_path(symbols);
        out.append(path.as_str());
        proof {
            assert(out@ =~= self.spec_ws_url() + "/"@ + spec_stream_path(names_view(symbols@)));
        }
        out
    }
}

impl VenueAdapter for BinanceVenue {
    closed spec fn spec_name(&self) -> Seq<char> {
        "BINANCE_FUTURES"@
    }

    fn name(&self) -> (r: String) {
        String::from_str("BINANCE_FUTURES")
    }

    /// Validates the request. Without a quote channel — which only the
    /// surrounding runtime can attach — no connection can be made, so a
    /// non-empty request reports `ConnectionFailed`.
    fn subscribe_quotes(&self, symbols: Vec<String>) -> (r: Result<(), HftError>) {
        if symbols.len() == 0 {
            return Err(
                HftError::Venue(
                    VenueError::SubscriptionFailed(String::from_str("Empty symbol list")),
                ),
            );
        }
        Err(
            HftError::Venue(
                VenueError::ConnectionFailed(String::from_str("Quote sender not configured")),
            ),
        )
    }

    fn submit_order(&self, order: Order) -> (r: Result<String, HftError>) {
        match validate_order(&order) {
            Ok(_) => Ok(String::from_str("mock_order_id")),
            Err(e) => Err(e),
        }
    }

    fn stop(&self) -> (r: Result<(), HftError>) {
        Ok(())
    }
}

/// A minimal venue adapter: accepts any non-empty subscription and any
/// valid order.
pub struct ExampleVenue {
    pub venue_name: String,
}

impl VenueAdapter for ExampleVenue {
    closed spec fn spec_name(&self) -> Seq<char> {
        self.venue_name@
    }

    fn name(&self) -> (r: String) {
        self.venue_name.clone()
    }

    fn subscribe_quotes(&self, symbols: Vec<String>) -> (r: Result<(), HftError>) {
        if symbols.len() == 0 {
            return Err(
                HftError::Venue(
                    VenueError::SubscriptionFailed(String::from_str("Empty symbol list")),
                ),
            );
        }
        Ok(())
    }

    fn submit_order(&self, order: Order) -> (r: Result<String, HftError>) {
        match validate_order(&order) {
            Ok(_) => Ok(String::from_str("order_id")),
            Err(e) => Err(e),
        }
    }

    fn stop(&self) -> (r: Result<(), HftError>) {
        Ok(())
    }
}

/// Connection lifecycle of a streaming adapter.
#[derive(Debug, Clone, Copy, PartialEq, Eq, Structural)]
pub enum ConnState {
    Disconnected,
    Connecting,
    Connected,
    Reconnecting,
    Failed,
}

/// The supervised connect/reconnect state machine: Disconnected →
/// Connecting → Connected, with transport and connect errors sent back
/// through Reconnecting while attempts remain, and Failed once the
/// bounded attempt budget is exhausted.
///
/// The runtime drives it: `begin_attempt` before each connect,
/// `on_connected` on success, `on_connect_error` on failure — sleeping
/// the returned delay before the next attempt — and `failure_error` for
/// the error surfaced to the caller once Failed.
pub struct ConnectionFsm {
    state: ConnState,
    attempts: u64,
    max_attempts: u64,
    delay_ms: u64,
}

impl ConnectionFsm {
    /// Attempts never pass the bound; the states that allow another
    /// attempt still have budget for it.
    pub closed spec fn wf(&self) -> bool {
        &&& self.max_attempts >= 1
        &&& self.attempts <= self.max_attempts
        &&& (self.state == ConnState::Disconnected ==> self.attempts == 0)
        &&& (self.state == ConnState::Reconnecting ==> self.attempts < self.max_attempts)
    }

    pub closed spec fn spec_state(&self) -> ConnState {
        self.state
    }

    pub closed spec fn spec_attempts(&self) -> u64 {
        self.attempts
    }

    pub closed spec fn spec_max_attempts(&self) -> u64 {
        self.max_attempts
    }

    pub closed spec fn spec_delay_ms(&self) -> u64 {
        self.delay_ms
    }

    pub fn new() -> (r: ConnectionFsm)
        ensures
            r.wf(),
            r.spec_state() == ConnState::Disconnected,
            r.spec_attempts() == 0,
            r.spec_max_attempts() == MAX_RECONNECT_ATTEMPTS,
            r.spec_delay_ms() == RECONNECT_DELAY_MS,
    {
        ConnectionFsm {
            state: ConnState::Disconnected,
            attempts: 0,
            max_attempts: MAX_RECONNECT_ATTEMPTS,
            delay_ms: RECONNECT_DELAY_MS,
        }
    }

    /// A machine with its own retry bound and delay.
    pub fn with_limits(max_attempts: u64, delay_ms: u64) -> (r: ConnectionFsm)
        requires
            max_attempts >= 1,
        ensures
            r.wf(),
            r.spec_state() == ConnState::Disconnected,
            r.spec_attempts() == 0,
            r.spec_max_attempts() == max_attempts,
            r.spec_delay_ms() == delay_ms,
    {
        ConnectionFsm { state: ConnState::Disconnected, attempts: 0, max_attempts, delay_ms }
    }

    pub fn state(&self) -> (r: ConnState)
        ensures
            r == self.spec_state(),
    {
        self.state
    }

    pub fn attempts(&self) -> (r: u64)
        ensures
            r == self.spec_attempts(),
    {
        self.attempts
    }

    /// Start one connection attempt, consuming one unit of the budget.
    pub fn begin_attempt(&mut self)
        requires
            old(self).wf(),
            old(self).spec_state() == ConnState::Disconnected || old(self).spec_state()
                == ConnState::Reconnecting,
        ensures
            final(self).wf(),
            final(self).spec_state() == ConnState::Connecting,
            final(self).spec_attempts() == old(self).spec_attempts() + 1,
            final(self).spec_max_attempts() == old(self).spec_max_attempts(),
            final(self).spec_delay_ms() == old(self).spec_delay_ms(),
    {
        self.state = ConnState::Connecting;
        self.attempts = self.attempts + 1;
    }

    /// The attempt connected.
    pub fn on_connected(&mut self)
        requires
            old(self).wf(),
            old(self).spec_state() == ConnState::Connecting,
        ensures
            final(self).wf(),
            final(self).spec_state() == ConnState::Connected,
            final(self).spec_attempts() == old(self).spec_attempts(),
            final(self).spec_max_attempts() == old(self).spec_max_attempts(),
            final(self).spec_delay_ms() == old(self).spec_delay_ms(),
    {
        self.state = ConnState::Connected;
    }

    /// The attempt failed. While budget remains the machine moves to
    /// Reconnecting and prescribes the inter-attempt delay; once the
    /// bound is reached it moves to Failed and prescribes giving up.
    pub fn on_connect_error(&mut self) -> (retry_after: Option<u64>)
        requires
            old(self).wf(),
            old(self).spec_state() == ConnState::Connecting,
        ensures
            final(self).wf(),
            final(self).spec_attempts() == old(self).spec_attempts(),
            final(self).spec_max_attempts() == old(self).spec_max_attempts(),
            final(self).spec_delay_ms() == old(self).spec_delay_ms(),
            old(self).spec_attempts() < old(self).spec_max_attempts() ==> final(self).spec_state()
                == ConnState::Reconnecting && retry_after == Some(old(self).spec_delay_ms()),
            old(self).spec_attempts() >= old(self).spec_max_attempts() ==> final(self).spec_state()
                == ConnState::Failed && retry_after is None,
    {
        if self.attempts < self.max_attempts {
            self.state = ConnState::Reconnecting;
            Some(self.delay_ms)
        } else {
            self.state = ConnState::Failed;
            None
        }
    }

    /// A transport-level failure of an established connection: only
    /// these re-enter the reconnect loop; while budget remains the
    /// machine prescribes a delayed retry, else it fails.
    pub fn on_transport_error(&mut self) -> (retry_after: Option<u64>)
        requires
            old(self).wf(),
            old(self).spec_state() == ConnState::Connected,
        ensures
            final(self).wf(),
            final(self).spec_attempts() == old(self).spec_attempts(),
            final(self).spec_max_attempts() == old(self).spec_max_attempts(),
            final(self).spec_delay_ms() == old(self).spec_delay_ms(),
            old(self).spec_attempts() < old(self).spec_max_attempts() ==> final(self).spec_state()
                == ConnState::Reconnecting && retry_after == Some(old(self).spec_delay_ms()),
            old(self).spec_attempts() >= old(self).spec_max_attempts() ==> final(self).spec_state()
                == ConnState::Failed && retry_after is None,
    {
        if self.attempts < self.max_attempts {
            self.state = ConnState::Reconnecting;
            Some(self.delay_ms)
        } else {
            self.state = ConnState::Failed;
            None
        }
    }

    /// The error surfaced to the caller after the budget is exhausted:
    /// `ConnectionFailed` carrying the attempt count and the last error.
    pub fn failure_error(&self, last_error: &String) -> (r: HftError)
        requires
            self.spec_state() == ConnState::Failed,
        ensures
            match r {
                HftError::Venue(VenueError::ConnectionFailed(m)) => m@ == "Failed after "@
                    + digits_of(self.spec_attempts() as nat) + " attempts: "@ + last_error@,
                _ => false,
            },
    {
        let mut msg = String::from_str("Failed after ");
        let count = format_u64(self.attempts);
        msg.append(count.as_str());
        msg.append(" attempts: ");
        msg.append(last_error.as_str());
        proof {
            assert(msg@ =~= "Failed after "@ + digits_of(self.spec_attempts() as nat)
                + " attempts: "@ + last_error@);
        }
        HftError::Venue(VenueError::ConnectionFailed(msg))
    }
}

} // verus!
