//! Core value types: quotes and orders.
//!
//! All prices and sizes are fixed-point integers scaled by
//! [`crate::fixed::PRICE_SCALE`] (10^8 units per 1.0).

use vstd::prelude::*;
use vstd::string::StringExecFns;

verus! {

/// A single venue's best-bid/best-ask snapshot for one symbol at one
/// instant. Immutable value; duplicates are valid (repeated ticks).
#[derive(Debug, Clone)]
pub struct Quote {
    pub symbol: String,
    /// Best bid price, scaled by `PRICE_SCALE`.
    pub bid: i64,
    /// Best ask price, scaled by `PRICE_SCALE`.
    pub ask: i64,
    /// Size available at the bid, scaled by `PRICE_SCALE`.
    pub bid_size: i64,
    /// Size available at the ask, scaled by `PRICE_SCALE`.
    pub ask_size: i64,
    pub venue: String,
    /// Milliseconds since the Unix epoch.
    pub timestamp: u64,
}

/// An order bound for a venue (execution path; carried for interface
/// completeness, not elaborated by this crate).
#[derive(Debug, Clone)]
pub struct Order {
    pub symbol: String,
    pub side: OrderSide,
    /// Quantity, scaled by `PRICE_SCALE`; must be strictly positive.
    pub quantity: i64,
    /// Limit price, scaled by `PRICE_SCALE`; must be strictly positive
    /// for limit orders.
    pub price: i64,
    pub venue: String,
    pub order_type: OrderType,
}

#[derive(Debug, Clone, Copy, PartialEq, Eq, Structural)]
pub enum OrderSide {
    Buy,
    Sell,
}

#[derive(Debug, Clone, Copy, PartialEq, Eq, Structural)]
pub enum OrderType {
    Market,
    Limit,
}

pub open spec fn order_type_label(t: OrderType) -> Seq<char> {
    match t {
        OrderType::Market => "market"@,
        OrderType::Limit => "limit"@,
    }
}

impl OrderType {
    /// Lower-case label used when an order type is rendered as text.
    pub fn label(&self) -> (r: String)
        ensures
            r@ == order_type_label(*self),
    {
        match self {
            OrderType::Market => String::from_str("market"),
            OrderType::Limit => String::from_str("limit"),
        }
    }
}

} // verus!
