//! Market-data pipeline core for a trading engine.
//!
//! The crate models the data plane of a quote-driven trading system: venue
//! connectivity (subscription addressing, bounded reconnect, message
//! validation), a quote-routing gateway with partial-failure semantics, and
//! per-symbol order books keyed by exact fixed-point prices.
//!
//! Prices and sizes are carried as integers scaled by `fixed::PRICE_SCALE`
//! (10^8), so price ordering is total and exact; the decimal codec in
//! `fixed` converts between wire strings and scaled values.

pub mod book;
pub mod error;
pub mod fixed;
pub mod gateway;
pub mod sim;
pub mod ticker;
pub mod types;
pub mod venues;
