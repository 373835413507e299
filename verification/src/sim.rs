//! Deterministic core of the simulated venue used to exercise the
//! pipeline without a live exchange.
//!
//! The simulated venue draws random numbers and sleeps in its driving
//! loop; everything it then computes — the mid price moved by a drawn
//! fraction, the proportional spread, the two sides of the synthetic
//! quote — is here, as functions of the drawn values, so every draw
//! leads to a well-formed quote.

use vstd::prelude::*;
use vstd::string::StringExecFns;
use crate::fixed::PRICE_SCALE;
use crate::types::Quote;

verus! {

/// Configuration of a simulated venue. Probabilities are parts per
/// million of a drawn value; prices are scaled by `PRICE_SCALE`.
#[derive(Debug, Clone)]
pub struct MockVenueConfig {
    pub symbol_base_prices: Vec<(String, i64)>,
    pub quote_interval_ms: u64,
    pub latency_ms: u64,
    /// Chance to skip a tick as a simulated error, in parts per million.
    pub error_per_million: u32,
    /// Chance to stall a tick as a simulated disconnect, in parts per
    /// million.
    pub disconnect_per_million: u32,
}

impl Default for MockVenueConfig {
    /// Two liquid symbols, a 100 ms tick, 5 ms latency, a 1% error
    /// chance and a 0.1% disconnect chance.
    fn default() -> (r: MockVenueConfig)
        ensures
            r.symbol_base_prices@.len() == 2,
            r.symbol_base_prices@[0].0@ == "BTCUSDT"@,
            r.symbol_base_prices@[0].1 == 50_000 * PRICE_SCALE,
            r.symbol_base_prices@[1].0@ == "ETHUSDT"@,
            r.symbol_base_prices@[1].1 == 3_000 * PRICE_SCALE,
            r.quote_interval_ms == 100,
            r.latency_ms == 5,
            r.error_per_million == 10_000,
            r.disconnect_per_million == 1_000,
    {
        let mut symbol_base_prices: Vec<(String, i64)> = Vec::new();
        symbol_base_prices.push((String::from_str("BTCUSDT"), 5_000_000_000_000i64));
        symbol_base_prices.push((String::from_str("ETHUSDT"), 300_000_000_000i64));
        MockVenueConfig {
            symbol_base_prices,
            quote_interval_ms: 100,
            latency_ms: 5,
            error_per_million: 10_000,
            disconnect_per_million: 1_000,
        }
    }
}

/// The base price configured for a symbol: the first matching entry, or
/// a default of 100 whole units.
pub open spec fn spec_base_price(entries: Seq<(String, i64)>, symbol: Seq<char>) -> int
    decreases entries.len(),
{
    if entries.len() == 0 {
        100 * (PRICE_SCALE as int)
    } else if entries[0].0@ == symbol {
        entries[0].1 as int
    } else {
        spec_base_price(entries.skip(1), symbol)
    }
}

impl MockVenueConfig {
    /// Look up a symbol's configured base price.
    pub fn base_price(&self, symbol: &String) -> (r: i64)
        ensures
            r == spec_base_price(self.symbol_base_prices@, symbol@),
    {
        let n: usize = self.symbol_base_prices.len();
        let mut i: usize = 0;
        proof {
            assert(self.symbol_base_prices@.skip(0) =~= self.symbol_base_prices@);
        }
        while i < n
            invariant
                n == self.symbol_base_prices@.len(),
                i <= n,
                spec_base_price(self.symbol_base_prices@, symbol@) == spec_base_price(
                    self.symbol_base_prices@.skip(i as int),
                    symbol@,
                ),
            decreases n - i,
        {
            proof {
                let rest = self.symbol_base_prices@.skip(i as int);
                assert(rest[0] == self.symbol_base_prices@[i as int]);
                assert(rest.skip(1) =~= self.symbol_base_prices@.skip(i as int + 1));
            }
            if self.symbol_base_prices[i].0 == *symbol {
                return self.symbol_base_prices[i].1;
            }
            i = i + 1;
        }
        proof {
            assert(self.symbol_base_prices@.skip(n as int).len() == 0);
        }
        100 * PRICE_SCALE
    }
}

/// The mid price after a drawn movement of `ppm` parts per million of
/// the base.
pub open spec fn mock_mid(base: int, ppm: int) -> int {
    if ppm >= 0 {
        base + (base * ppm) / 1_000_000
    } else {
        base - (base * (-ppm)) / 1_000_000
    }
}

/// The simulated venue quotes a 0.02% spread around the mid.
pub open spec fn mock_spread(mid: int) -> int {
    mid / 5_000
}

pub open spec fn mock_bid(base: int, ppm: int) -> int {
    mock_mid(base, ppm) - mock_spread(mock_mid(base, ppm)) / 2
}

pub open spec fn mock_ask(base: int, ppm: int) -> int {
    mock_mid(base, ppm) + (mock_spread(mock_mid(base, ppm)) - mock_spread(
        mock_mid(base, ppm),
    ) / 2)
}

/// Build one synthetic quote from the drawn movement and sizes. The
/// price sides stand symmetrically around the moved mid, the bid never
/// above the ask, and both strictly positive — whatever was drawn.
pub fn synth_quote(
    symbol: String,
    venue: String,
    base: i64,
    movement_ppm: i64,
    bid_size: i64,
    ask_size: i64,
    timestamp: u64,
) -> (q: Quote)
    requires
        0 < base <= 100_000_000_000_000i64,
        -500_000 <= movement_ppm <= 500_000,
        bid_size > 0,
        ask_size > 0,
    ensures
        q.symbol@ == symbol@,
        q.venue@ == venue@,
        q.timestamp == timestamp,
        q.bid_size == bid_size,
        q.ask_size == ask_size,
        q.bid == mock_bid(base as int, movement_ppm as int),
        q.ask == mock_ask(base as int, movement_ppm as int),
        0 < q.bid <= q.ask,
{
    let base_u: u128 = base as u128;
    let ppm_abs: u128 = if movement_ppm >= 0 {
        movement_ppm as u128
    } else {
        (-movement_ppm) as u128
    };
    proof {
        assert(base_u * ppm_abs <= 100_000_000_000_000u128 * 500_000u128) by (nonlinear_arith)
            requires
                0 <= base_u <= 100_000_000_000_000u128,
                0 <= ppm_abs <= 500_000,
        ;
    }
    let delta: u128 = (base_u * ppm_abs) / 1_000_000;
    proof {
        assert(base_u * ppm_abs <= base_u * 500_000) by (nonlinear_arith)
            requires
                0 <= ppm_abs <= 500_000,
                base_u >= 0,
        ;
        assert(delta * 1_000_000 <= base_u * ppm_abs) by (nonlinear_arith)
            requires
                delta == (base_u * ppm_abs) / 1_000_000,
                base_u * ppm_abs >= 0,
        ;
        assert(delta <= base_u / 2) by (nonlinear_arith)
            requires
                delta * 1_000_000 <= base_u * 500_000,
                base_u >= 0,
                delta >= 0,
        ;
    }
    let mid_u: u128 = if movement_ppm >= 0 {
        base_u + delta
    } else {
        base_u - delta
    };
    proof {
        assert(mid_u >= base_u - base_u / 2);
        assert(mid_u >= 1);
        assert(mid_u == mock_mid(base as int, movement_ppm as int));
    }
    let spread: u128 = mid_u / 5_000;
    let half: u128 = spread / 2;
    let bid: i64 = (mid_u - half) as i64;
    let ask: i64 = (mid_u + (spread - half)) as i64;
    proof {
        assert(half <= mid_u / 2);
        assert(mid_u - half >= 1);
        assert(mid_u + spread <= 0x7fff_ffff_ffff_ffffu128);
    }
    Quote { symbol, bid, ask, bid_size, ask_size, venue, timestamp }
}

} // verus!
