//! Per-symbol order books over exact scaled prices.
//!
//! Each side of a book is a sorted ladder of (scaled price, scaled size)
//! levels with one entry per price and strictly positive sizes; its
//! mathematical view is a `Map<i64, i64>` from price to size. A quote
//! upserts a level, a zero (or negative) size removes it, and the best
//! bid/ask are exactly the maximal/minimal keys.

use vstd::prelude::*;
use crate::types::Quote;

verus! {

/// One side of an order book: price levels sorted by scaled price,
/// ascending, one entry per price, all prices and sizes strictly
/// positive.
pub struct PriceLadder {
    levels: Vec<(i64, i64)>,
}

pub open spec fn sorted_strict(s: Seq<(i64, i64)>) -> bool {
    forall|i: int, j: int| 0 <= i < j < s.len() ==> (#[trigger] s[i]).0 < (#[trigger] s[j]).0
}

pub open spec fn positive_levels(s: Seq<(i64, i64)>) -> bool {
    forall|i: int| 0 <= i < s.len() ==> (#[trigger] s[i]).0 > 0 && (#[trigger] s[i]).1 > 0
}

/// Price-to-size map denoted by a level sequence.
pub open spec fn ladder_map(s: Seq<(i64, i64)>) -> Map<i64, i64>
    decreases s.len(),
{
    if s.len() == 0 {
        Map::<i64, i64>::empty()
    } else {
        ladder_map(s.drop_last()).insert(s.last().0, s.last().1)
    }
}

/// Membership in the ladder map is exactly having an entry somewhere in
/// the sequence.
pub proof fn lemma_ladder_contains(s: Seq<(i64, i64)>)
    ensures
        forall|p: i64|
            ladder_map(s).dom().contains(p) <==> exists|i: int|
                0 <= i < s.len() && (#[trigger] s[i]).0 == p,
    decreases s.len(),
{
    if s.len() > 0 {
        lemma_ladder_contains(s.drop_last());
        assert forall|p: i64| ladder_map(s).dom().contains(p) implies exists|i: int|
            0 <= i < s.len() && (#[trigger] s[i]).0 == p by {
            if p == s.last().0 {
                assert(s[s.len() - 1].0 == p);
            } else {
                assert(ladder_map(s.drop_last()).dom().contains(p));
                let i = choose|i: int|
                    0 <= i < s.drop_last().len() && (#[trigger] s.drop_last()[i]).0 == p;
                assert(s.drop_last()[i] == s[i]);
                assert(s[i].0 == p);
            }
        }
        assert forall|p: i64|
            (exists|i: int| 0 <= i < s.len() && (#[trigger] s[i]).0 == p) implies ladder_map(
            s,
        ).dom().contains(p) by {
            let i = choose|i: int| 0 <= i < s.len() && (#[trigger] s[i]).0 == p;
            if i < s.len() - 1 {
                assert(s.drop_last()[i].0 == p);
                assert(exists|j: int|
                    0 <= j < s.drop_last().len() && (#[trigger] s.drop_last()[j]).0 == p);
                assert(ladder_map(s.drop_last()).dom().contains(p));
            } else {
                assert(s.last().0 == p);
            }
        }
    }
}

/// In a sorted ladder, the entry at index `i` gives the map value of its
/// price.
pub proof fn lemma_ladder_value(s: Seq<(i64, i64)>, i: int)
    requires
        sorted_strict(s),
        0 <= i < s.len(),
    ensures
        ladder_map(s).dom().contains(s[i].0),
        ladder_map(s)[s[i].0] == s[i].1,
    decreases s.len(),
{
    if i == s.len() - 1 {
        assert(s.last() == s[i]);
    } else {
        assert(sorted_strict(s.drop_last()));
        assert(s.drop_last()[i] == s[i]);
        lemma_ladder_value(s.drop_last(), i);
        assert(s[i].0 < s.last().0);
    }
}

/// A sorted ladder has as many map entries as sequence entries.
pub proof fn lemma_ladder_len(s: Seq<(i64, i64)>)
    requires
        sorted_strict(s),
    ensures
        ladder_map(s).dom().finite(),
        ladder_map(s).dom().len() == s.len(),
    decreases s.len(),
{
    if s.len() == 0 {
        assert(ladder_map(s).dom() =~= Set::<i64>::empty());
    } else {
        assert(sorted_strict(s.drop_last()));
        lemma_ladder_len(s.drop_last());
        lemma_ladder_contains(s.drop_last());
        let p = s.last().0;
        assert(!ladder_map(s.drop_last()).dom().contains(p)) by {
            if ladder_map(s.drop_last()).dom().contains(p) {
                let i = choose|i: int|
                    0 <= i < s.drop_last().len() && (#[trigger] s.drop_last()[i]).0 == p;
                assert(s[i].0 == p);
                assert(s[i].0 < s.last().0);
            }
        }
        assert(ladder_map(s).dom() =~= ladder_map(s.drop_last()).dom().insert(p));
    }
}

/// Inserting a fresh price at its sorted position inserts it in the map.
proof fn lemma_ladder_insert(s: Seq<(i64, i64)>, i: int, p: i64, sz: i64)
    requires
        0 <= i <= s.len(),
        forall|j: int| 0 <= j < i ==> (#[trigger] s[j]).0 < p,
        forall|j: int| i <= j < s.len() ==> (#[trigger] s[j]).0 > p,
    ensures
        ladder_map(s.insert(i, (p, sz))) == ladder_map(s).insert(p, sz),
    decreases s.len(),
{
    let t = s.insert(i, (p, sz));
    if i == s.len() {
        assert(t =~= s.push((p, sz)));
        assert(t.drop_last() =~= s);
        assert(t.last() == (p, sz));
    } else {
        assert(t.len() == s.len() + 1);
        assert(t.last() == s.last());
        assert(t.drop_last() =~= s.drop_last().insert(i, (p, sz)));
        assert(forall|j: int| 0 <= j < i ==> (#[trigger] s.drop_last()[j]).0 < p);
        assert(forall|j: int| i <= j < s.drop_last().len() ==> (#[trigger] s.drop_last()[j]).0 > p);
        lemma_ladder_insert(s.drop_last(), i, p, sz);
        assert(s.last().0 > p);
        assert(ladder_map(t) == ladder_map(s.drop_last()).insert(p, sz).insert(
            s.last().0,
            s.last().1,
        ));
        assert(ladder_map(s.drop_last()).insert(p, sz).insert(s.last().0, s.last().1)
            =~= ladder_map(s.drop_last()).insert(s.last().0, s.last().1).insert(p, sz));
    }
}

/// Overwriting the size at an existing price updates the map entry.
proof fn lemma_ladder_update(s: Seq<(i64, i64)>, i: int, sz: i64)
    requires
        sorted_strict(s),
        0 <= i < s.len(),
    ensures
        ladder_map(s.update(i, (s[i].0, sz))) == ladder_map(s).insert(s[i].0, sz),
    decreases s.len(),
{
    let p = s[i].0;
    let t = s.update(i, (p, sz));
    if i == s.len() - 1 {
        assert(t.drop_last() =~= s.drop_last());
        assert(t.last() == (p, sz));
        assert(ladder_map(s).insert(p, sz) =~= ladder_map(s.drop_last()).insert(
            s.last().0,
            s.last().1,
        ).insert(p, sz));
        assert(ladder_map(s.drop_last()).insert(s.last().0, s.last().1).insert(p, sz)
            =~= ladder_map(s.drop_last()).insert(p, sz));
    } else {
        assert(sorted_strict(s.drop_last()));
        assert(s.drop_last()[i] == s[i]);
        lemma_ladder_update(s.drop_last(), i, sz);
        assert(t.drop_last() =~= s.drop_last().update(i, (p, sz)));
        assert(t.last() == s.last());
        assert(s[i].0 < s.last().0);
        assert(ladder_map(t) == ladder_map(s.drop_last()).insert(p, sz).insert(
            s.last().0,
            s.last().1,
        ));
        assert(ladder_map(s.drop_last()).insert(p, sz).insert(s.last().0, s.last().1)
            =~= ladder_map(s.drop_last()).insert(s.last().0, s.last().1).insert(p, sz));
    }
}

/// Removing the entry at an existing price removes it from the map.
proof fn lemma_ladder_remove(s: Seq<(i64, i64)>, i: int)
    requires
        sorted_strict(s),
        0 <= i < s.len(),
    ensures
        ladder_map(s.remove(i)) == ladder_map(s).remove(s[i].0),
    decreases s.len(),
{
    let p = s[i].0;
    let t = s.remove(i);
    if i == s.len() - 1 {
        assert(t =~= s.drop_last());
        lemma_ladder_contains(s.drop_last());
        assert(!ladder_map(s.drop_last()).dom().contains(p)) by {
            if ladder_map(s.drop_last()).dom().contains(p) {
                let j = choose|j: int|
                    0 <= j < s.drop_last().len() && (#[trigger] s.drop_last()[j]).0 == p;
                assert(s[j].0 == p);
                assert(s[j].0 < s[i].0);
            }
        }
        assert(ladder_map(s).remove(p) =~= ladder_map(s.drop_last()));
    } else {
        assert(sorted_strict(s.drop_last()));
        assert(s.drop_last()[i] == s[i]);
        lemma_ladder_remove(s.drop_last(), i);
        assert(t.drop_last() =~= s.drop_last().remove(i));
        assert(t.last() == s.last());
        assert(s[i].0 < s.last().0);
        assert(ladder_map(t) == ladder_map(s.drop_last()).remove(p).insert(
            s.last().0,
            s.last().1,
        ));
        assert(ladder_map(s.drop_last()).remove(p).insert(s.last().0, s.last().1)
            =~= ladder_map(s.drop_last()).insert(s.last().0, s.last().1).remove(p));
    }
}

impl View for PriceLadder {
    type V = Map<i64, i64>;

    closed spec fn view(&self) -> Map<i64, i64> {
        ladder_map(self.levels@)
    }
}

impl PriceLadder {
    /// Structural invariant: sorted, unique, positive.
    pub closed spec fn wf(&self) -> bool {
        sorted_strict(self.levels@) && positive_levels(self.levels@)
    }

    pub fn new() -> (r: PriceLadder)
        ensures
            r.wf(),
            r@ == Map::<i64, i64>::empty(),
            r@.dom().len() == 0,
    {
        let r = PriceLadder { levels: Vec::new() };
        proof {
            lemma_ladder_len(r.levels@);
        }
        r
    }

    /// Number of price levels on this side.
    pub fn len(&self) -> (r: usize)
        requires
            self.wf(),
        ensures
            r == self@.dom().len(),
    {
        proof {
            lemma_ladder_len(self.levels@);
        }
        self.levels.len()
    }

    /// Find the first index whose price is `>= price`.
    fn lower_bound(&self, price: i64) -> (r: usize)
        requires
            self.wf(),
        ensures
            r <= self.levels@.len(),
            forall|j: int| 0 <= j < r ==> (#[trigger] self.levels@[j]).0 < price,
            r < self.levels@.len() ==> self.levels@[r as int].0 >= price,
    {
        let mut i: usize = 0;
        let n: usize = self.levels.len();
        while i < n && self.levels[i].0 < price
            invariant
                n == self.levels@.len(),
                i <= n,
                forall|j: int| 0 <= j < i ==> (#[trigger] self.levels@[j]).0 < price,
            decreases n - i,
        {
            i = i + 1;
        }
        i
    }

    /// Insert or overwrite the level at `price` with `size`.
    pub fn upsert(&mut self, price: i64, size: i64)
        requires
            old(self).wf(),
            price > 0,
            size > 0,
        ensures
            final(self).wf(),
            final(self)@ == old(self)@.insert(price, size),
    {
        let i: usize = self.lower_bound(price);
        let n: usize = self.levels.len();
        if i < n && self.levels[i].0 == price {
            let _replaced = self.levels.remove(i);
            self.levels.insert(i, (price, size));
            proof {
                assert(self.levels@ =~= old(self).levels@.update(i as int, (price, size)));
                lemma_ladder_update(old(self).levels@, i as int, size);
            }
        } else {
            self.levels.insert(i, (price, size));
            proof {
                assert(forall|j: int|
                    i <= j < old(self).levels@.len() ==> (#[trigger] old(self).levels@[j]).0 > price)
                    by {
                    assert(forall|j: int|
                        i < j < old(self).levels@.len() ==> old(self).levels@[i as int].0 < (
                        #[trigger] old(self).levels@[j]).0);
                };
                lemma_ladder_insert(old(self).levels@, i as int, price, size);
            }
        }
    }

    /// Remove the level at `price`, if present.
    pub fn remove(&mut self, price: i64)
        requires
            old(self).wf(),
        ensures
            final(self).wf(),
            final(self)@ == old(self)@.remove(price),
    {
        let i: usize = self.lower_bound(price);
        let n: usize = self.levels.len();
        if i < n && self.levels[i].0 == price {
            let _removed = self.levels.remove(i);
            proof {
                lemma_ladder_remove(old(self).levels@, i as int);
            }
        } else {
            proof {
                lemma_ladder_contains(self.levels@);
                assert(!ladder_map(self.levels@).dom().contains(price)) by {
                    if ladder_map(self.levels@).dom().contains(price) {
                        let j = choose|j: int|
                            0 <= j < self.levels@.len() && (#[trigger] self.levels@[j]).0 == price;
                        if j < i {
                            assert(self.levels@[j].0 < price);
                        } else {
                            assert(self.levels@[i as int].0 >= price);
                            if j > i {
                                assert(self.levels@[i as int].0 < self.levels@[j].0);
                            }
                        }
                    }
                }
                assert(self@ =~= self@.remove(price));
            }
        }
    }

    /// The level with the greatest price, if any.
    pub fn max_level(&self) -> (r: Option<(i64, i64)>)
        requires
            self.wf(),
        ensures
            match r {
                Some(level) => {
                    &&& self@.dom().contains(level.0)
                    &&& self@[level.0] == level.1
                    &&& forall|q: i64| self@.dom().contains(q) ==> q <= level.0
                },
                None => self@.dom() == Set::<i64>::empty(),
            },
    {
        let n: usize = self.levels.len();
        if n == 0 {
            proof {
                assert(self@.dom() =~= Set::<i64>::empty());
            }
            None
        } else {
            let level = self.levels[n - 1];
            proof {
                lemma_ladder_value(self.levels@, n as int - 1);
                lemma_ladder_contains(self.levels@);
                assert forall|q: i64| self@.dom().contains(q) implies q <= level.0 by {
                    let j = choose|j: int|
                        0 <= j < self.levels@.len() && (#[trigger] self.levels@[j]).0 == q;
                    if j < n - 1 {
                        assert(self.levels@[j].0 < self.levels@[n - 1].0);
                    }
                }
            }
            Some(level)
        }
    }

    /// The level with the least price, if any.
    pub fn min_level(&self) -> (r: Option<(i64, i64)>)
        requires
            self.wf(),
        ensures
            match r {
                Some(level) => {
                    &&& self@.dom().contains(level.0)
                    &&& self@[level.0] == level.1
                    &&& forall|q: i64| self@.dom().contains(q) ==> q >= level.0
                },
                None => self@.dom() == Set::<i64>::empty(),
            },
    {
        let n: usize = self.levels.len();
        if n == 0 {
            proof {
                assert(self@.dom() =~= Set::<i64>::empty());
            }
            None
        } else {
            let level = self.levels[0];
            proof {
                lemma_ladder_value(self.levels@, 0);
                lemma_ladder_contains(self.levels@);
                assert forall|q: i64| self@.dom().contains(q) implies q >= level.0 by {
                    let j = choose|j: int|
                        0 <= j < self.levels@.len() && (#[trigger] self.levels@[j]).0 == q;
                    if j > 0 {
                        assert(self.levels@[0].0 < self.levels@[j].0);
                    }
                }
            }
            Some(level)
        }
    }
}

/// The side of a book after applying one quoted (price, size) pair: a
/// non-positive price leaves the side alone, a positive size upserts the
/// level, and a zero or negative size removes it.
pub open spec fn side_after(m: Map<i64, i64>, price: i64, size: i64) -> Map<i64, i64> {
    if price <= 0 {
        m
    } else if size > 0 {
        m.insert(price, size)
    } else {
        m.remove(price)
    }
}

/// A two-sided order book for one symbol.
pub struct OrderBook {
    symbol: String,
    bids: PriceLadder,
    asks: PriceLadder,
}

impl OrderBook {
    pub closed spec fn wf(&self) -> bool {
        self.bids.wf() && self.asks.wf()
    }

    pub closed spec fn spec_symbol(&self) -> Seq<char> {
        self.symbol@
    }

    pub closed spec fn spec_bids(&self) -> Map<i64, i64> {
        self.bids@
    }

    pub closed spec fn spec_asks(&self) -> Map<i64, i64> {
        self.asks@
    }

    /// A fresh book with no levels on either side.
    pub fn new(symbol: String) -> (r: OrderBook)
        ensures
            r.wf(),
            r.spec_symbol() == symbol@,
            r.spec_bids() == Map::<i64, i64>::empty(),
            r.spec_asks() == Map::<i64, i64>::empty(),
    {
        OrderBook { symbol, bids: PriceLadder::new(), asks: PriceLadder::new() }
    }

    /// Apply one quote: each side with a positive price is upserted at
    /// that price, where a non-positive size removes the level instead.
    pub fn update(&mut self, quote: &Quote)
        requires
            old(self).wf(),
        ensures
            final(self).wf(),
            final(self).spec_symbol() == old(self).spec_symbol(),
            final(self).spec_bids() == side_after(old(self).spec_bids(), quote.bid, quote.bid_size),
            final(self).spec_asks() == side_after(old(self).spec_asks(), quote.ask, quote.ask_size),
    {
        if quote.bid > 0 {
            if quote.bid_size > 0 {
                self.bids.upsert(quote.bid, quote.bid_size);
            } else {
                self.bids.remove(quote.bid);
            }
        }
        if quote.ask > 0 {
            if quote.ask_size > 0 {
                self.asks.upsert(quote.ask, quote.ask_size);
            } else {
                self.asks.remove(quote.ask);
            }
        }
    }

    /// The highest bid level, as (scaled price, scaled size).
    pub fn best_bid(&self) -> (r: Option<(i64, i64)>)
        requires
            self.wf(),
        ensures
            match r {
                Some(level) => {
                    &&& self.spec_bids().dom().contains(level.0)
                    &&& self.spec_bids()[level.0] == level.1
                    &&& forall|q: i64| self.spec_bids().dom().contains(q) ==> q <= level.0
                },
                None => self.spec_bids().dom() == Set::<i64>::empty(),
            },
    {
        self.bids.max_level()
    }

    /// The lowest ask level, as (scaled price, scaled size).
    pub fn best_ask(&self) -> (r: Option<(i64, i64)>)
        requires
            self.wf(),
        ensures
            match r {
                Some(level) => {
                    &&& self.spec_asks().dom().contains(level.0)
                    &&& self.spec_asks()[level.0] == level.1
                    &&& forall|q: i64| self.spec_asks().dom().contains(q) ==> q >= level.0
                },
                None => self.spec_asks().dom() == Set::<i64>::empty(),
            },
    {
        self.asks.min_level()
    }

    /// Number of bid levels.
    pub fn bid_levels(&self) -> (r: usize)
        requires
            self.wf(),
        ensures
            r == self.spec_bids().dom().len(),
    {
        self.bids.len()
    }

    /// Number of ask levels.
    pub fn ask_levels(&self) -> (r: usize)
        requires
            self.wf(),
        ensures
            r == self.spec_asks().dom().len(),
    {
        self.asks.len()
    }

    /// The symbol this book aggregates.
    pub fn symbol(&self) -> (r: &String)
        ensures
            r@ == self.spec_symbol(),
    {
        &self.symbol
    }
}


/// The side of a book after a whole sequence of (price, size) updates,
/// applied first to last.
pub open spec fn side_after_all(m: Map<i64, i64>, qs: Seq<(i64, i64)>) -> Map<i64, i64>
    decreases qs.len(),
{
    if qs.len() == 0 {
        m
    } else {
        side_after(side_after_all(m, qs.drop_last()), qs.last().0, qs.last().1)
    }
}

/// Level upsert law: updating an existing price with a new positive size
/// changes only that level's size, and the level count is unchanged.
pub proof fn lemma_upsert_existing(m: Map<i64, i64>, price: i64, size: i64)
    requires
        m.dom().finite(),
        m.dom().contains(price),
        price > 0,
        size > 0,
    ensures
        side_after(m, price, size).dom() == m.dom(),
        side_after(m, price, size)[price] == size,
        forall|q: i64|
            q != price && m.dom().contains(q) ==> side_after(m, price, size)[q] == m[q],
        side_after(m, price, size).dom().len() == m.dom().len(),
{
    assert(side_after(m, price, size).dom() =~= m.dom());
}

/// Serialized-update law: updates at pairwise distinct positive prices
/// with positive sizes — one per concurrent task, applied in whatever
/// order the write lock serializes them — leave exactly one level per
/// update, each with its own size: no update is lost.
pub proof fn lemma_distinct_updates(qs: Seq<(i64, i64)>)
    requires
        forall|i: int| 0 <= i < qs.len() ==> (#[trigger] qs[i]).0 > 0 && (#[trigger] qs[i]).1 > 0,
        forall|i: int, j: int| 0 <= i < j < qs.len() ==> (#[trigger] qs[i]).0 != (#[trigger] qs[j]).0,
    ensures
        side_after_all(Map::<i64, i64>::empty(), qs).dom().finite(),
        side_after_all(Map::<i64, i64>::empty(), qs).dom().len() == qs.len(),
        forall|i: int|
            0 <= i < qs.len() ==> side_after_all(Map::<i64, i64>::empty(), qs)[(
            #[trigger] qs[i]).0] == qs[i].1,
        forall|p: i64|
            side_after_all(Map::<i64, i64>::empty(), qs).dom().contains(p) <==> exists|i: int|
                0 <= i < qs.len() && (#[trigger] qs[i]).0 == p,
    decreases qs.len(),
{
    let m = side_after_all(Map::<i64, i64>::empty(), qs);
    if qs.len() == 0 {
        assert(m.dom() =~= Set::<i64>::empty());
    } else {
        let pre = qs.drop_last();
        assert(forall|i: int| 0 <= i < pre.len() ==> #[trigger] pre[i] == qs[i]);
        lemma_distinct_updates(pre);
        let m0 = side_after_all(Map::<i64, i64>::empty(), pre);
        let p = qs.last().0;
        let sz = qs.last().1;
        assert(qs[qs.len() - 1] == qs.last());
        assert(p > 0 && sz > 0);
        assert(m == m0.insert(p, sz));
        assert(!m0.dom().contains(p)) by {
            if m0.dom().contains(p) {
                let i = choose|i: int| 0 <= i < pre.len() && (#[trigger] pre[i]).0 == p;
                assert(qs[i].0 == qs[qs.len() - 1].0);
            }
        }
        assert(m.dom() =~= m0.dom().insert(p));
        assert forall|i: int| 0 <= i < qs.len() implies m[(#[trigger] qs[i]).0] == qs[i].1 by {
            if i < qs.len() - 1 {
                assert(pre[i] == qs[i]);
                assert(m0[qs[i].0] == qs[i].1);
                assert(qs[i].0 != p);
            }
        }
        assert forall|q: i64| m.dom().contains(q) implies exists|i: int|
            0 <= i < qs.len() && (#[trigger] qs[i]).0 == q by {
            if q == p {
                assert(qs[qs.len() - 1].0 == q);
            } else {
                assert(m0.dom().contains(q));
                let i = choose|i: int| 0 <= i < pre.len() && (#[trigger] pre[i]).0 == q;
                assert(qs[i].0 == q);
            }
        }
        assert forall|q: i64|
            (exists|i: int| 0 <= i < qs.len() && (#[trigger] qs[i]).0 == q) implies m.dom().contains(
            q,
        ) by {
            let i = choose|i: int| 0 <= i < qs.len() && (#[trigger] qs[i]).0 == q;
            if i < qs.len() - 1 {
                assert(pre[i].0 == q);
                assert(exists|j: int| 0 <= j < pre.len() && (#[trigger] pre[j]).0 == q);
                assert(m0.dom().contains(q));
            }
        }
    }
}

/// Symbol-to-book map denoted by a builder's entry sequence.
pub open spec fn books_map(s: Seq<(String, OrderBook)>) -> Map<Seq<char>, OrderBook>
    decreases s.len(),
{
    if s.len() == 0 {
        Map::<Seq<char>, OrderBook>::empty()
    } else {
        books_map(s.drop_last()).insert(s.last().0@, s.last().1)
    }
}

pub open spec fn distinct_symbols(s: Seq<(String, OrderBook)>) -> bool {
    forall|i: int, j: int| 0 <= i < j < s.len() ==> (#[trigger] s[i]).0@ != (#[trigger] s[j]).0@
}

proof fn lemma_books_contains(s: Seq<(String, OrderBook)>)
    ensures
        forall|k: Seq<char>|
            books_map(s).dom().contains(k) <==> exists|i: int|
                0 <= i < s.len() && (#[trigger] s[i]).0@ == k,
    decreases s.len(),
{
    if s.len() > 0 {
        lemma_books_contains(s.drop_last());
        assert forall|k: Seq<char>| books_map(s).dom().contains(k) implies exists|i: int|
            0 <= i < s.len() && (#[trigger] s[i]).0@ == k by {
            if k == s.last().0@ {
                assert(s[s.len() - 1].0@ == k);
            } else {
                assert(books_map(s.drop_last()).dom().contains(k));
                let i = choose|i: int|
                    0 <= i < s.drop_last().len() && (#[trigger] s.drop_last()[i]).0@ == k;
                assert(s.drop_last()[i] == s[i]);
                assert(s[i].0@ == k);
            }
        }
        assert forall|k: Seq<char>|
            (exists|i: int| 0 <= i < s.len() && (#[trigger] s[i]).0@ == k) implies books_map(
            s,
        ).dom().contains(k) by {
            let i = choose|i: int| 0 <= i < s.len() && (#[trigger] s[i]).0@ == k;
            if i < s.len() - 1 {
                assert(s.drop_last()[i].0@ == k);
                assert(exists|j: int|
                    0 <= j < s.drop_last().len() && (#[trigger] s.drop_last()[j]).0@ == k);
                assert(books_map(s.drop_last()).dom().contains(k));
            } else {
                assert(s.last().0@ == k);
            }
        }
    }
}

proof fn lemma_books_len(s: Seq<(String, OrderBook)>)
    requires
        distinct_symbols(s),
    ensures
        books_map(s).dom().finite(),
        books_map(s).dom().len() == s.len(),
    decreases s.len(),
{
    if s.len() == 0 {
        assert(books_map(s).dom() =~= Set::<Seq<char>>::empty());
    } else {
        assert(distinct_symbols(s.drop_last()));
        lemma_books_len(s.drop_last());
        lemma_books_contains(s.drop_last());
        let k = s.last().0@;
        assert(!books_map(s.drop_last()).dom().contains(k)) by {
            if books_map(s.drop_last()).dom().contains(k) {
                let i = choose|i: int|
                    0 <= i < s.drop_last().len() && (#[trigger] s.drop_last()[i]).0@ == k;
                assert(s[i].0@ == k);
                assert(s[i].0@ != s.last().0@);
            }
        }
        assert(books_map(s).dom() =~= books_map(s.drop_last()).dom().insert(k));
    }
}

proof fn lemma_books_value(s: Seq<(String, OrderBook)>, i: int)
    requires
        distinct_symbols(s),
        0 <= i < s.len(),
    ensures
        books_map(s).dom().contains(s[i].0@),
        books_map(s)[s[i].0@] == s[i].1,
    decreases s.len(),
{
    if i == s.len() - 1 {
        assert(s.last() == s[i]);
    } else {
        assert(distinct_symbols(s.drop_last()));
        assert(s.drop_last()[i] == s[i]);
        lemma_books_value(s.drop_last(), i);
        assert(s[i].0@ != s.last().0@);
    }
}

proof fn lemma_books_update(s: Seq<(String, OrderBook)>, i: int, b: OrderBook)
    requires
        distinct_symbols(s),
        0 <= i < s.len(),
    ensures
        books_map(s.update(i, (s[i].0, b))) == books_map(s).insert(s[i].0@, b),
    decreases s.len(),
{
    let k = s[i].0;
    let t = s.update(i, (k, b));
    if i == s.len() - 1 {
        assert(t.drop_last() =~= s.drop_last());
        assert(t.last() == (k, b));
        assert(books_map(s).insert(k@, b) =~= books_map(s.drop_last()).insert(
            s.last().0@,
            s.last().1,
        ).insert(k@, b));
        assert(books_map(s.drop_last()).insert(s.last().0@, s.last().1).insert(k@, b)
            =~= books_map(s.drop_last()).insert(k@, b));
    } else {
        assert(distinct_symbols(s.drop_last()));
        assert(s.drop_last()[i] == s[i]);
        lemma_books_update(s.drop_last(), i, b);
        assert(t.drop_last() =~= s.drop_last().update(i, (k, b)));
        assert(t.last() == s.last());
        assert(s[i].0@ != s.last().0@);
        assert(books_map(t) == books_map(s.drop_last()).insert(k@, b).insert(
            s.last().0@,
            s.last().1,
        ));
        assert(books_map(s.drop_last()).insert(k@, b).insert(s.last().0@, s.last().1)
            =~= books_map(s.drop_last()).insert(s.last().0@, s.last().1).insert(k@, b));
    }
}

/// Owner of the symbol-to-book map: the single consumer of the quote
/// stream, applying each quote to the book of its symbol and creating
/// books lazily on first sight of a symbol.
pub struct BookBuilder {
    books: Vec<(String, OrderBook)>,
}

impl View for BookBuilder {
    type V = Map<Seq<char>, OrderBook>;

    closed spec fn view(&self) -> Map<Seq<char>, OrderBook> {
        books_map(self.books@)
    }
}

impl BookBuilder {
    pub closed spec fn wf(&self) -> bool {
        &&& distinct_symbols(self.books@)
        &&& forall|i: int|
            0 <= i < self.books@.len() ==> (#[trigger] self.books@[i]).1.wf() && self.books@[i].1.spec_symbol()
                == self.books@[i].0@
    }

    pub fn new() -> (r: BookBuilder)
        ensures
            r.wf(),
            r@ == Map::<Seq<char>, OrderBook>::empty(),
    {
        BookBuilder { books: Vec::new() }
    }

    /// Find the index of the book for `symbol`, if one exists.
    fn find(&self, symbol: &String) -> (r: Option<usize>)
        requires
            self.wf(),
        ensures
            match r {
                Some(i) => i < self.books@.len() && self.books@[i as int].0@ == symbol@,
                None => forall|i: int|
                    0 <= i < self.books@.len() ==> (#[trigger] self.books@[i]).0@ != symbol@,
            },
    {
        let n: usize = self.books.len();
        let mut i: usize = 0;
        while i < n
            invariant
                n == self.books@.len(),
                i <= n,
                forall|j: int| 0 <= j < i ==> (#[trigger] self.books@[j]).0@ != symbol@,
            decreases n - i,
        {
            if self.books[i].0 == *symbol {
                return Some(i);
            }
            i = i + 1;
        }
        None
    }

    /// Read access to the book for `symbol`.
    pub fn get_book(&self, symbol: &String) -> (r: Option<&OrderBook>)
        requires
            self.wf(),
        ensures
            match r {
                Some(b) => {
                    &&& self@.dom().contains(symbol@)
                    &&& *b == self@[symbol@]
                    &&& b.wf()
                    &&& b.spec_symbol() == symbol@
                },
                None => !self@.dom().contains(symbol@),
            },
    {
        proof {
            lemma_books_contains(self.books@);
        }
        match self.find(symbol) {
            Some(i) => {
                proof {
                    lemma_books_value(self.books@, i as int);
                }
                Some(&self.books[i].1)
            },
            None => None,
        }
    }

    /// Number of symbols with a book.
    pub fn book_count(&self) -> (r: usize)
        requires
            self.wf(),
        ensures
            r == self@.dom().len(),
    {
        proof {
            lemma_books_len(self.books@);
        }
        self.books.len()
    }

    /// Consume one quote: look up or lazily create the book for its
    /// symbol and apply the update; no other symbol's book changes.
    pub fn process_quote(&mut self, quote: &Quote)
        requires
            old(self).wf(),
        ensures
            final(self).wf(),
            final(self)@.dom() == old(self)@.dom().insert(quote.symbol@),
            forall|k: Seq<char>|
                k != quote.symbol@ && old(self)@.dom().contains(k) ==> final(self)@[k] == old(
                    self,
                )@[k],
            final(self)@.dom().contains(quote.symbol@),
            final(self)@[quote.symbol@].wf(),
            final(self)@[quote.symbol@].spec_symbol() == quote.symbol@,
            final(self)@[quote.symbol@].spec_bids() == side_after(
                if old(self)@.dom().contains(quote.symbol@) {
                    old(self)@[quote.symbol@].spec_bids()
                } else {
                    Map::<i64, i64>::empty()
                },
                quote.bid,
                quote.bid_size,
            ),
            final(self)@[quote.symbol@].spec_asks() == side_after(
                if old(self)@.dom().contains(quote.symbol@) {
                    old(self)@[quote.symbol@].spec_asks()
                } else {
                    Map::<i64, i64>::empty()
                },
                quote.ask,
                quote.ask_size,
            ),
    {
        proof {
            lemma_books_contains(self.books@);
        }
        match self.find(&quote.symbol) {
            Some(i) => {
                proof {
                    lemma_books_value(self.books@, i as int);
                }
                let (sym, mut book) = self.books.remove(i);
                book.update(quote);
                self.books.insert(i, (sym, book));
                proof {
                    assert(self.books@ =~= old(self).books@.update(
                        i as int,
                        (old(self).books@[i as int].0, book),
                    ));
                    lemma_books_update(old(self).books@, i as int, book);
                    assert(final(self)@.dom() =~= old(self)@.dom().insert(quote.symbol@));
                }
            },
            None => {
                let sym = quote.symbol.clone();
                let mut book = OrderBook::new(quote.symbol.clone());
                book.update(quote);
                self.books.push((sym, book));
                proof {
                    assert(self.books@.drop_last() =~= old(self).books@);
                    assert(self.books@.last() == (sym, book));
                    assert(final(self)@ == old(self)@.insert(quote.symbol@, book));
                    assert(!old(self)@.dom().contains(quote.symbol@));
                    assert(final(self)@.dom() =~= old(self)@.dom().insert(quote.symbol@));
                    assert(forall|j: int|
                        0 <= j < old(self).books@.len() ==> (#[trigger] self.books@[j])
                            == old(self).books@[j]);
                }
            },
        }
    }
}

} // verus!
