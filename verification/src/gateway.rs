//! Quote-routing gateway state: the venue registry, the per-venue
//! subscription table, and the running flag.
//!
//! The gateway decides; the surrounding runtime performs. Callers fan a
//! subscription request out to their adapters and hand the per-venue
//! outcomes back to [`QuoteGateway::record_outcomes`], which applies the
//! partial-failure policy: the subscription succeeds — and the gateway
//! starts running — as soon as one venue subscribed, and fails with an
//! aggregated error naming every venue only when all of them failed.

use vstd::prelude::*;
use vstd::string::StringExecFns;
use crate::error::GatewayError;
use crate::error::HftError;
use crate::error::VenueError;
use crate::error::venue_error_text;

verus! {

/// Views of a sequence of symbol strings.
pub open spec fn names_view(s: Seq<String>) -> Seq<Seq<char>> {
    s.map_values(|x: String| x@)
}

/// Venue-name-to-symbols map denoted by a subscription table.
pub open spec fn subs_map(s: Seq<(String, Vec<String>)>) -> Map<Seq<char>, Seq<Seq<char>>>
    decreases s.len(),
{
    if s.len() == 0 {
        Map::<Seq<char>, Seq<Seq<char>>>::empty()
    } else {
        subs_map(s.drop_last()).insert(s.last().0@, names_view(s.last().1@))
    }
}

pub open spec fn distinct_venue_keys(s: Seq<(String, Vec<String>)>) -> bool {
    forall|i: int, j: int| 0 <= i < j < s.len() ==> (#[trigger] s[i]).0@ != (#[trigger] s[j]).0@
}

proof fn lemma_subs_contains(s: Seq<(String, Vec<String>)>)
    ensures
        forall|k: Seq<char>|
            subs_map(s).dom().contains(k) <==> exists|i: int|
                0 <= i < s.len() && (#[trigger] s[i]).0@ == k,
    decreases s.len(),
{
    if s.len() > 0 {
        lemma_subs_contains(s.drop_last());
        assert forall|k: Seq<char>| subs_map(s).dom().contains(k) implies exists|i: int|
            0 <= i < s.len() && (#[trigger] s[i]).0@ == k by {
            if k == s.last().0@ {
                assert(s[s.len() - 1].0@ == k);
            } else {
                assert(subs_map(s.drop_last()).dom().contains(k));
                let i = choose|i: int|
                    0 <= i < s.drop_last().len() && (#[trigger] s.drop_last()[i]).0@ == k;
                assert(s.drop_last()[i] == s[i]);
                assert(s[i].0@ == k);
            }
        }
        assert forall|k: Seq<char>|
            (exists|i: int| 0 <= i < s.len() && (#[trigger] s[i]).0@ == k) implies subs_map(
            s,
        ).dom().contains(k) by {
            let i = choose|i: int| 0 <= i < s.len() && (#[trigger] s[i]).0@ == k;
            if i < s.len() - 1 {
                assert(s.drop_last()[i].0@ == k);
                assert(exists|j: int|
                    0 <= j < s.drop_last().len() && (#[trigger] s.drop_last()[j]).0@ == k);
                assert(subs_map(s.drop_last()).dom().contains(k));
            } else {
                assert(s.last().0@ == k);
            }
        }
    }
}

proof fn lemma_subs_value(s: Seq<(String, Vec<String>)>, i: int)
    requires
        distinct_venue_keys(s),
        0 <= i < s.len(),
    ensures
        subs_map(s).dom().contains(s[i].0@),
        subs_map(s)[s[i].0@] == names_view(s[i].1@),
    decreases s.len(),
{
    if i == s.len() - 1 {
        assert(s.last() == s[i]);
    } else {
        assert(distinct_venue_keys(s.drop_last()));
        assert(s.drop_last()[i] == s[i]);
        lemma_subs_value(s.drop_last(), i);
        assert(s[i].0@ != s.last().0@);
    }
}

proof fn lemma_subs_update(s: Seq<(String, Vec<String>)>, i: int, k: String, v: Vec<String>)
    requires
        distinct_venue_keys(s),
        0 <= i < s.len(),
        s[i].0@ == k@,
    ensures
        subs_map(s.update(i, (k, v))) == subs_map(s).insert(k@, names_view(v@)),
    decreases s.len(),
{
    let t = s.update(i, (k, v));
    if i == s.len() - 1 {
        assert(t.drop_last() =~= s.drop_last());
        assert(t.last() == (k, v));
        assert(subs_map(s).insert(k@, names_view(v@)) =~= subs_map(s.drop_last()).insert(
            s.last().0@,
            names_view(s.last().1@),
        ).insert(k@, names_view(v@)));
        assert(subs_map(s.drop_last()).insert(s.last().0@, names_view(s.last().1@)).insert(
            k@,
            names_view(v@),
        ) =~= subs_map(s.drop_last()).insert(k@, names_view(v@)));
    } else {
        assert(distinct_venue_keys(s.drop_last()));
        assert(s.drop_last()[i] == s[i]);
        lemma_subs_update(s.drop_last(), i, k, v);
        assert(t.drop_last() =~= s.drop_last().update(i, (k, v)));
        assert(t.last() == s.last());
        assert(s[i].0@ != s.last().0@);
        assert(subs_map(t) == subs_map(s.drop_last()).insert(k@, names_view(v@)).insert(
            s.last().0@,
            names_view(s.last().1@),
        ));
        assert(subs_map(s.drop_last()).insert(k@, names_view(v@)).insert(
            s.last().0@,
            names_view(s.last().1@),
        ) =~= subs_map(s.drop_last()).insert(s.last().0@, names_view(s.last().1@)).insert(
            k@,
            names_view(v@),
        ));
    }
}

/// Tables whose entries agree in key view and symbol views denote the
/// same map.
proof fn lemma_subs_congruent(s: Seq<(String, Vec<String>)>, t: Seq<(String, Vec<String>)>)
    requires
        s.len() == t.len(),
        forall|j: int|
            0 <= j < s.len() ==> (#[trigger] s[j]).0@ == t[j].0@ && s[j].1@ == t[j].1@,
    ensures
        subs_map(s) == subs_map(t),
    decreases s.len(),
{
    if s.len() > 0 {
        assert(forall|j: int|
            0 <= j < s.drop_last().len() ==> (#[trigger] s.drop_last()[j]) == s[j]
                && t.drop_last()[j] == t[j]);
        lemma_subs_congruent(s.drop_last(), t.drop_last());
        assert(s.last() == s[s.len() - 1] && t.last() == t[t.len() - 1]);
        assert(names_view(s.last().1@) =~= names_view(t.last().1@));
    }
}

/// Clone a vector of strings, value for value.
pub fn clone_strings(v: &Vec<String>) -> (r: Vec<String>)
    ensures
        r@ == v@,
{
    let mut r: Vec<String> = Vec::new();
    let n: usize = v.len();
    let mut i: usize = 0;
    while i < n
        invariant
            n == v@.len(),
            i <= n,
            r@ == v@.take(i as int),
        decreases n - i,
    {
        r.push(v[i].clone());
        proof {
            assert(r@ =~= v@.take(i as int + 1));
        }
        i = i + 1;
    }
    proof {
        assert(v@.take(n as int) =~= v@);
    }
    r
}

/// Whether at least one venue outcome reports success.
pub open spec fn any_ok(outcomes: Seq<(String, Result<(), VenueError>)>) -> bool {
    exists|i: int| 0 <= i < outcomes.len() && (#[trigger] outcomes[i]).1 is Ok
}

/// One venue's line in the aggregated failure message.
pub open spec fn outcome_entry(o: (String, Result<(), VenueError>)) -> Seq<char> {
    match o.1 {
        Ok(_) => o.0@,
        Err(e) => o.0@ + ": "@ + venue_error_text(e),
    }
}

/// The aggregated failure message: every venue's line, joined by ", ".
pub open spec fn joined_errors(outcomes: Seq<(String, Result<(), VenueError>)>) -> Seq<char>
    decreases outcomes.len(),
{
    if outcomes.len() == 0 {
        Seq::<char>::empty()
    } else if outcomes.len() == 1 {
        outcome_entry(outcomes[0])
    } else {
        joined_errors(outcomes.drop_last()) + ", "@ + outcome_entry(outcomes.last())
    }
}

/// The subscription table after recording a fan-out: each venue that
/// subscribed successfully now maps to the requested symbols.
pub open spec fn subs_after(
    m: Map<Seq<char>, Seq<Seq<char>>>,
    symbols: Seq<Seq<char>>,
    outcomes: Seq<(String, Result<(), VenueError>)>,
) -> Map<Seq<char>, Seq<Seq<char>>>
    decreases outcomes.len(),
{
    if outcomes.len() == 0 {
        m
    } else {
        let m0 = subs_after(m, symbols, outcomes.drop_last());
        if outcomes.last().1 is Ok {
            m0.insert(outcomes.last().0@, symbols)
        } else {
            m0
        }
    }
}

/// Recording a fan-out in which no venue succeeded leaves the table as
/// it was.
proof fn lemma_subs_after_no_ok(
    m: Map<Seq<char>, Seq<Seq<char>>>,
    symbols: Seq<Seq<char>>,
    outcomes: Seq<(String, Result<(), VenueError>)>,
)
    requires
        !any_ok(outcomes),
    ensures
        subs_after(m, symbols, outcomes) == m,
    decreases outcomes.len(),
{
    if outcomes.len() > 0 {
        assert(outcomes[outcomes.len() - 1].1 is Err);
        assert(!any_ok(outcomes.drop_last())) by {
            if any_ok(outcomes.drop_last()) {
                let j = choose|j: int|
                    0 <= j < outcomes.drop_last().len() && (#[trigger] outcomes.drop_last()[j]).1
                        is Ok;
                assert(outcomes[j].1 is Ok);
            }
        }
        lemma_subs_after_no_ok(m, symbols, outcomes.drop_last());
    }
}

/// Registry of venues and subscription state for the quote stream.
pub struct QuoteGateway {
    venues: Vec<String>,
    subscriptions: Vec<(String, Vec<String>)>,
    running: bool,
}

impl QuoteGateway {
    pub closed spec fn wf(&self) -> bool {
        distinct_venue_keys(self.subscriptions@)
    }

    /// Registered venue names, in registration order.
    pub closed spec fn spec_venues(&self) -> Seq<Seq<char>> {
        names_view(self.venues@)
    }

    /// The subscription table: venue name to subscribed symbols.
    pub closed spec fn spec_subscriptions(&self) -> Map<Seq<char>, Seq<Seq<char>>> {
        subs_map(self.subscriptions@)
    }

    pub closed spec fn spec_running(&self) -> bool {
        self.running
    }

    pub fn new() -> (r: QuoteGateway)
        ensures
            r.wf(),
            r.spec_venues() == Seq::<Seq<char>>::empty(),
            r.spec_subscriptions() == Map::<Seq<char>, Seq<Seq<char>>>::empty(),
            !r.spec_running(),
    {
        let r = QuoteGateway { venues: Vec::new(), subscriptions: Vec::new(), running: false };
        proof {
            assert(r.spec_venues() =~= Seq::<Seq<char>>::empty());
        }
        r
    }

    /// Register a venue. Returns the symbols the new venue must catch up
    /// on: the venue's existing subscription entry, when the gateway is
    /// already running and that entry is not empty. The caller performs
    /// the catch-up subscribe; its failure is logged, never escalated.
    pub fn add_venue(&mut self, name: String) -> (catch_up: Option<Vec<String>>)
        requires
            old(self).wf(),
        ensures
            final(self).wf(),
            final(self).spec_venues() == old(self).spec_venues().push(name@),
            final(self).spec_subscriptions() == old(self).spec_subscriptions(),
            final(self).spec_running() == old(self).spec_running(),
            match catch_up {
                Some(symbols) => {
                    &&& old(self).spec_running()
                    &&& old(self).spec_subscriptions().dom().contains(name@)
                    &&& old(self).spec_subscriptions()[name@] == names_view(symbols@)
                    &&& symbols@.len() > 0
                },
                None => !(old(self).spec_running()
                    && old(self).spec_subscriptions().dom().contains(name@)
                    && old(self).spec_subscriptions()[name@].len() > 0),
            },
    {
        let mut catch_up: Option<Vec<String>> = None;
        if self.is_running() {
            match self.get_subscription(&name) {
                Some(symbols) => {
                    if symbols.len() > 0 {
                        proof {
                            assert(names_view(symbols@).len() == symbols@.len());
                        }
                        catch_up = Some(symbols);
                    } else {
                        proof {
                            assert(names_view(symbols@).len() == symbols@.len());
                        }
                    }
                },
                None => {},
            }
        }
        self.venues.push(name);
        proof {
            assert(final(self).spec_venues() =~= old(self).spec_venues().push(name@));
        }
        catch_up
    }

    /// Remove every adapter registered under `name` and report whether
    /// one was found; on `VenueNotFound` the registry is untouched. The
    /// caller stops the removed adapter.
    pub fn remove_venue(&mut self, name: &String) -> (r: Result<(), HftError>)
        requires
            old(self).wf(),
        ensures
            final(self).wf(),
            final(self).spec_subscriptions() == old(self).spec_subscriptions(),
            final(self).spec_running() == old(self).spec_running(),
            r is Ok <==> old(self).spec_venues().contains(name@),
            match r {
                Ok(_) => final(self).spec_venues() == old(self).spec_venues().filter(
                    |v: Seq<char>| v != name@,
                ),
                Err(e) => {
                    &&& final(self).spec_venues() == old(self).spec_venues()
                    &&& match e {
                        HftError::Gateway(GatewayError::VenueNotFound(m)) => m@ == name@,
                        _ => false,
                    }
                },
            },
    {
        let ghost pred = |v: Seq<char>| v != name@;
        let mut kept: Vec<String> = Vec::new();
        let mut found: bool = false;
        let n: usize = self.venues.len();
        let mut i: usize = 0;
        proof {
            reveal(Seq::filter);
            assert(names_view(self.venues@.take(0)) =~= Seq::<Seq<char>>::empty());
        }
        while i < n
            invariant
                n == self.venues@.len(),
                i <= n,
                names_view(kept@) == names_view(self.venues@.take(i as int)).filter(
                    |v: Seq<char>| v != name@,
                ),
                found <==> exists|j: int|
                    0 <= j < i && (#[trigger] self.venues@[j])@ == name@,
            decreases n - i,
        {
            proof {
                reveal(Seq::filter);
                let pre = names_view(self.venues@.take(i as int));
                let post = names_view(self.venues@.take(i as int + 1));
                assert(post =~= pre.push(self.venues@[i as int]@));
                assert(post.drop_last() =~= pre);
            }
            if self.venues[i] == *name {
                found = true;
                proof {
                    assert(self.venues@[i as int]@ == name@);
                }
            } else {
                kept.push(self.venues[i].clone());
                proof {
                    assert(names_view(kept@) =~= names_view(old(self).venues@.take(i as int)).filter(
                        |v: Seq<char>| v != name@,
                    ).push(self.venues@[i as int]@));
                    assert(names_view(self.venues@.take(i as int + 1)).filter(
                        |v: Seq<char>| v != name@,
                    ) =~= names_view(self.venues@.take(i as int)).filter(
                        |v: Seq<char>| v != name@,
                    ).push(self.venues@[i as int]@));
                }
            }
            i = i + 1;
        }
        proof {
            assert(self.venues@.take(n as int) =~= self.venues@);
            assert(old(self).spec_venues().contains(name@) <==> exists|j: int|
                0 <= j < n && (#[trigger] self.venues@[j])@ == name@) by {
                if old(self).spec_venues().contains(name@) {
                    let j = choose|j: int|
                        0 <= j < old(self).spec_venues().len() && old(self).spec_venues()[j]
                            == name@;
                    assert(old(self).spec_venues()[j] == self.venues@[j]@);
                    assert(self.venues@[j]@ == name@);
                }
                if exists|j: int| 0 <= j < n && (#[trigger] self.venues@[j])@ == name@ {
                    let j = choose|j: int| 0 <= j < n && (#[trigger] self.venues@[j])@ == name@;
                    assert(old(self).spec_venues()[j] == name@);
                    assert(old(self).spec_venues().contains(name@));
                }
            }
        }
        if !found {
            return Err(HftError::Gateway(GatewayError::VenueNotFound(name.clone())));
        }
        self.venues = kept;
        Ok(())
    }

    /// Validate a subscription request and hand back the venues to try:
    /// an empty symbol list is `InvalidSymbol`, an empty registry is
    /// `NoVenuesConfigured`; otherwise every registered venue is to be
    /// attempted, in registration order.
    pub fn subscribe_targets(&self, symbols: &Vec<String>) -> (r: Result<Vec<String>, HftError>)
        ensures
            match r {
                Ok(venues) => {
                    &&& symbols@.len() > 0
                    &&& self.spec_venues().len() > 0
                    &&& names_view(venues@) == self.spec_venues()
                },
                Err(HftError::Gateway(GatewayError::InvalidSymbol(m))) => {
                    &&& symbols@.len() == 0
                    &&& m@ == "Empty symbol list"@
                },
                Err(HftError::Gateway(GatewayError::NoVenuesConfigured)) => {
                    &&& symbols@.len() > 0
                    &&& self.spec_venues().len() == 0
                },
                _ => false,
            },
    {
        if symbols.len() == 0 {
            return Err(
                HftError::Gateway(
                    GatewayError::InvalidSymbol(String::from_str("Empty symbol list")),
                ),
            );
        }
        if self.venues.len() == 0 {
            return Err(HftError::Gateway(GatewayError::NoVenuesConfigured));
        }
        Ok(clone_strings(&self.venues))
    }

    /// Record the per-venue outcomes of a subscription fan-out.
    ///
    /// Each success updates that venue's subscription-table entry. If at
    /// least one venue succeeded the call succeeds and the gateway is
    /// running; if every venue failed, the call fails with a
    /// `SubscriptionFailed` joining every venue's error and the state is
    /// unchanged.
    pub fn record_outcomes(
        &mut self,
        symbols: &Vec<String>,
        outcomes: &Vec<(String, Result<(), VenueError>)>,
    ) -> (r: Result<(), HftError>)
        requires
            old(self).wf(),
        ensures
            final(self).wf(),
            final(self).spec_venues() == old(self).spec_venues(),
            any_ok(outcomes@) ==> {
                &&& r is Ok
                &&& final(self).spec_running()
                &&& final(self).spec_subscriptions() == subs_after(
                    old(self).spec_subscriptions(),
                    names_view(symbols@),
                    outcomes@,
                )
            },
            !any_ok(outcomes@) ==> {
                &&& final(self).spec_running() == old(self).spec_running()
                &&& final(self).spec_subscriptions() == old(self).spec_subscriptions()
                &&& match r {
                    Err(HftError::Gateway(GatewayError::SubscriptionFailed(m))) => m@
                        == joined_errors(outcomes@),
                    _ => false,
                }
            },
    {
        let n: usize = outcomes.len();
        let mut i: usize = 0;
        let mut ok_seen: bool = false;
        let mut msg = String::new();
        while i < n
            invariant
                old(self).wf(),
                n == outcomes@.len(),
                i <= n,
                self.wf(),
                self.venues@ == old(self).venues@,
                self.running == old(self).running,
                self.spec_subscriptions() == subs_after(
                    old(self).spec_subscriptions(),
                    names_view(symbols@),
                    outcomes@.take(i as int),
                ),
                ok_seen == any_ok(outcomes@.take(i as int)),
                !ok_seen ==> msg@ == joined_errors(outcomes@.take(i as int)),
            decreases n - i,
        {
            proof {
                let pre = outcomes@.take(i as int);
                let post = outcomes@.take(i as int + 1);
                assert(post.drop_last() =~= pre);
                assert(post.last() == outcomes@[i as int]);
            }
            match &outcomes[i].1 {
                Ok(_) => {
                    let venue_name = outcomes[i].0.clone();
                    let syms = clone_strings(symbols);
                    self.subs_upsert(venue_name, syms);
                    ok_seen = true;
                    proof {
                        assert(outcomes@.take(i as int + 1)[i as int].1 is Ok);
                    }
                },
                Err(e) => {
                    let ghost old_msg = msg@;
                    if i > 0 {
                        msg.append(", ");
                    }
                    msg.append(outcomes[i].0.as_str());
                    msg.append(": ");
                    let em = e.message();
                    msg.append(em.as_str());
                    proof {
                        let post = outcomes@.take(i as int + 1);
                        if !ok_seen {
                            if i == 0 {
                                assert(msg@ =~= outcome_entry(outcomes@[0]));
                                assert(post.len() == 1);
                                assert(post[0] == outcomes@[0]);
                            } else {
                                assert(msg@ =~= old_msg + ", "@ + outcome_entry(
                                    outcomes@[i as int],
                                ));
                            }
                        }
                        assert(any_ok(post) <==> any_ok(outcomes@.take(i as int))) by {
                            if any_ok(post) {
                                let j = choose|j: int|
                                    0 <= j < post.len() && (#[trigger] post[j]).1 is Ok;
                                if j < i {
                                    assert(outcomes@.take(i as int)[j].1 is Ok);
                                } else {
                                    assert(post[i as int].1 is Err);
                                }
                            }
                            if any_ok(outcomes@.take(i as int)) {
                                let j = choose|j: int|
                                    0 <= j < i && (#[trigger] outcomes@.take(i as int)[j]).1 is Ok;
                                assert(post[j].1 is Ok);
                            }
                        }
                    }
                },
            }
            i = i + 1;
        }
        proof {
            assert(outcomes@.take(n as int) =~= outcomes@);
            if !any_ok(outcomes@) {
                lemma_subs_after_no_ok(
                    old(self).spec_subscriptions(),
                    names_view(symbols@),
                    outcomes@,
                );
            }
        }
        if ok_seen {
            self.running = true;
            Ok(())
        } else {
            Err(HftError::Gateway(GatewayError::SubscriptionFailed(msg)))
        }
    }

    /// Upsert one venue's subscription-table entry.
    fn subs_upsert(&mut self, name: String, symbols: Vec<String>)
        requires
            old(self).wf(),
        ensures
            final(self).wf(),
            final(self).venues@ == old(self).venues@,
            final(self).running == old(self).running,
            final(self).spec_subscriptions() == old(self).spec_subscriptions().insert(
                name@,
                names_view(symbols@),
            ),
    {
        proof {
            lemma_subs_contains(self.subscriptions@);
        }
        let n: usize = self.subscriptions.len();
        let mut i: usize = 0;
        while i < n
            invariant
                n == old(self).subscriptions@.len(),
                i <= n,
                forall|j: int| 0 <= j < i ==> (#[trigger] self.subscriptions@[j]).0@ != name@,
                self.wf(),
                self.venues@ == old(self).venues@,
                self.running == old(self).running,
                self.subscriptions@ == old(self).subscriptions@,
            decreases n - i,
        {
            if self.subscriptions[i].0 == name {
                let _replaced = self.subscriptions.remove(i);
                self.subscriptions.insert(i, (name, symbols));
                proof {
                    assert(self.subscriptions@ =~= old(self).subscriptions@.update(
                        i as int,
                        (name, symbols),
                    ));
                    lemma_subs_update(old(self).subscriptions@, i as int, name, symbols);
                }
                return ;
            }
            i = i + 1;
        }
        self.subscriptions.push((name, symbols));
        proof {
            assert(self.subscriptions@.drop_last() =~= old(self).subscriptions@);
            assert(self.subscriptions@.last() == (name, symbols));
            assert(forall|j: int|
                0 <= j < old(self).subscriptions@.len() ==> (#[trigger] self.subscriptions@[j])
                    == old(self).subscriptions@[j]);
        }
    }

    /// Clear the running flag and the whole subscription table; venues
    /// are neither stopped nor removed.
    pub fn unsubscribe_all(&mut self) -> (r: Result<(), HftError>)
        requires
            old(self).wf(),
        ensures
            final(self).wf(),
            r is Ok,
            !final(self).spec_running(),
            final(self).spec_subscriptions() == Map::<Seq<char>, Seq<Seq<char>>>::empty(),
            final(self).spec_venues() == old(self).spec_venues(),
    {
        self.running = false;
        self.subscriptions.clear();
        Ok(())
    }

    /// Whether a subscription is active.
    pub fn is_running(&self) -> (r: bool)
        ensures
            r == self.spec_running(),
    {
        self.running
    }

    /// Number of registered venues.
    pub fn venue_count(&self) -> (r: usize)
        ensures
            r == self.spec_venues().len(),
    {
        self.venues.len()
    }

    /// The symbols a venue is subscribed to, if any.
    pub fn get_subscription(&self, name: &String) -> (r: Option<Vec<String>>)
        requires
            self.wf(),
        ensures
            match r {
                Some(symbols) => {
                    &&& self.spec_subscriptions().dom().contains(name@)
                    &&& self.spec_subscriptions()[name@] == names_view(symbols@)
                },
                None => !self.spec_subscriptions().dom().contains(name@),
            },
    {
        proof {
            lemma_subs_contains(self.subscriptions@);
        }
        let n: usize = self.subscriptions.len();
        let mut i: usize = 0;
        while i < n
            invariant
                n == self.subscriptions@.len(),
                i <= n,
                forall|j: int| 0 <= j < i ==> (#[trigger] self.subscriptions@[j]).0@ != name@,
                self.wf(),
            decreases n - i,
        {
            if self.subscriptions[i].0 == *name {
                proof {
                    lemma_subs_value(self.subscriptions@, i as int);
                }
                return Some(clone_strings(&self.subscriptions[i].1));
            }
            i = i + 1;
        }
        None
    }

    /// A copy of the whole subscription table.
    pub fn get_subscriptions(&self) -> (r: Vec<(String, Vec<String>)>)
        requires
            self.wf(),
        ensures
            subs_map(r@) == self.spec_subscriptions(),
            distinct_venue_keys(r@),
    {
        let n: usize = self.subscriptions.len();
        let mut r: Vec<(String, Vec<String>)> = Vec::new();
        let mut i: usize = 0;
        while i < n
            invariant
                n == self.subscriptions@.len(),
                i <= n,
                r@.len() == i,
                forall|j: int|
                    0 <= j < i ==> (#[trigger] r@[j]).0@ == self.subscriptions@[j].0@
                        && r@[j].1@ == self.subscriptions@[j].1@,
                self.wf(),
            decreases n - i,
        {
            let name = self.subscriptions[i].0.clone();
            let syms = clone_strings(&self.subscriptions[i].1);
            r.push((name, syms));
            i = i + 1;
        }
        proof {
            lemma_subs_congruent(r@, self.subscriptions@);
            assert forall|a: int, b: int| 0 <= a < b < r@.len() implies (#[trigger] r@[a]).0@ != (
            #[trigger] r@[b]).0@ by {
                assert(self.subscriptions@[a].0@ != self.subscriptions@[b].0@);
            }
        }
        r
    }
}

} // verus!
