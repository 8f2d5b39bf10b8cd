//! The per-request orchestrator: routes a request, counts it in flight, and
//! settles it when its outcome is known.

use vstd::prelude::*;
use crate::config::Config;
use crate::endpoint::{
    views, DecisionView, Endpoint, EndpointView, OutcomeReport, RequestView, RoutingDecision,
    RoutingError, RoutingRequest,
};
use crate::registry::{
    distinct_ids, find, find_in, lemma_find_in, lemma_find_unique, lemma_snapshot_members, matching, removed,
    upserted, with_update, EndpointRegistry, StateUpdate,
};
use crate::signals::{cooled, with_outcome, with_probe, SignalCollector};
use crate::strategy::{decide, decision_for, decision_view, lemma_decision_names_candidate, select};
use crate::text::tags_view;

verus! {

/// The capability filter of the snapshot taken for a request: the request's
/// own requirements, or none where degraded fallback may reach endpoints
/// that lack them.
pub open spec fn snapshot_filter(req: RequestView, cfg: Config) -> Seq<Seq<char>> {
    if cfg.allow_degraded_fallback {
        Seq::empty()
    } else {
        req.required
    }
}

/// The decision for a request at time `now` on the endpoints `s`.
pub open spec fn routed(s: Seq<EndpointView>, req: RequestView, now: u64, cfg: Config) -> Result<
    DecisionView,
    RoutingError,
> {
    decide(req, matching(cooled(s, now, cfg), snapshot_filter(req, cfg)), cfg)
}

/// The endpoints after a request was routed at time `now`: health brought
/// up to date, and one more request in flight at the chosen endpoint.
pub open spec fn after_route(s: Seq<EndpointView>, req: RequestView, now: u64, cfg: Config) -> Seq<
    EndpointView,
> {
    match routed(s, req, now, cfg) {
        Ok(d) => with_update(cooled(s, now, cfg), d.endpoint, StateUpdate::Acquire),
        Err(_) => cooled(s, now, cfg),
    }
}

/// The endpoints after a request sent to `id` was settled: one request
/// fewer in flight there, and its outcome folded into the signals.
pub open spec fn after_complete(
    s: Seq<EndpointView>,
    id: Seq<char>,
    success: bool,
    latency_ms: u64,
    now: u64,
    cfg: Config,
) -> Seq<EndpointView> {
    with_outcome(with_update(s, id, StateUpdate::Release), id, success, latency_ms, now, cfg)
}

/// Two sequences with the same identifiers at the same places find every
/// identifier at the same place.
pub proof fn lemma_find_by_ids(s: Seq<EndpointView>, t: Seq<EndpointView>, id: Seq<char>, n: int)
    requires
        0 <= n <= s.len(),
        s.len() == t.len(),
        forall|k: int| 0 <= k < s.len() ==> (#[trigger] s[k]).id == t[k].id,
    ensures
        find_in(s, id, n) == find_in(t, id, n),
    decreases n,
{
    if n > 0 {
        lemma_find_by_ids(s, t, id, n - 1);
        assert(s[n - 1].id == t[n - 1].id);
    }
}

/// Bringing health up to date keeps every endpoint's place, identifier and
/// in-flight count.
pub proof fn lemma_cooled_keeps_ids(s: Seq<EndpointView>, now: u64, cfg: Config)
    ensures
        cooled(s, now, cfg).len() == s.len(),
        forall|k: int|
            0 <= k < s.len() ==> (#[trigger] cooled(s, now, cfg)[k]).id == s[k].id && cooled(
                s,
                now,
                cfg,
            )[k].state.inflight_requests == s[k].state.inflight_requests,
        distinct_ids(s) ==> distinct_ids(cooled(s, now, cfg)),
        forall|id: Seq<char>| find(cooled(s, now, cfg), id) == #[trigger] find(s, id),
{
    let c = cooled(s, now, cfg);
    assert forall|id: Seq<char>| find(c, id) == #[trigger] find(s, id) by {
        lemma_find_by_ids(c, s, id, s.len() as int);
    }
}

/// A decision names a healthy endpoint of the registry it was made on.
pub proof fn lemma_routed_endpoint_known(
    s: Seq<EndpointView>,
    req: RequestView,
    now: u64,
    cfg: Config,
)
    requires
        distinct_ids(s),
        routed(s, req, now, cfg).is_ok(),
    ensures
        0 <= find(s, routed(s, req, now, cfg).unwrap().endpoint) < s.len(),
        cooled(s, now, cfg)[find(s, routed(s, req, now, cfg).unwrap().endpoint)].state.healthy,
        cooled(s, now, cfg)[find(s, routed(s, req, now, cfg).unwrap().endpoint)].address
            == routed(s, req, now, cfg).unwrap().address,
{
    let c = cooled(s, now, cfg);
    let cands = matching(c, snapshot_filter(req, cfg));
    let d = routed(s, req, now, cfg).unwrap();
    lemma_cooled_keeps_ids(s, now, cfg);
    lemma_decision_names_candidate(req, cands, cfg);
    let i = choose|i: int|
        0 <= i < cands.len() && decide(req, cands, cfg) == Ok::<DecisionView, RoutingError>(
            decision_for(req, #[trigger] cands[i], d.rationale),
        ) && cands[i].state.healthy;
    assert(cands.contains(cands[i]));
    lemma_snapshot_members(c, snapshot_filter(req, cfg), cands[i]);
    let k = choose|k: int| 0 <= k < c.len() && c[k] == cands[i];
    assert(c[k].id == d.endpoint);
    lemma_find_unique(c, d.endpoint, k);
    assert(find(s, d.endpoint) == find(c, d.endpoint));
}

/// Routing a request and then settling it leaves every endpoint's in-flight
/// count as it was before, and between the two the chosen endpoint counts
/// exactly one more. The chosen endpoint must not already count `u64::MAX`
/// requests in flight.
pub proof fn lemma_route_complete_balanced(
    s: Seq<EndpointView>,
    req: RequestView,
    now: u64,
    cfg: Config,
    success: bool,
    latency_ms: u64,
    later: u64,
)
    requires
        distinct_ids(s),
        routed(s, req, now, cfg).is_ok(),
        s[find(s, routed(s, req, now, cfg).unwrap().endpoint)].state.inflight_requests < u64::MAX,
    ensures
        ({
            let id = routed(s, req, now, cfg).unwrap().endpoint;
            let mid = after_route(s, req, now, cfg);
            let end = after_complete(mid, id, success, latency_ms, later, cfg);
            &&& mid.len() == s.len()
            &&& end.len() == s.len()
            &&& forall|k: int|
                0 <= k < s.len() ==> (#[trigger] mid[k]).id == s[k].id
                    && mid[k].state.inflight_requests == s[k].state.inflight_requests + (if k
                    == find(s, id) {
                    1int
                } else {
                    0int
                })
            &&& forall|k: int|
                0 <= k < s.len() ==> (#[trigger] end[k]).id == s[k].id
                    && end[k].state.inflight_requests == s[k].state.inflight_requests
        }),
{
    let id = routed(s, req, now, cfg).unwrap().endpoint;
    let c = cooled(s, now, cfg);
    let mid = after_route(s, req, now, cfg);
    let released = with_update(mid, id, StateUpdate::Release);
    let end = after_complete(mid, id, success, latency_ms, later, cfg);
    lemma_routed_endpoint_known(s, req, now, cfg);
    lemma_cooled_keeps_ids(s, now, cfg);
    let p = find(s, id);
    assert(find(c, id) == p);
    lemma_find_by_ids(mid, c, id, c.len() as int);
    assert(find(mid, id) == p);
    lemma_find_by_ids(released, mid, id, mid.len() as int);
    assert(find(released, id) == p);
}

/// Routes requests over a registry of endpoints and settles them.
pub struct RequestRouter {
    registry: EndpointRegistry,
    collector: SignalCollector,
}

impl RequestRouter {
    /// The known endpoints.
    pub closed spec fn endpoints(&self) -> Seq<EndpointView> {
        self.registry@
    }

    /// The options in force.
    pub closed spec fn config(&self) -> Config {
        self.collector.config()
    }

    /// The router's invariant: identifiers are unique and the options are
    /// valid.
    pub open spec fn wf(&self) -> bool {
        distinct_ids(self.endpoints()) && self.config().valid()
    }

    /// A router without endpoints, where the options are valid.
    pub fn new(config: Config) -> (r: Result<RequestRouter, RoutingError>)
        ensures
            match r {
                Ok(router) => config.valid() && router.wf() && router.config() == config
                    && router.endpoints() == Seq::<EndpointView>::empty(),
                Err(e) => !config.valid() && e == RoutingError::InvalidConfiguration,
            },
    {
        match SignalCollector::new(config) {
            Ok(collector) => Ok(RequestRouter { registry: EndpointRegistry::new(), collector }),
            Err(e) => Err(e),
        }
    }

    /// Announces an endpoint, or replaces the one with its identifier.
    pub fn register_endpoint(&mut self, endpoint: Endpoint)
        requires
            old(self).wf(),
        ensures
            final(self).wf(),
            final(self).config() == old(self).config(),
            final(self).endpoints() == upserted(old(self).endpoints(), endpoint@),
    {
        self.registry.upsert(endpoint);
    }

    /// Withdraws the endpoint with this identifier; says whether there was
    /// one.
    pub fn deregister_endpoint(&mut self, id: &str) -> (r: bool)
        requires
            old(self).wf(),
        ensures
            final(self).wf(),
            final(self).config() == old(self).config(),
            r == (find(old(self).endpoints(), id@) >= 0),
            final(self).endpoints() == removed(old(self).endpoints(), id@),
    {
        self.registry.remove(id)
    }

    /// A copy of the endpoints that offer every tag of `filter`.
    pub fn snapshot(&self, filter: &Vec<String>) -> (r: Vec<Endpoint>)
        ensures
            views(r@) == matching(self.endpoints(), tags_view(filter@)),
    {
        self.registry.snapshot(filter)
    }

    /// A copy of the endpoint with this identifier.
    pub fn endpoint(&self, id: &str) -> (r: Result<Endpoint, RoutingError>)
        ensures
            match r {
                Ok(e) => find(self.endpoints(), id@) >= 0 && e@ == self.endpoints()[find(
                    self.endpoints(),
                    id@,
                )],
                Err(err) => find(self.endpoints(), id@) == -1 && err
                    == RoutingError::EndpointNotFound,
            },
    {
        self.registry.get(id)
    }

    /// Chooses an endpoint for the request at time `now` and counts the
    /// request in flight there. Fails with `NoEligibleEndpoint` where the
    /// strategy finds none; the in-flight counts then stay as they are.
    pub fn route(&mut self, request: &RoutingRequest, now: u64) -> (r: Result<
        RoutingDecision,
        RoutingError,
    >)
        requires
            old(self).wf(),
        ensures
            final(self).wf(),
            final(self).config() == old(self).config(),
            decision_view(r) == routed(old(self).endpoints(), request@, now, old(self).config()),
            final(self).endpoints() == after_route(
                old(self).endpoints(),
                request@,
                now,
                old(self).config(),
            ),
    {
        let ghost before = self.endpoints();
        let ghost cfg = self.config();
        self.collector.refresh(&mut self.registry, now);
        let candidates = if self.collector.options().allow_degraded_fallback {
            let all: Vec<String> = Vec::new();
            assert(tags_view(all@) =~= Seq::<Seq<char>>::empty());
            self.registry.snapshot(&all)
        } else {
            self.registry.snapshot(&request.required_capabilities)
        };
        let cfg_now = self.collector.options();
        match select(request, &candidates, &cfg_now) {
            Ok(decision) => {
                proof {
                    lemma_routed_endpoint_known(before, request@, now, cfg);
                    lemma_cooled_keeps_ids(before, now, cfg);
                }
                // The chosen endpoint comes from the snapshot just taken, so the
                // registry knows it and the update cannot fail.
                match self.registry.update_state(decision.endpoint.as_str(), StateUpdate::Acquire) {
                    Ok(_) => Ok(decision),
                    Err(e) => Err(e),
                }
            },
            Err(e) => Err(e),
        }
    }

    /// Settles a routed request: one request fewer in flight at its
    /// endpoint, and the outcome folded into that endpoint's signals. Where
    /// the endpoint has been withdrawn meanwhile, nothing changes and the
    /// result is `false`.
    pub fn complete(&mut self, decision: RoutingDecision, success: bool, latency_ms: u64, now: u64)
        -> (r: bool)
        requires
            old(self).wf(),
        ensures
            final(self).wf(),
            final(self).config() == old(self).config(),
            r == (find(old(self).endpoints(), decision@.endpoint) >= 0),
            final(self).endpoints() == after_complete(
                old(self).endpoints(),
                decision@.endpoint,
                success,
                latency_ms,
                now,
                old(self).config(),
            ),
    {
        let ghost before = self.endpoints();
        let _ = self.registry.update_state(decision.endpoint.as_str(), StateUpdate::Release);
        proof {
            lemma_find_in(before, decision@.endpoint, before.len() as int);
            lemma_find_by_ids(
                self.registry@,
                before,
                decision@.endpoint,
                before.len() as int,
            );
        }
        let report = OutcomeReport { endpoint: decision.endpoint, success, latency_ms };
        self.collector.record_outcome(&mut self.registry, &report, now)
    }

    /// Takes the verdict of an active health probe; says whether the
    /// endpoint is known.
    pub fn record_health_probe(&mut self, id: &str, healthy: bool, now: u64) -> (r: bool)
        requires
            old(self).wf(),
        ensures
            final(self).wf(),
            final(self).config() == old(self).config(),
            r == (find(old(self).endpoints(), id@) >= 0),
            final(self).endpoints() == with_probe(old(self).endpoints(), id@, healthy, now),
    {
        self.collector.record_health_probe(&mut self.registry, id, healthy, now)
    }
}

} // verus!
