//! The engine as the host sees it: requests come in, responses are
//! reported by the identifier of their request, endpoints come and go.

use vstd::prelude::*;
use crate::config::Config;
use crate::endpoint::{
    decision_views, DecisionView, Endpoint, EndpointView, RoutingDecision, RoutingError,
    RoutingRequest,
};
use crate::registry::{distinct_ids, find, removed, upserted};
use crate::router::{after_complete, after_route, routed, RequestRouter};
use crate::signals::with_probe;
use crate::strategy::decision_view;

verus! {

/// Index of the first of the first `n` decisions made for request `id`; -1
/// where there is none.
pub open spec fn find_pending(pending: Seq<DecisionView>, id: u64, n: int) -> int
    decreases n,
{
    if n <= 0 {
        -1
    } else {
        let p = find_pending(pending, id, n - 1);
        if p >= 0 {
            p
        } else if pending[n - 1].request_id == id {
            n - 1
        } else {
            -1
        }
    }
}

/// Index of the oldest unsettled decision for request `id`; -1 where there
/// is none.
pub open spec fn oldest_pending(pending: Seq<DecisionView>, id: u64) -> int {
    find_pending(pending, id, pending.len() as int)
}

/// `find_pending` returns the first index whose decision belongs to the
/// request, and -1 exactly where no index does.
pub proof fn lemma_find_pending(pending: Seq<DecisionView>, id: u64, n: int)
    requires
        0 <= n <= pending.len(),
    ensures
        -1 <= find_pending(pending, id, n) < n,
        find_pending(pending, id, n) >= 0 ==> pending[find_pending(pending, id, n)].request_id
            == id,
        forall|j: int|
            0 <= j < n && (#[trigger] pending[j]).request_id == id ==> 0 <= find_pending(
                pending,
                id,
                n,
            ) <= j,
    decreases n,
{
    if n > 0 {
        lemma_find_pending(pending, id, n - 1);
    }
}

/// A decision is settled once: after the decision of a request whose
/// identifier was not in use has been recorded and then settled, nothing is
/// left to settle under that identifier.
pub proof fn lemma_settled_once(pending: Seq<DecisionView>, d: DecisionView)
    requires
        oldest_pending(pending, d.request_id) == -1,
    ensures
        oldest_pending(pending.push(d), d.request_id) == pending.len(),
        pending.push(d).remove(pending.len() as int) == pending,
        oldest_pending(pending.push(d).remove(pending.len() as int), d.request_id) == -1,
{
    let q = pending.push(d);
    lemma_find_pending(pending, d.request_id, pending.len() as int);
    lemma_find_pending(q, d.request_id, q.len() as int);
    assert(q[pending.len() as int].request_id == d.request_id);
    assert forall|j: int| 0 <= j < pending.len() implies (#[trigger] q[j]).request_id
        != d.request_id by {
        assert(q[j] == pending[j]);
    }
    assert(q.remove(pending.len() as int) =~= pending);
}

/// The router together with the decisions that await their outcome.
pub struct LoadBalancer {
    router: RequestRouter,
    pending: Vec<RoutingDecision>,
}

impl LoadBalancer {
    /// The known endpoints.
    pub closed spec fn endpoints(&self) -> Seq<EndpointView> {
        self.router.endpoints()
    }

    /// The options in force.
    pub closed spec fn config(&self) -> Config {
        self.router.config()
    }

    /// The decisions that await their outcome, oldest first.
    pub closed spec fn pending(&self) -> Seq<DecisionView> {
        decision_views(self.pending@)
    }

    /// The invariant: identifiers are unique and the options are valid.
    pub open spec fn wf(&self) -> bool {
        distinct_ids(self.endpoints()) && self.config().valid()
    }

    /// A balancer without endpoints, where the options are valid.
    pub fn new(config: Config) -> (r: Result<LoadBalancer, RoutingError>)
        ensures
            match r {
                Ok(b) => config.valid() && b.wf() && b.config() == config && b.endpoints()
                    == Seq::<EndpointView>::empty() && b.pending() == Seq::<DecisionView>::empty(),
                Err(e) => !config.valid() && e == RoutingError::InvalidConfiguration,
            },
    {
        match RequestRouter::new(config) {
            Ok(router) => {
                let b = LoadBalancer { router, pending: Vec::new() };
                assert(b.pending() =~= Seq::<DecisionView>::empty());
                Ok(b)
            },
            Err(e) => Err(e),
        }
    }

    /// Announces an endpoint, or replaces the one with its identifier.
    pub fn register_endpoint(&mut self, endpoint: Endpoint)
        requires
            old(self).wf(),
        ensures
            final(self).wf(),
            final(self).config() == old(self).config(),
            final(self).pending() == old(self).pending(),
            final(self).endpoints() == upserted(old(self).endpoints(), endpoint@),
    {
        self.router.register_endpoint(endpoint);
    }

    /// Withdraws the endpoint with this identifier; says whether there was
    /// one. Decisions that name it stay pending and settle without effect.
    pub fn deregister_endpoint(&mut self, id: &str) -> (r: bool)
        requires
            old(self).wf(),
        ensures
            final(self).wf(),
            final(self).config() == old(self).config(),
            final(self).pending() == old(self).pending(),
            r == (find(old(self).endpoints(), id@) >= 0),
            final(self).endpoints() == removed(old(self).endpoints(), id@),
    {
        self.router.deregister_endpoint(id)
    }

    /// Takes the verdict of an active health probe; says whether the
    /// endpoint is known.
    pub fn report_health(&mut self, id: &str, healthy: bool, now: u64) -> (r: bool)
        requires
            old(self).wf(),
        ensures
            final(self).wf(),
            final(self).config() == old(self).config(),
            final(self).pending() == old(self).pending(),
            r == (find(old(self).endpoints(), id@) >= 0),
            final(self).endpoints() == with_probe(old(self).endpoints(), id@, healthy, now),
    {
        self.router.record_health_probe(id, healthy, now)
    }

    /// A copy of the endpoint with this identifier.
    pub fn endpoint(&self, id: &str) -> (r: Result<Endpoint, RoutingError>)
        ensures
            match r {
                Ok(e) => find(self.endpoints(), id@) >= 0 && e@ == self.endpoints()[find(
                    self.endpoints(),
                    id@,
                )],
                Err(err) => find(self.endpoints(), id@) == -1 && err
                    == RoutingError::EndpointNotFound,
            },
    {
        self.router.endpoint(id)
    }

    /// How many decisions await their outcome.
    pub fn pending_count(&self) -> (n: usize)
        ensures
            n == self.pending().len(),
    {
        self.pending.len()
    }

    /// Routes one request at time `now`. A decision is kept pending until
    /// its outcome is reported under the request's identifier.
    pub fn on_request(&mut self, request: &RoutingRequest, now: u64) -> (r: Result<
        RoutingDecision,
        RoutingError,
    >)
        requires
            old(self).wf(),
        ensures
            final(self).wf(),
            final(self).config() == old(self).config(),
            decision_view(r) == routed(old(self).endpoints(), request@, now, old(self).config()),
            final(self).endpoints() == after_route(
                old(self).endpoints(),
                request@,
                now,
                old(self).config(),
            ),
            final(self).pending() == match r {
                Ok(d) => old(self).pending().push(d@),
                Err(_) => old(self).pending(),
            },
    {
        let ghost before = self.pending();
        match self.router.route(request, now) {
            Ok(decision) => {
                let copy = decision.duplicate();
                self.pending.push(decision);
                assert(self.pending() =~= before.push(copy@));
                Ok(copy)
            },
            Err(e) => Err(e),
        }
    }

    /// Reports the outcome of the request `decision_id` at time `now`. The
    /// oldest pending decision of that request is settled and forgotten;
    /// where none is pending, nothing changes and the result is `false`.
    pub fn on_response(&mut self, decision_id: u64, success: bool, latency_ms: u64, now: u64) -> (r:
        bool)
        requires
            old(self).wf(),
        ensures
            final(self).wf(),
            final(self).config() == old(self).config(),
            r == (oldest_pending(old(self).pending(), decision_id) >= 0),
            r ==> final(self).pending() == old(self).pending().remove(
                oldest_pending(old(self).pending(), decision_id),
            ) && final(self).endpoints() == after_complete(
                old(self).endpoints(),
                old(self).pending()[oldest_pending(old(self).pending(), decision_id)].endpoint,
                success,
                latency_ms,
                now,
                old(self).config(),
            ),
            !r ==> final(self).pending() == old(self).pending() && final(self).endpoints() == old(
                self,
            ).endpoints(),
    {
        let ghost before = self.pending();
        let mut i: usize = 0;
        while i < self.pending.len()
            invariant
                i <= self.pending.len(),
                self.pending() == before,
                before == old(self).pending(),
                self.wf(),
                self.config() == old(self).config(),
                self.endpoints() == old(self).endpoints(),
                find_pending(before, decision_id, i as int) == -1,
            decreases self.pending.len() - i,
        {
            assert(before[i as int] == self.pending@[i as int]@);
            if self.pending[i].request_id == decision_id {
                proof {
                    lemma_find_pending(before, decision_id, before.len() as int);
                    lemma_find_pending(before, decision_id, i as int);
                }
                let decision = self.pending.remove(i);
                assert(self.pending() =~= before.remove(i as int));
                let _ = self.router.complete(decision, success, latency_ms, now);
                return true;
            }
            i += 1;
        }
        false
    }
}

} // verus!
