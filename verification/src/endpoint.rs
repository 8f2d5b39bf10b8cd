//! The values that flow through the engine.

use vstd::prelude::*;
use crate::text::{copy_tags, tags_view};

verus! {

/// The signals of one endpoint that change while it serves traffic.
/// Times are seconds on the caller's clock.
#[derive(Clone, Copy, Debug, PartialEq, Eq, Structural)]
pub struct EndpointState {
    pub healthy: bool,
    pub inflight_requests: u64,
    pub rolling_latency_ms: u64,
    pub last_update: u64,
    pub consecutive_failures: u64,
    pub last_failure: u64,
}

/// The state of an endpoint that has just been announced: healthy, idle,
/// with no latency observed.
pub open spec fn fresh_state(now: u64) -> EndpointState {
    EndpointState {
        healthy: true,
        inflight_requests: 0,
        rolling_latency_ms: 0,
        last_update: now,
        consecutive_failures: 0,
        last_failure: 0,
    }
}

impl EndpointState {
    /// The state of an endpoint that has just been announced.
    pub fn fresh(now: u64) -> (r: EndpointState)
        ensures
            r == fresh_state(now),
    {
        EndpointState {
            healthy: true,
            inflight_requests: 0,
            rolling_latency_ms: 0,
            last_update: now,
            consecutive_failures: 0,
            last_failure: 0,
        }
    }
}

/// A backend instance: identity, address, what it can serve, and its
/// current signals.
#[derive(Debug)]
pub struct Endpoint {
    pub id: String,
    pub address: String,
    pub capabilities: Vec<String>,
    pub state: EndpointState,
}

/// What an endpoint is, as plain values.
pub struct EndpointView {
    pub id: Seq<char>,
    pub address: Seq<char>,
    pub capabilities: Seq<Seq<char>>,
    pub state: EndpointState,
}

impl View for Endpoint {
    type V = EndpointView;

    open spec fn view(&self) -> EndpointView {
        EndpointView {
            id: self.id@,
            address: self.address@,
            capabilities: tags_view(self.capabilities@),
            state: self.state,
        }
    }
}

impl Endpoint {
    /// A healthy, idle endpoint.
    pub fn new(id: &str, address: &str, capabilities: Vec<String>, now: u64) -> (r: Endpoint)
        ensures
            r@ == (EndpointView {
                id: id@,
                address: address@,
                capabilities: tags_view(capabilities@),
                state: fresh_state(now),
            }),
    {
        Endpoint {
            id: id.to_owned(),
            address: address.to_owned(),
            capabilities,
            state: EndpointState::fresh(now),
        }
    }

    /// A copy with the same view.
    pub fn duplicate(&self) -> (r: Endpoint)
        ensures
            r@ == self@,
    {
        Endpoint {
            id: self.id.clone(),
            address: self.address.clone(),
            capabilities: copy_tags(&self.capabilities),
            state: self.state,
        }
    }
}

/// The views of a list of endpoints.
pub open spec fn views(endpoints: Seq<Endpoint>) -> Seq<EndpointView> {
    endpoints.map_values(|e: Endpoint| e@)
}

} // verus!

verus! {

/// Why an endpoint was chosen.
#[derive(Clone, Copy, Debug, PartialEq, Eq, Structural)]
pub enum Rationale {
    Sticky,
    LeastLoaded,
    Fallback,
    RoundRobin,
}

impl Rationale {
    /// The tag under which the rationale is reported.
    pub fn tag(&self) -> (r: &'static str)
        ensures
            r@ == match *self {
                Rationale::Sticky => "sticky"@,
                Rationale::LeastLoaded => "least_loaded"@,
                Rationale::Fallback => "fallback"@,
                Rationale::RoundRobin => "round_robin"@,
            },
    {
        match self {
            Rationale::Sticky => "sticky",
            Rationale::LeastLoaded => "least_loaded",
            Rationale::Fallback => "fallback",
            Rationale::RoundRobin => "round_robin",
        }
    }
}

/// What can go wrong.
#[derive(Clone, Copy, Debug, PartialEq, Eq, Structural)]
pub enum RoutingError {
    /// The identifier names no endpoint of the registry.
    EndpointNotFound,
    /// No candidate passes the filters of the request.
    NoEligibleEndpoint,
    /// The configuration holds a value outside its range.
    InvalidConfiguration,
}

/// One inbound request, as far as routing is concerned.
#[derive(Debug)]
pub struct RoutingRequest {
    pub request_id: u64,
    pub required_capabilities: Vec<String>,
    pub affinity: Option<String>,
}

/// A request as plain values.
pub struct RequestView {
    pub request_id: u64,
    pub required: Seq<Seq<char>>,
    pub affinity: Option<Seq<char>>,
}

impl View for RoutingRequest {
    type V = RequestView;

    open spec fn view(&self) -> RequestView {
        RequestView {
            request_id: self.request_id,
            required: tags_view(self.required_capabilities@),
            affinity: match self.affinity {
                Some(a) => Some(a@),
                None => None,
            },
        }
    }
}

/// The endpoint chosen for a request, where to reach it, and why.
#[derive(Debug)]
pub struct RoutingDecision {
    pub request_id: u64,
    pub endpoint: String,
    pub address: String,
    pub rationale: Rationale,
}

/// A decision as plain values.
pub struct DecisionView {
    pub request_id: u64,
    pub endpoint: Seq<char>,
    pub address: Seq<char>,
    pub rationale: Rationale,
}

impl View for RoutingDecision {
    type V = DecisionView;

    open spec fn view(&self) -> DecisionView {
        DecisionView {
            request_id: self.request_id,
            endpoint: self.endpoint@,
            address: self.address@,
            rationale: self.rationale,
        }
    }
}

impl RoutingDecision {
    /// A copy with the same view.
    pub fn duplicate(&self) -> (r: RoutingDecision)
        ensures
            r@ == self@,
    {
        RoutingDecision {
            request_id: self.request_id,
            endpoint: self.endpoint.clone(),
            address: self.address.clone(),
            rationale: self.rationale,
        }
    }
}

/// The views of a list of decisions.
pub open spec fn decision_views(decisions: Seq<RoutingDecision>) -> Seq<DecisionView> {
    decisions.map_values(|d: RoutingDecision| d@)
}

/// How one dispatched request ended.
#[derive(Debug)]
pub struct OutcomeReport {
    pub endpoint: String,
    pub success: bool,
    pub latency_ms: u64,
}

} // verus!
