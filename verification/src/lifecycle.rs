//! The phases a request passes through.

use vstd::prelude::*;

verus! {

/// Where a request stands.
#[derive(Clone, Copy, Debug, PartialEq, Eq, Structural)]
pub enum RequestPhase {
    Arrived,
    Decided,
    Dispatched,
    Completed,
    Failed,
}

/// What happens to a request.
#[derive(Clone, Copy, Debug, PartialEq, Eq, Structural)]
pub enum RequestEvent {
    /// The strategy was asked for an endpoint.
    Decide,
    /// An endpoint was chosen and the request handed to it.
    Dispatch,
    /// No endpoint could be chosen.
    Reject,
    /// The outcome of the dispatched request was recorded.
    Complete,
}

/// The phase that follows `phase` on `event`, where the event is allowed
/// there: `Arrived → Decided → Dispatched → Completed`, or
/// `Arrived → Decided → Failed`.
pub open spec fn step(phase: RequestPhase, event: RequestEvent) -> Option<RequestPhase> {
    match (phase, event) {
        (RequestPhase::Arrived, RequestEvent::Decide) => Some(RequestPhase::Decided),
        (RequestPhase::Decided, RequestEvent::Dispatch) => Some(RequestPhase::Dispatched),
        (RequestPhase::Decided, RequestEvent::Reject) => Some(RequestPhase::Failed),
        (RequestPhase::Dispatched, RequestEvent::Complete) => Some(RequestPhase::Completed),
        _ => None,
    }
}

/// A phase that no event leads out of.
pub open spec fn terminal(phase: RequestPhase) -> bool {
    phase == RequestPhase::Completed || phase == RequestPhase::Failed
}

impl RequestPhase {
    /// The phase that follows on `event`, or `None` where the event is not
    /// allowed in this phase.
    pub fn advance(self, event: RequestEvent) -> (r: Option<RequestPhase>)
        ensures
            r == step(self, event),
    {
        match (self, event) {
            (RequestPhase::Arrived, RequestEvent::Decide) => Some(RequestPhase::Decided),
            (RequestPhase::Decided, RequestEvent::Dispatch) => Some(RequestPhase::Dispatched),
            (RequestPhase::Decided, RequestEvent::Reject) => Some(RequestPhase::Failed),
            (RequestPhase::Dispatched, RequestEvent::Complete) => Some(RequestPhase::Completed),
            _ => None,
        }
    }

    /// Whether the request has come to its end.
    pub fn is_terminal(self) -> (r: bool)
        ensures
            r == terminal(self),
    {
        match self {
            RequestPhase::Completed => true,
            RequestPhase::Failed => true,
            _ => false,
        }
    }
}

/// Exactly the terminal phases have no successor, and a request is
/// completed only from `Dispatched`.
pub proof fn lemma_terminal_phases(phase: RequestPhase)
    ensures
        terminal(phase) <==> (forall|e: RequestEvent| step(phase, e).is_none()),
        forall|e: RequestEvent|
            step(phase, e) == Some(RequestPhase::Completed) ==> phase == RequestPhase::Dispatched,
{
    if !terminal(phase) {
        match phase {
            RequestPhase::Arrived => {
                assert(step(phase, RequestEvent::Decide).is_some());
            },
            RequestPhase::Decided => {
                assert(step(phase, RequestEvent::Dispatch).is_some());
            },
            _ => {
                assert(step(phase, RequestEvent::Complete).is_some());
            },
        }
    }
}

} // verus!
