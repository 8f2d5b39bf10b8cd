//! The set of known endpoints, keyed by identifier.

use vstd::prelude::*;
use crate::endpoint::{views, Endpoint, EndpointState, EndpointView, RoutingError};
use crate::text::{covers, covers_all, same_text, tags_view};

verus! {

/// No identifier occurs twice.
pub open spec fn distinct_ids(s: Seq<EndpointView>) -> bool {
    forall|i: int, j: int| 0 <= i < j < s.len() ==> s[i].id != s[j].id
}

/// Index of the first of the first `n` endpoints that carries `id`; -1
/// where none does.
pub open spec fn find_in(s: Seq<EndpointView>, id: Seq<char>, n: int) -> int
    decreases n,
{
    if n <= 0 {
        -1
    } else {
        let p = find_in(s, id, n - 1);
        if p >= 0 {
            p
        } else if s[n - 1].id == id {
            n - 1
        } else {
            -1
        }
    }
}

/// Index of the endpoint that carries `id`; -1 where none does.
pub open spec fn find(s: Seq<EndpointView>, id: Seq<char>) -> int {
    find_in(s, id, s.len() as int)
}

/// `find_in` returns the first index that carries the identifier, and -1
/// exactly where no index does.
pub proof fn lemma_find_in(s: Seq<EndpointView>, id: Seq<char>, n: int)
    requires
        0 <= n <= s.len(),
    ensures
        -1 <= find_in(s, id, n) < n,
        find_in(s, id, n) >= 0 ==> s[find_in(s, id, n)].id == id,
        forall|j: int| 0 <= j < n && (#[trigger] s[j]).id == id ==> 0 <= find_in(s, id, n) <= j,
    decreases n,
{
    if n > 0 {
        lemma_find_in(s, id, n - 1);
    }
}

/// In a sequence of distinct identifiers, an index that carries `id` is the
/// one that `find` returns.
pub proof fn lemma_find_unique(s: Seq<EndpointView>, id: Seq<char>, i: int)
    requires
        distinct_ids(s),
        0 <= i < s.len(),
        s[i].id == id,
    ensures
        find(s, id) == i,
{
    lemma_find_in(s, id, s.len() as int);
}

/// `e` with its signals replaced.
pub open spec fn with_state(e: EndpointView, state: EndpointState) -> EndpointView {
    EndpointView { id: e.id, address: e.address, capabilities: e.capabilities, state }
}

/// An atomic change to the signals of one endpoint.
#[derive(Clone, Copy, Debug, PartialEq, Eq, Structural)]
pub enum StateUpdate {
    /// One more request is in flight.
    Acquire,
    /// One request in flight has ended.
    Release,
    /// The signals become the given ones.
    Replace(EndpointState),
}

/// The signals after an update. The in-flight count stays within
/// `0 ..= u64::MAX`.
pub open spec fn apply_update(s: EndpointState, u: StateUpdate) -> EndpointState {
    match u {
        StateUpdate::Acquire => EndpointState {
            inflight_requests: if s.inflight_requests < u64::MAX {
                (s.inflight_requests + 1) as u64
            } else {
                s.inflight_requests
            },
            ..s
        },
        StateUpdate::Release => EndpointState {
            inflight_requests: if s.inflight_requests > 0 {
                (s.inflight_requests - 1) as u64
            } else {
                0
            },
            ..s
        },
        StateUpdate::Replace(t) => t,
    }
}

/// The signals after an update.
pub fn updated(s: EndpointState, u: StateUpdate) -> (r: EndpointState)
    ensures
        r == apply_update(s, u),
{
    match u {
        StateUpdate::Acquire => EndpointState {
            inflight_requests: if s.inflight_requests < u64::MAX {
                s.inflight_requests + 1
            } else {
                s.inflight_requests
            },
            ..s
        },
        StateUpdate::Release => EndpointState {
            inflight_requests: if s.inflight_requests > 0 {
                s.inflight_requests - 1
            } else {
                0
            },
            ..s
        },
        StateUpdate::Replace(t) => t,
    }
}

/// The endpoints after `e` was inserted, or put in place of the one with its
/// identifier.
pub open spec fn upserted(s: Seq<EndpointView>, e: EndpointView) -> Seq<EndpointView> {
    if find(s, e.id) >= 0 {
        s.update(find(s, e.id), e)
    } else {
        s.push(e)
    }
}

/// The endpoints after the one with identifier `id`, if any, was deleted.
pub open spec fn removed(s: Seq<EndpointView>, id: Seq<char>) -> Seq<EndpointView> {
    if find(s, id) >= 0 {
        s.remove(find(s, id))
    } else {
        s
    }
}

/// The endpoints after one update to the signals of the endpoint with
/// identifier `id`; unchanged where there is none.
pub open spec fn with_update(s: Seq<EndpointView>, id: Seq<char>, u: StateUpdate) -> Seq<
    EndpointView,
> {
    if find(s, id) >= 0 {
        s.update(find(s, id), with_state(s[find(s, id)], apply_update(s[find(s, id)].state, u)))
    } else {
        s
    }
}

/// The endpoints of `s` that offer every tag of `filter`, in the order of
/// `s`.
pub open spec fn matching(s: Seq<EndpointView>, filter: Seq<Seq<char>>) -> Seq<EndpointView> {
    s.filter(|e: EndpointView| covers(e.capabilities, filter))
}

/// The known endpoints. Its view is the sequence of endpoints in the order
/// in which their identifiers were first announced.
pub struct EndpointRegistry {
    endpoints: Vec<Endpoint>,
}

impl View for EndpointRegistry {
    type V = Seq<EndpointView>;

    closed spec fn view(&self) -> Seq<EndpointView> {
        views(self.endpoints@)
    }
}

impl EndpointRegistry {
    /// The registry's invariant: identifiers are unique.
    pub open spec fn wf(&self) -> bool {
        distinct_ids(self@)
    }

    /// An empty registry.
    pub fn new() -> (r: EndpointRegistry)
        ensures
            r@ == Seq::<EndpointView>::empty(),
            r.wf(),
    {
        let r = EndpointRegistry { endpoints: Vec::new() };
        assert(r@ =~= Seq::<EndpointView>::empty());
        r
    }

    /// The number of endpoints.
    pub fn len(&self) -> (n: usize)
        ensures
            n == self@.len(),
    {
        self.endpoints.len()
    }

    /// Where the endpoint with this identifier stands.
    pub fn position(&self, id: &str) -> (r: Option<usize>)
        ensures
            match r {
                Some(i) => i < self@.len() && i as int == find(self@, id@),
                None => find(self@, id@) == -1,
            },
    {
        let mut i: usize = 0;
        while i < self.endpoints.len()
            invariant
                i <= self.endpoints.len(),
                find_in(self@, id@, i as int) == -1,
            decreases self.endpoints.len() - i,
        {
            assert(self@[i as int] == self.endpoints@[i as int]@);
            if same_text(self.endpoints[i].id.as_str(), id) {
                proof {
                    lemma_find_in(self@, id@, self@.len() as int);
                    lemma_find_in(self@, id@, i as int + 1);
                }
                return Some(i);
            }
            i += 1;
        }
        None
    }

    /// Whether an endpoint with this identifier is known.
    pub fn contains(&self, id: &str) -> (r: bool)
        ensures
            r == (find(self@, id@) >= 0),
    {
        proof {
            lemma_find_in(self@, id@, self@.len() as int);
        }
        self.position(id).is_some()
    }

    /// A copy of the endpoint with this identifier.
    pub fn get(&self, id: &str) -> (r: Result<Endpoint, RoutingError>)
        ensures
            match r {
                Ok(e) => find(self@, id@) >= 0 && e@ == self@[find(self@, id@)],
                Err(err) => find(self@, id@) == -1 && err == RoutingError::EndpointNotFound,
            },
    {
        match self.position(id) {
            Some(i) => {
                assert(self@[i as int] == self.endpoints@[i as int]@);
                Ok(self.endpoints[i].duplicate())
            },
            None => Err(RoutingError::EndpointNotFound),
        }
    }

    /// Inserts the endpoint, or replaces the one with the same identifier
    /// where it stands.
    pub fn upsert(&mut self, endpoint: Endpoint)
        requires
            old(self).wf(),
        ensures
            final(self).wf(),
            final(self)@ == upserted(old(self)@, endpoint@),
            find(final(self)@, endpoint@.id) >= 0,
            final(self)@[find(final(self)@, endpoint@.id)] == endpoint@,
    {
        let ghost before = self@;
        let ghost e = endpoint@;
        proof {
            lemma_find_in(before, e.id, before.len() as int);
        }
        match self.position(endpoint.id.as_str()) {
            Some(i) => {
                self.endpoints.set(i, endpoint);
                assert(self@ =~= before.update(i as int, e));
                proof {
                    lemma_find_unique(self@, e.id, i as int);
                }
            },
            None => {
                self.endpoints.push(endpoint);
                assert(self@ =~= before.push(e));
                proof {
                    lemma_find_unique(self@, e.id, before.len() as int);
                }
            },
        }
    }

    /// Deletes the endpoint with this identifier; says whether there was
    /// one. The others keep their order.
    pub fn remove(&mut self, id: &str) -> (r: bool)
        requires
            old(self).wf(),
        ensures
            final(self).wf(),
            r == (find(old(self)@, id@) >= 0),
            final(self)@ == removed(old(self)@, id@),
            find(final(self)@, id@) == -1,
    {
        let ghost before = self@;
        proof {
            lemma_find_in(before, id@, before.len() as int);
        }
        match self.position(id) {
            Some(i) => {
                let _gone = self.endpoints.remove(i);
                assert(self@ =~= before.remove(i as int));
                proof {
                    lemma_find_in(self@, id@, self@.len() as int);
                    let p = find(self@, id@);
                    if p >= 0 {
                        if p < i {
                            assert(before[p].id == id@);
                        } else {
                            assert(before[p + 1].id == id@);
                        }
                    }
                }
                true
            },
            None => false,
        }
    }

    /// A copy of the endpoints that offer every tag of `filter`, in the
    /// registry's order. Later changes to the registry do not reach it.
    pub fn snapshot(&self, filter: &Vec<String>) -> (r: Vec<Endpoint>)
        ensures
            views(r@) == matching(self@, tags_view(filter@)),
    {
        let ghost pred = |e: EndpointView| covers(e.capabilities, tags_view(filter@));
        let mut out: Vec<Endpoint> = Vec::new();
        let mut i: usize = 0;
        proof {
            reveal(Seq::filter);
            assert(views(out@) =~= self@.take(0).filter(pred));
        }
        while i < self.endpoints.len()
            invariant
                i <= self.endpoints.len(),
                pred == (|e: EndpointView| covers(e.capabilities, tags_view(filter@))),
                views(out@) == self@.take(i as int).filter(pred),
            decreases self.endpoints.len() - i,
        {
            assert(self@[i as int] == self.endpoints@[i as int]@);
            let ghost prev = views(out@);
            proof {
                reveal(Seq::filter);
                assert(self@.take(i + 1).drop_last() =~= self@.take(i as int));
                assert(self@.take(i + 1).last() == self@[i as int]);
            }
            if covers_all(&self.endpoints[i].capabilities, filter) {
                out.push(self.endpoints[i].duplicate());
                assert(views(out@) =~= prev.push(self@[i as int]));
            }
            i += 1;
        }
        assert(self@.take(self@.len() as int) =~= self@);
        out
    }

    /// The signals of the endpoint with this identifier.
    pub fn state_of(&self, id: &str) -> (r: Result<EndpointState, RoutingError>)
        ensures
            match r {
                Ok(s) => find(self@, id@) >= 0 && s == self@[find(self@, id@)].state,
                Err(err) => find(self@, id@) == -1 && err == RoutingError::EndpointNotFound,
            },
    {
        match self.position(id) {
            Some(i) => {
                assert(self@[i as int] == self.endpoints@[i as int]@);
                Ok(self.endpoints[i].state)
            },
            None => Err(RoutingError::EndpointNotFound),
        }
    }

    /// The signals of the endpoint at index `i`.
    pub fn state_at(&self, i: usize) -> (r: EndpointState)
        requires
            i < self@.len(),
        ensures
            r == self@[i as int].state,
    {
        assert(self@[i as int] == self.endpoints@[i as int]@);
        self.endpoints[i].state
    }

    /// Replaces the signals of the endpoint at index `i`.
    pub fn set_state_at(&mut self, i: usize, state: EndpointState)
        requires
            old(self).wf(),
            i < old(self)@.len(),
        ensures
            final(self).wf(),
            final(self)@ == old(self)@.update(i as int, with_state(old(self)@[i as int], state)),
    {
        let ghost before = self@;
        assert(self@[i as int] == self.endpoints@[i as int]@);
        self.endpoints[i].state = state;
        assert(self@ =~= before.update(i as int, with_state(before[i as int], state)));
    }

    /// Applies one update to the signals of the endpoint with this
    /// identifier.
    pub fn update_state(&mut self, id: &str, update: StateUpdate) -> (r: Result<(), RoutingError>)
        requires
            old(self).wf(),
        ensures
            final(self).wf(),
            final(self)@ == with_update(old(self)@, id@, update),
            match r {
                Ok(_) => find(old(self)@, id@) >= 0,
                Err(e) => find(old(self)@, id@) == -1 && e == RoutingError::EndpointNotFound,
            },
    {
        let ghost before = self@;
        match self.position(id) {
            Some(i) => {
                assert(self@[i as int] == self.endpoints@[i as int]@);
                let next = updated(self.endpoints[i].state, update);
                self.endpoints[i].state = next;
                assert(self@ =~= before.update(
                    i as int,
                    with_state(before[i as int], apply_update(before[i as int].state, update)),
                ));
                Ok(())
            },
            None => Err(RoutingError::EndpointNotFound),
        }
    }
}

/// Upserting the same endpoint twice leaves the registry as the first
/// upsert left it.
pub proof fn lemma_upsert_idempotent(s: Seq<EndpointView>, e: EndpointView)
    ensures
        upserted(upserted(s, e), e) == upserted(s, e),
{
    let t = upserted(s, e);
    lemma_find_in(s, e.id, s.len() as int);
    lemma_find_in(t, e.id, t.len() as int);
    let i = find(s, e.id);
    if i >= 0 {
        assert(t[i].id == e.id);
        assert forall|j: int| 0 <= j < i implies (#[trigger] t[j]).id != e.id by {
            assert(s[j] == t[j]);
        }
        assert(find(t, e.id) == i);
        assert(t.update(i, e) =~= t);
    } else {
        assert(t[s.len() as int].id == e.id);
        assert forall|j: int| 0 <= j < s.len() implies (#[trigger] t[j]).id != e.id by {
            assert(s[j] == t[j]);
        }
        assert(find(t, e.id) == s.len());
        assert(t.update(s.len() as int, e) =~= t);
    }
}

/// After an upsert the endpoint is found under its identifier; after a
/// removal nothing is found under the removed identifier, and removing it
/// again changes nothing.
pub proof fn lemma_upsert_then_remove(s: Seq<EndpointView>, e: EndpointView)
    requires
        distinct_ids(s),
    ensures
        find(upserted(s, e), e.id) >= 0,
        upserted(s, e)[find(upserted(s, e), e.id)] == e,
        find(removed(s, e.id), e.id) == -1,
        removed(removed(s, e.id), e.id) == removed(s, e.id),
{
    let t = upserted(s, e);
    lemma_find_in(s, e.id, s.len() as int);
    lemma_find_in(t, e.id, t.len() as int);
    let i = find(s, e.id);
    if i >= 0 {
        assert(t[i].id == e.id);
        assert forall|j: int| 0 <= j < i implies (#[trigger] t[j]).id != e.id by {
            assert(s[j] == t[j]);
        }
    } else {
        assert(t[s.len() as int].id == e.id);
        assert forall|j: int| 0 <= j < s.len() implies (#[trigger] t[j]).id != e.id by {
            assert(s[j] == t[j]);
        }
    }
    let r = removed(s, e.id);
    lemma_find_in(r, e.id, r.len() as int);
    let p = find(r, e.id);
    if p >= 0 && i >= 0 {
        if p < i {
            assert(s[p].id == e.id);
        } else {
            assert(s[p + 1].id == e.id);
        }
    }
}

/// A snapshot holds exactly the endpoints of the registry, each as a whole,
/// that offer every tag of the filter.
pub proof fn lemma_snapshot_members(s: Seq<EndpointView>, filter: Seq<Seq<char>>, e: EndpointView)
    ensures
        matching(s, filter).contains(e) <==> (s.contains(e) && covers(e.capabilities, filter)),
{
    let pred = |x: EndpointView| covers(x.capabilities, filter);
    if matching(s, filter).contains(e) {
        let i = choose|i: int| 0 <= i < matching(s, filter).len() && matching(s, filter)[i] == e;
        s.lemma_filter_pred(pred, i);
        s.lemma_filter_contains_rev(pred, e);
    }
    if s.contains(e) && covers(e.capabilities, filter) {
        let i = choose|i: int| 0 <= i < s.len() && s[i] == e;
        s.lemma_filter_contains(pred, i);
    }
}

/// A snapshot of endpoints with distinct identifiers has distinct
/// identifiers.
pub proof fn lemma_snapshot_distinct(s: Seq<EndpointView>, filter: Seq<Seq<char>>)
    requires
        distinct_ids(s),
    ensures
        distinct_ids(matching(s, filter)),
    decreases s.len(),
{
    reveal(Seq::filter);
    let pred = |e: EndpointView| covers(e.capabilities, filter);
    if s.len() > 0 {
        let rest = s.drop_last();
        lemma_snapshot_distinct(rest, filter);
        let kept = matching(rest, filter);
        if pred(s.last()) {
            assert forall|i: int| 0 <= i < kept.len() implies (#[trigger] kept[i]).id
                != s.last().id by {
                assert(kept.contains(kept[i]));
                rest.lemma_filter_contains_rev(pred, kept[i]);
                let k = choose|k: int| 0 <= k < rest.len() && rest[k] == kept[i];
                assert(s[k] == kept[i]);
            }
        }
    }
}

} // verus!
