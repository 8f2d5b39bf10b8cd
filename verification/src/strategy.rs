//! Selection of one endpoint for a request: pure functions of the request,
//! the candidates and the configuration.

use vstd::prelude::*;
use crate::config::{Config, StrategyKind};
use crate::endpoint::{
    views, DecisionView, Endpoint, EndpointView, Rationale, RequestView, RoutingDecision,
    RoutingError, RoutingRequest,
};
use crate::text::{
    covers, covers_all, id_less, lemma_id_order_total, lemma_id_order_transitive, precedes,
    tags_view,
};

verus! {

/// A candidate may take the request: it is healthy and, where `strict`,
/// offers every required capability.
pub open spec fn qualifies(e: EndpointView, required: Seq<Seq<char>>, strict: bool) -> bool {
    e.state.healthy && (strict ==> covers(e.capabilities, required))
}

/// The load score in thousandths: in-flight requests plus the weighted
/// latency estimate.
pub open spec fn score(e: EndpointView, weight_permille: u32) -> int {
    e.state.inflight_requests * 1000 + weight_permille * e.state.rolling_latency_ms
}

/// `a` ranks strictly before `b`: lower score, or equal score and the
/// lexically smaller identifier.
pub open spec fn ranks_before(a: EndpointView, b: EndpointView, weight_permille: u32) -> bool {
    score(a, weight_permille) < score(b, weight_permille) || (score(a, weight_permille) == score(
        b,
        weight_permille,
    ) && id_less(a.id, b.id))
}

/// Index of the best-ranked qualifying candidate among the first `n`, the
/// earliest where several rank equal; -1 where none qualifies.
pub open spec fn pick_best(
    cands: Seq<EndpointView>,
    required: Seq<Seq<char>>,
    strict: bool,
    weight_permille: u32,
    n: int,
) -> int
    decreases n,
{
    if n <= 0 {
        -1
    } else {
        let p = pick_best(cands, required, strict, weight_permille, n - 1);
        if !qualifies(cands[n - 1], required, strict) {
            p
        } else if p < 0 {
            n - 1
        } else if ranks_before(cands[n - 1], cands[p], weight_permille) {
            n - 1
        } else {
            p
        }
    }
}

/// Index of the first candidate among the first `n` that carries the
/// identifier `hint` and qualifies strictly; -1 where there is none.
pub open spec fn pick_sticky(
    cands: Seq<EndpointView>,
    required: Seq<Seq<char>>,
    hint: Seq<char>,
    n: int,
) -> int
    decreases n,
{
    if n <= 0 {
        -1
    } else {
        let p = pick_sticky(cands, required, hint, n - 1);
        if p >= 0 {
            p
        } else if qualifies(cands[n - 1], required, true) && cands[n - 1].id == hint {
            n - 1
        } else {
            -1
        }
    }
}

/// The decision that names candidate `e` for request `req`.
pub open spec fn decision_for(req: RequestView, e: EndpointView, rationale: Rationale)
    -> DecisionView {
    DecisionView { request_id: req.request_id, endpoint: e.id, address: e.address, rationale }
}

/// The index that stickiness selects, -1 where it does not apply.
pub open spec fn sticky_choice(req: RequestView, cands: Seq<EndpointView>, cfg: Config) -> int {
    match req.affinity {
        Some(hint) => if cfg.affinity_priority {
            pick_sticky(cands, req.required, hint, cands.len() as int)
        } else {
            -1
        },
        None => -1,
    }
}

/// The least-loaded strategy: the affinity hint where it names a qualifying
/// candidate, else the best-ranked qualifying candidate, else (where
/// degraded fallback is allowed) the best-ranked healthy candidate.
pub open spec fn least_loaded_decision(req: RequestView, cands: Seq<EndpointView>, cfg: Config)
    -> Result<DecisionView, RoutingError> {
    let n = cands.len() as int;
    let s = sticky_choice(req, cands, cfg);
    let b = pick_best(cands, req.required, true, cfg.latency_weight_permille, n);
    let f = pick_best(cands, req.required, false, cfg.latency_weight_permille, n);
    if s >= 0 {
        Ok(decision_for(req, cands[s], Rationale::Sticky))
    } else if b >= 0 {
        Ok(decision_for(req, cands[b], Rationale::LeastLoaded))
    } else if cfg.allow_degraded_fallback && f >= 0 {
        Ok(decision_for(req, cands[f], Rationale::Fallback))
    } else {
        Err(RoutingError::NoEligibleEndpoint)
    }
}

/// Ranking is transitive.
pub proof fn lemma_ranks_transitive(a: EndpointView, b: EndpointView, c: EndpointView, w: u32)
    requires
        ranks_before(a, b, w),
        ranks_before(b, c, w),
    ensures
        ranks_before(a, c, w),
{
    if score(a, w) == score(b, w) && score(b, w) == score(c, w) {
        lemma_id_order_transitive(a.id, b.id, c.id);
    }
}

/// What `pick_best` returns is a qualifying candidate that no qualifying
/// candidate ranks before, and it is -1 only where no candidate qualifies.
pub proof fn lemma_pick_best_is_least(
    cands: Seq<EndpointView>,
    required: Seq<Seq<char>>,
    strict: bool,
    w: u32,
    n: int,
)
    requires
        0 <= n <= cands.len(),
    ensures
        ({
            let p = pick_best(cands, required, strict, w, n);
            &&& -1 <= p < n
            &&& p >= 0 ==> qualifies(cands[p], required, strict)
            &&& forall|j: int|
                0 <= j < n && qualifies(#[trigger] cands[j], required, strict) ==> p >= 0
                    && !ranks_before(cands[j], cands[p], w)
        }),
    decreases n,
{
    if n > 0 {
        lemma_pick_best_is_least(cands, required, strict, w, n - 1);
        let q = pick_best(cands, required, strict, w, n - 1);
        let p = pick_best(cands, required, strict, w, n);
        let c = cands[n - 1];
        if qualifies(c, required, strict) {
            lemma_id_order_total(c.id, c.id);
            if q >= 0 && ranks_before(c, cands[q], w) {
                assert forall|j: int|
                    0 <= j < n && qualifies(#[trigger] cands[j], required, strict) implies !ranks_before(
                    cands[j],
                    cands[p],
                    w,
                ) by {
                    if j < n - 1 && ranks_before(cands[j], c, w) {
                        lemma_ranks_transitive(cands[j], c, cands[q], w);
                    }
                }
            }
        }
    }
}

/// What `pick_sticky` returns is the first strictly qualifying candidate
/// with the hinted identifier, and it is -1 only where there is none.
pub proof fn lemma_pick_sticky_is_first(
    cands: Seq<EndpointView>,
    required: Seq<Seq<char>>,
    hint: Seq<char>,
    n: int,
)
    requires
        0 <= n <= cands.len(),
    ensures
        ({
            let p = pick_sticky(cands, required, hint, n);
            &&& -1 <= p < n
            &&& p >= 0 ==> qualifies(cands[p], required, true) && cands[p].id == hint
            &&& forall|j: int|
                0 <= j < n && qualifies(#[trigger] cands[j], required, true) && cands[j].id == hint
                    ==> 0 <= p <= j
        }),
    decreases n,
{
    if n > 0 {
        lemma_pick_sticky_is_first(cands, required, hint, n - 1);
    }
}

/// The score of a candidate, in thousandths.
pub fn score_of(e: &Endpoint, weight_permille: u32) -> (r: u128)
    ensures
        r == score(e@, weight_permille),
{
    let load: u128 = e.state.inflight_requests as u128;
    let latency: u128 = e.state.rolling_latency_ms as u128;
    let weight: u128 = weight_permille as u128;
    assert(weight * latency <= 0xffff_ffff * 0xffff_ffff_ffff_ffff) by (nonlinear_arith)
        requires
            0 <= weight <= 0xffff_ffff,
            0 <= latency <= 0xffff_ffff_ffff_ffff,
    ;
    load * 1000 + weight * latency
}

/// Whether `a` ranks strictly before `b`.
pub fn ranks_first(a: &Endpoint, b: &Endpoint, weight_permille: u32) -> (r: bool)
    ensures
        r == ranks_before(a@, b@, weight_permille),
{
    let x = score_of(a, weight_permille);
    let y = score_of(b, weight_permille);
    if x != y {
        x < y
    } else {
        precedes(a.id.as_str(), b.id.as_str())
    }
}

/// Whether a candidate may take a request with these requirements.
pub fn is_qualified(e: &Endpoint, required: &Vec<String>, strict: bool) -> (r: bool)
    ensures
        r == qualifies(e@, tags_view(required@), strict),
{
    if !e.state.healthy {
        false
    } else if strict {
        covers_all(&e.capabilities, required)
    } else {
        true
    }
}

/// The best-ranked qualifying candidate, by index.
pub fn best_candidate(
    cands: &Vec<Endpoint>,
    required: &Vec<String>,
    strict: bool,
    weight_permille: u32,
) -> (r: Option<usize>)
    ensures
        match r {
            Some(i) => i < cands.len() && i as int == pick_best(
                views(cands@),
                tags_view(required@),
                strict,
                weight_permille,
                cands.len() as int,
            ),
            None => pick_best(
                views(cands@),
                tags_view(required@),
                strict,
                weight_permille,
                cands.len() as int,
            ) == -1,
        },
{
    let mut best: Option<usize> = None;
    let mut i: usize = 0;
    while i < cands.len()
        invariant
            i <= cands.len(),
            match best {
                Some(b) => b < i && b as int == pick_best(
                    views(cands@),
                    tags_view(required@),
                    strict,
                    weight_permille,
                    i as int,
                ),
                None => pick_best(
                    views(cands@),
                    tags_view(required@),
                    strict,
                    weight_permille,
                    i as int,
                ) == -1,
            },
        decreases cands.len() - i,
    {
        assert(views(cands@)[i as int] == cands@[i as int]@);
        if is_qualified(&cands[i], required, strict) {
            match best {
                None => {
                    best = Some(i);
                },
                Some(b) => {
                    assert(views(cands@)[b as int] == cands@[b as int]@);
                    if ranks_first(&cands[i], &cands[b], weight_permille) {
                        best = Some(i);
                    }
                },
            }
        }
        i += 1;
    }
    best
}

/// The first strictly qualifying candidate with the hinted identifier, by
/// index.
pub fn sticky_candidate(cands: &Vec<Endpoint>, required: &Vec<String>, hint: &String) -> (r: Option<
    usize,
>)
    ensures
        match r {
            Some(i) => i < cands.len() && i as int == pick_sticky(
                views(cands@),
                tags_view(required@),
                hint@,
                cands.len() as int,
            ),
            None => pick_sticky(
                views(cands@),
                tags_view(required@),
                hint@,
                cands.len() as int,
            ) == -1,
        },
{
    let mut i: usize = 0;
    while i < cands.len()
        invariant
            i <= cands.len(),
            pick_sticky(views(cands@), tags_view(required@), hint@, i as int) == -1,
        decreases cands.len() - i,
    {
        assert(views(cands@)[i as int] == cands@[i as int]@);
        if cands[i].id == *hint && is_qualified(&cands[i], required, true) {
            proof {
                lemma_pick_sticky_stays(
                    views(cands@),
                    tags_view(required@),
                    hint@,
                    i as int + 1,
                    cands.len() as int,
                );
            }
            return Some(i);
        }
        i += 1;
    }
    None
}

/// Once `pick_sticky` has found a candidate among the first `n`, it returns
/// the same one for every longer prefix.
pub proof fn lemma_pick_sticky_stays(
    cands: Seq<EndpointView>,
    required: Seq<Seq<char>>,
    hint: Seq<char>,
    n: int,
    m: int,
)
    requires
        0 <= n <= m,
        pick_sticky(cands, required, hint, n) >= 0,
    ensures
        pick_sticky(cands, required, hint, m) == pick_sticky(cands, required, hint, n),
    decreases m - n,
{
    if n < m {
        lemma_pick_sticky_stays(cands, required, hint, n, m - 1);
    }
}

/// The decision that names `e`.
pub fn decide_for(request: &RoutingRequest, e: &Endpoint, rationale: Rationale) -> (r:
    RoutingDecision)
    ensures
        r@ == decision_for(request@, e@, rationale),
{
    RoutingDecision {
        request_id: request.request_id,
        endpoint: e.id.clone(),
        address: e.address.clone(),
        rationale,
    }
}

/// Selects by load: the affinity hint where it names a qualifying
/// candidate, else the qualifying candidate with the lowest score (ties by
/// identifier), else a healthy one where degraded fallback is allowed.
pub fn select_least_loaded(request: &RoutingRequest, cands: &Vec<Endpoint>, cfg: &Config) -> (r:
    Result<RoutingDecision, RoutingError>)
    ensures
        decision_view(r) == least_loaded_decision(request@, views(cands@), *cfg),
{
    if cfg.affinity_priority {
        if let Some(hint) = &request.affinity {
            if let Some(s) = sticky_candidate(cands, &request.required_capabilities, hint) {
                assert(views(cands@)[s as int] == cands@[s as int]@);
                return Ok(decide_for(request, &cands[s], Rationale::Sticky));
            }
        }
    }
    if let Some(b) = best_candidate(
        cands,
        &request.required_capabilities,
        true,
        cfg.latency_weight_permille,
    ) {
        assert(views(cands@)[b as int] == cands@[b as int]@);
        return Ok(decide_for(request, &cands[b], Rationale::LeastLoaded));
    }
    if cfg.allow_degraded_fallback {
        if let Some(f) = best_candidate(
            cands,
            &request.required_capabilities,
            false,
            cfg.latency_weight_permille,
        ) {
            assert(views(cands@)[f as int] == cands@[f as int]@);
            return Ok(decide_for(request, &cands[f], Rationale::Fallback));
        }
    }
    Err(RoutingError::NoEligibleEndpoint)
}

/// How many of the first `n` candidates qualify strictly.
pub open spec fn count_qualifying(cands: Seq<EndpointView>, required: Seq<Seq<char>>, n: int)
    -> int
    decreases n,
{
    if n <= 0 {
        0
    } else {
        count_qualifying(cands, required, n - 1) + if qualifies(cands[n - 1], required, true) {
            1int
        } else {
            0int
        }
    }
}

/// Index of the strictly qualifying candidate that has exactly `k`
/// qualifying candidates before it, looked for among the first `n`; -1
/// where there is none.
pub open spec fn nth_qualifying(
    cands: Seq<EndpointView>,
    required: Seq<Seq<char>>,
    k: int,
    n: int,
) -> int
    decreases n,
{
    if n <= 0 {
        -1
    } else {
        let p = nth_qualifying(cands, required, k, n - 1);
        if p >= 0 {
            p
        } else if qualifies(cands[n - 1], required, true) && count_qualifying(
            cands,
            required,
            n - 1,
        ) == k {
            n - 1
        } else {
            -1
        }
    }
}

/// The round-robin strategy: of the `m` strictly qualifying candidates, in
/// their order, the one with `request_id mod m` before it. It knows neither
/// affinity nor fallback.
pub open spec fn round_robin_decision(req: RequestView, cands: Seq<EndpointView>) -> Result<
    DecisionView,
    RoutingError,
> {
    let n = cands.len() as int;
    let total = count_qualifying(cands, req.required, n);
    if total > 0 {
        Ok(
            decision_for(
                req,
                cands[nth_qualifying(cands, req.required, req.request_id as int % total, n)],
                Rationale::RoundRobin,
            ),
        )
    } else {
        Err(RoutingError::NoEligibleEndpoint)
    }
}

/// The decision of the configured strategy.
pub open spec fn decide(req: RequestView, cands: Seq<EndpointView>, cfg: Config) -> Result<
    DecisionView,
    RoutingError,
> {
    match cfg.strategy {
        StrategyKind::LeastLoaded => least_loaded_decision(req, cands, cfg),
        StrategyKind::RoundRobin => round_robin_decision(req, cands),
    }
}

/// A result with its decision as plain values.
pub open spec fn decision_view(r: Result<RoutingDecision, RoutingError>) -> Result<
    DecisionView,
    RoutingError,
> {
    match r {
        Ok(d) => Ok(d@),
        Err(e) => Err(e),
    }
}

/// The count of qualifying candidates lies between 0 and `n`; where it
/// exceeds `k`, `nth_qualifying` finds a qualifying candidate with `k`
/// qualifying ones before it.
pub proof fn lemma_nth_qualifying(
    cands: Seq<EndpointView>,
    required: Seq<Seq<char>>,
    k: int,
    n: int,
)
    requires
        0 <= n <= cands.len(),
        0 <= k,
    ensures
        0 <= count_qualifying(cands, required, n) <= n,
        ({
            let p = nth_qualifying(cands, required, k, n);
            &&& -1 <= p < n
            &&& (p >= 0) == (k < count_qualifying(cands, required, n))
            &&& p >= 0 ==> qualifies(cands[p], required, true) && count_qualifying(
                cands,
                required,
                p,
            ) == k
        }),
    decreases n,
{
    if n > 0 {
        lemma_nth_qualifying(cands, required, k, n - 1);
    }
}

/// Once `nth_qualifying` has found a candidate among the first `n`, it
/// returns the same one for every longer prefix.
pub proof fn lemma_nth_qualifying_stays(
    cands: Seq<EndpointView>,
    required: Seq<Seq<char>>,
    k: int,
    n: int,
    m: int,
)
    requires
        0 <= n <= m,
        nth_qualifying(cands, required, k, n) >= 0,
    ensures
        nth_qualifying(cands, required, k, m) == nth_qualifying(cands, required, k, n),
    decreases m - n,
{
    if n < m {
        lemma_nth_qualifying_stays(cands, required, k, n, m - 1);
    }
}

/// Every decision names a healthy candidate, which offers every required
/// capability unless the rationale is `Fallback`.
pub proof fn lemma_decision_names_candidate(
    req: RequestView,
    cands: Seq<EndpointView>,
    cfg: Config,
)
    requires
        decide(req, cands, cfg).is_ok(),
    ensures
        exists|i: int|
            0 <= i < cands.len() && decide(req, cands, cfg) == Ok::<DecisionView, RoutingError>(
                decision_for(req, #[trigger] cands[i], decide(req, cands, cfg).unwrap().rationale),
            ) && cands[i].state.healthy && (decide(req, cands, cfg).unwrap().rationale
                != Rationale::Fallback ==> covers(cands[i].capabilities, req.required)),
{
    let n = cands.len() as int;
    let w = cfg.latency_weight_permille;
    match cfg.strategy {
        StrategyKind::LeastLoaded => {
            lemma_pick_best_is_least(cands, req.required, true, w, n);
            lemma_pick_best_is_least(cands, req.required, false, w, n);
            let s = sticky_choice(req, cands, cfg);
            if s >= 0 {
                lemma_pick_sticky_is_first(cands, req.required, req.affinity.unwrap(), n);
                assert(cands[s].state.healthy);
            } else if pick_best(cands, req.required, true, w, n) >= 0 {
                assert(cands[pick_best(cands, req.required, true, w, n)].state.healthy);
            } else {
                assert(cands[pick_best(cands, req.required, false, w, n)].state.healthy);
            }
        },
        StrategyKind::RoundRobin => {
            let total = count_qualifying(cands, req.required, n);
            let k = req.request_id as int % total;
            lemma_nth_qualifying(cands, req.required, k, n);
            assert(cands[nth_qualifying(cands, req.required, k, n)].state.healthy);
        },
    }
}

/// Selects in turn: of the strictly qualifying candidates, the one whose
/// place among them is the request identifier modulo their number.
pub fn select_round_robin(request: &RoutingRequest, cands: &Vec<Endpoint>) -> (r: Result<
    RoutingDecision,
    RoutingError,
>)
    ensures
        decision_view(r) == round_robin_decision(request@, views(cands@)),
{
    let ghost cv = views(cands@);
    let ghost rv = request@.required;
    let mut total: usize = 0;
    let mut i: usize = 0;
    while i < cands.len()
        invariant
            i <= cands.len(),
            cv == views(cands@),
            rv == request@.required,
            total <= i,
            total as int == count_qualifying(cv, rv, i as int),
        decreases cands.len() - i,
    {
        assert(cv[i as int] == cands@[i as int]@);
        if is_qualified(&cands[i], &request.required_capabilities, true) {
            total += 1;
        }
        i += 1;
    }
    if total == 0 {
        return Err(RoutingError::NoEligibleEndpoint);
    }
    let turn: u64 = request.request_id % (total as u64);
    let mut seen: u64 = 0;
    let mut j: usize = 0;
    while j < cands.len()
        invariant
            j <= cands.len(),
            cv == views(cands@),
            rv == request@.required,
            turn as int == request.request_id as int % total as int,
            turn < total,
            total as int == count_qualifying(cv, rv, cands.len() as int),
            seen <= turn,
            seen as int == count_qualifying(cv, rv, j as int),
            nth_qualifying(cv, rv, turn as int, j as int) == -1,
        decreases cands.len() - j,
    {
        assert(cv[j as int] == cands@[j as int]@);
        if is_qualified(&cands[j], &request.required_capabilities, true) {
            if seen == turn {
                proof {
                    lemma_nth_qualifying_stays(
                        cv,
                        rv,
                        turn as int,
                        j as int + 1,
                        cands.len() as int,
                    );
                }
                return Ok(decide_for(request, &cands[j], Rationale::RoundRobin));
            }
            seen += 1;
        }
        j += 1;
    }
    proof {
        lemma_nth_qualifying(cv, rv, turn as int, cands.len() as int);
    }
    Err(RoutingError::NoEligibleEndpoint)
}

/// Selects with the configured strategy.
pub fn select(request: &RoutingRequest, cands: &Vec<Endpoint>, cfg: &Config) -> (r: Result<
    RoutingDecision,
    RoutingError,
>)
    ensures
        decision_view(r) == decide(request@, views(cands@), *cfg),
{
    match cfg.strategy {
        StrategyKind::LeastLoaded => select_least_loaded(request, cands, cfg),
        StrategyKind::RoundRobin => select_round_robin(request, cands),
    }
}

/// The decision depends on nothing but the request, the candidates and the
/// options: equal inputs give equal decisions.
pub proof fn lemma_decision_deterministic(
    req: RequestView,
    cands: Seq<EndpointView>,
    cfg: Config,
    other_req: RequestView,
    other_cands: Seq<EndpointView>,
    other_cfg: Config,
)
    requires
        req == other_req,
        cands =~= other_cands,
        cfg == other_cfg,
    ensures
        decide(req, cands, cfg) == decide(other_req, other_cands, other_cfg),
{
}

/// Of two candidates with different identifiers, one ranks before the
/// other.
pub proof fn lemma_ranks_total(a: EndpointView, b: EndpointView, w: u32)
    requires
        a.id != b.id,
    ensures
        ranks_before(a, b, w) || ranks_before(b, a, w),
{
    lemma_id_order_total(a.id, b.id);
}

/// Among candidates with distinct identifiers the best-ranked qualifying
/// one is the only qualifying candidate that none ranks before: the choice
/// does not depend on the order of the candidates.
pub proof fn lemma_best_is_unique_minimum(
    cands: Seq<EndpointView>,
    required: Seq<Seq<char>>,
    strict: bool,
    w: u32,
    j: int,
)
    requires
        forall|a: int, b: int| 0 <= a < b < cands.len() ==> cands[a].id != cands[b].id,
        0 <= j < cands.len(),
        qualifies(cands[j], required, strict),
        forall|k: int|
            0 <= k < cands.len() && qualifies(#[trigger] cands[k], required, strict)
                ==> !ranks_before(cands[k], cands[j], w),
    ensures
        pick_best(cands, required, strict, w, cands.len() as int) == j,
{
    let p = pick_best(cands, required, strict, w, cands.len() as int);
    lemma_pick_best_is_least(cands, required, strict, w, cands.len() as int);
    assert(qualifies(cands[j], required, strict));
    assert(p >= 0 && !ranks_before(cands[j], cands[p], w));
    assert(qualifies(cands[p], required, strict));
    if p != j {
        lemma_ranks_total(cands[p], cands[j], w);
    }
}

} // verus!
