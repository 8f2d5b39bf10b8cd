//! Health and latency signals: how reports change an endpoint's state.

use vstd::prelude::*;
use crate::config::Config;
use crate::endpoint::{EndpointState, EndpointView, OutcomeReport, RoutingError};
use crate::registry::{find, with_state, with_update, EndpointRegistry, StateUpdate};

verus! {

/// The moving average after one sample: the sample weighs `smoothing`
/// thousandths, the previous estimate the rest; rounded down.
pub open spec fn ewma(previous: u64, observed: u64, smoothing_permille: u32) -> int {
    (smoothing_permille * observed + (1000 - smoothing_permille) * previous) / 1000
}

/// The signals after one reported outcome. A success makes the endpoint
/// healthy and clears its failure run; a failure extends the run and makes
/// the endpoint unhealthy once the run reaches the threshold.
pub open spec fn after_outcome(
    s: EndpointState,
    success: bool,
    latency_ms: u64,
    now: u64,
    cfg: Config,
) -> EndpointState {
    let latency = ewma(s.rolling_latency_ms, latency_ms, cfg.smoothing_permille) as u64;
    if success {
        EndpointState {
            healthy: true,
            consecutive_failures: 0,
            rolling_latency_ms: latency,
            last_update: now,
            ..s
        }
    } else {
        let run = if s.consecutive_failures < u64::MAX {
            (s.consecutive_failures + 1) as u64
        } else {
            s.consecutive_failures
        };
        EndpointState {
            healthy: s.healthy && run < cfg.failure_threshold,
            consecutive_failures: run,
            last_failure: now,
            rolling_latency_ms: latency,
            last_update: now,
            ..s
        }
    }
}

/// The signals after an active health probe reported `healthy`: the flag is
/// taken as given and the failure run starts anew.
pub open spec fn after_probe(s: EndpointState, healthy: bool, now: u64) -> EndpointState {
    EndpointState { healthy, consecutive_failures: 0, last_update: now, ..s }
}

/// An endpoint that failures made unhealthy has gone the cooldown without
/// another failure.
pub open spec fn cooled_down(s: EndpointState, now: u64, cfg: Config) -> bool {
    &&& !s.healthy
    &&& s.consecutive_failures >= cfg.failure_threshold
    &&& now >= s.last_failure
    &&& now - s.last_failure >= cfg.recovery_cooldown_seconds
}

/// The signals as they count at time `now`: healthy again after the
/// cooldown, else as they are.
pub open spec fn after_cooldown(s: EndpointState, now: u64, cfg: Config) -> EndpointState {
    if cooled_down(s, now, cfg) {
        EndpointState { healthy: true, consecutive_failures: 0, last_update: now, ..s }
    } else {
        s
    }
}

/// Every endpoint with its signals as they count at time `now`.
pub open spec fn cooled(s: Seq<EndpointView>, now: u64, cfg: Config) -> Seq<EndpointView> {
    s.map_values(|e: EndpointView| with_state(e, after_cooldown(e.state, now, cfg)))
}

/// The endpoints after an outcome was reported for `id`; unchanged where no
/// endpoint carries it.
pub open spec fn with_outcome(
    s: Seq<EndpointView>,
    id: Seq<char>,
    success: bool,
    latency_ms: u64,
    now: u64,
    cfg: Config,
) -> Seq<EndpointView> {
    if find(s, id) >= 0 {
        with_update(
            s,
            id,
            StateUpdate::Replace(after_outcome(s[find(s, id)].state, success, latency_ms, now, cfg)),
        )
    } else {
        s
    }
}

/// The endpoints after a health probe was reported for `id`; unchanged
/// where no endpoint carries it.
pub open spec fn with_probe(s: Seq<EndpointView>, id: Seq<char>, healthy: bool, now: u64) -> Seq<
    EndpointView,
> {
    if find(s, id) >= 0 {
        with_update(s, id, StateUpdate::Replace(after_probe(s[find(s, id)].state, healthy, now)))
    } else {
        s
    }
}

/// The moving average after one sample.
pub fn smoothed(previous: u64, observed: u64, smoothing_permille: u32) -> (r: u64)
    requires
        smoothing_permille <= 1000,
    ensures
        r == ewma(previous, observed, smoothing_permille),
        previous <= observed ==> previous <= r <= observed,
        observed <= previous ==> observed <= r <= previous,
{
    let w: u128 = smoothing_permille as u128;
    let p: u128 = previous as u128;
    let o: u128 = observed as u128;
    assert(w * o + (1000 - w) * p <= 1000 * 0xffff_ffff_ffff_ffff) by (nonlinear_arith)
        requires
            0 <= w <= 1000,
            0 <= p <= 0xffff_ffff_ffff_ffff,
            0 <= o <= 0xffff_ffff_ffff_ffff,
    ;
    assert(p <= o ==> 1000 * p <= w * o + (1000 - w) * p <= 1000 * o) by (nonlinear_arith)
        requires
            0 <= w <= 1000,
            0 <= p,
            0 <= o,
    ;
    assert(o <= p ==> 1000 * o <= w * o + (1000 - w) * p <= 1000 * p) by (nonlinear_arith)
        requires
            0 <= w <= 1000,
            0 <= p,
            0 <= o,
    ;
    let mixed: u128 = (w * o + (1000 - w) * p) / 1000;
    mixed as u64
}

/// Applies reports to the registry.
pub struct SignalCollector {
    config: Config,
}

impl SignalCollector {
    /// The options the collector works with.
    pub closed spec fn config(&self) -> Config {
        self.config
    }

    /// The options the collector works with.
    pub fn options(&self) -> (r: Config)
        ensures
            r == self.config(),
    {
        self.config
    }

    /// The collector's invariant: its options are valid.
    pub open spec fn wf(&self) -> bool {
        self.config().valid()
    }

    /// A collector with these options, where they are valid.
    pub fn new(config: Config) -> (r: Result<SignalCollector, RoutingError>)
        ensures
            match r {
                Ok(c) => config.valid() && c.config() == config && c.wf(),
                Err(e) => !config.valid() && e == RoutingError::InvalidConfiguration,
            },
    {
        match config.validate() {
            Ok(_) => Ok(SignalCollector { config }),
            Err(_) => Err(RoutingError::InvalidConfiguration),
        }
    }

    /// The signals after one reported outcome.
    pub fn next_after_outcome(&self, s: EndpointState, success: bool, latency_ms: u64, now: u64)
        -> (r: EndpointState)
        requires
            self.wf(),
        ensures
            r == after_outcome(s, success, latency_ms, now, self.config()),
    {
        let latency = smoothed(s.rolling_latency_ms, latency_ms, self.config.smoothing_permille);
        if success {
            EndpointState {
                healthy: true,
                consecutive_failures: 0,
                rolling_latency_ms: latency,
                last_update: now,
                ..s
            }
        } else {
            let run: u64 = if s.consecutive_failures < u64::MAX {
                s.consecutive_failures + 1
            } else {
                s.consecutive_failures
            };
            EndpointState {
                healthy: s.healthy && run < self.config.failure_threshold,
                consecutive_failures: run,
                last_failure: now,
                rolling_latency_ms: latency,
                last_update: now,
                ..s
            }
        }
    }

    /// The signals as they count at time `now`.
    pub fn next_after_cooldown(&self, s: EndpointState, now: u64) -> (r: EndpointState)
        ensures
            r == after_cooldown(s, now, self.config()),
    {
        if !s.healthy && s.consecutive_failures >= self.config.failure_threshold && now
            >= s.last_failure && now - s.last_failure >= self.config.recovery_cooldown_seconds {
            EndpointState { healthy: true, consecutive_failures: 0, last_update: now, ..s }
        } else {
            s
        }
    }

    /// Folds one outcome into the signals of the endpoint it names. A report
    /// for an unknown endpoint is dropped; the result says whether the
    /// report was applied.
    pub fn record_outcome(&self, registry: &mut EndpointRegistry, report: &OutcomeReport, now: u64)
        -> (r: bool)
        requires
            self.wf(),
            old(registry).wf(),
        ensures
            final(registry).wf(),
            r == (find(old(registry)@, report.endpoint@) >= 0),
            final(registry)@ == with_outcome(
                old(registry)@,
                report.endpoint@,
                report.success,
                report.latency_ms,
                now,
                self.config(),
            ),
    {
        match registry.state_of(report.endpoint.as_str()) {
            Ok(s) => {
                let next = self.next_after_outcome(s, report.success, report.latency_ms, now);
                let _ = registry.update_state(report.endpoint.as_str(), StateUpdate::Replace(next));
                true
            },
            Err(_) => false,
        }
    }

    /// Takes the verdict of an active health probe for the endpoint `id`. A
    /// verdict on an unknown endpoint is dropped; the result says whether
    /// it was applied.
    pub fn record_health_probe(
        &self,
        registry: &mut EndpointRegistry,
        id: &str,
        healthy: bool,
        now: u64,
    ) -> (r: bool)
        requires
            old(registry).wf(),
        ensures
            final(registry).wf(),
            r == (find(old(registry)@, id@) >= 0),
            final(registry)@ == with_probe(old(registry)@, id@, healthy, now),
    {
        match registry.state_of(id) {
            Ok(s) => {
                let next = EndpointState {
                    healthy,
                    consecutive_failures: 0,
                    last_update: now,
                    ..s
                };
                let _ = registry.update_state(id, StateUpdate::Replace(next));
                true
            },
            Err(_) => false,
        }
    }

    /// Brings every endpoint's health up to time `now`: one that failures
    /// made unhealthy counts as healthy again after the cooldown.
    pub fn refresh(&self, registry: &mut EndpointRegistry, now: u64)
        requires
            old(registry).wf(),
        ensures
            final(registry).wf(),
            final(registry)@ == cooled(old(registry)@, now, self.config()),
    {
        let ghost before = registry@;
        let n = registry.len();
        let mut i: usize = 0;
        while i < n
            invariant
                i <= n,
                n == before.len(),
                registry.wf(),
                registry@.len() == before.len(),
                forall|k: int|
                    0 <= k < i ==> registry@[k] == with_state(
                        before[k],
                        after_cooldown(before[k].state, now, self.config()),
                    ),
                forall|k: int| i <= k < n ==> registry@[k] == before[k],
            decreases n - i,
        {
            let s = registry.state_at(i);
            let next = self.next_after_cooldown(s, now);
            registry.set_state_at(i, next);
            i += 1;
        }
        assert(registry@ =~= cooled(before, now, self.config()));
    }
}

/// A failure that brings the run of failures to the threshold makes the
/// endpoint unhealthy; below the threshold the health flag stays as it was;
/// one success makes the endpoint healthy and clears the run.
pub proof fn lemma_health_after_outcome(s: EndpointState, latency_ms: u64, now: u64, cfg: Config)
    requires
        s.consecutive_failures < u64::MAX,
    ensures
        after_outcome(s, false, latency_ms, now, cfg).consecutive_failures
            == s.consecutive_failures + 1,
        s.consecutive_failures + 1 >= cfg.failure_threshold ==> !after_outcome(
            s,
            false,
            latency_ms,
            now,
            cfg,
        ).healthy,
        s.consecutive_failures + 1 < cfg.failure_threshold ==> after_outcome(
            s,
            false,
            latency_ms,
            now,
            cfg,
        ).healthy == s.healthy,
        after_outcome(s, true, latency_ms, now, cfg).healthy,
        after_outcome(s, true, latency_ms, now, cfg).consecutive_failures == 0,
        after_outcome(s, true, latency_ms, now, cfg).inflight_requests == s.inflight_requests,
        after_outcome(s, false, latency_ms, now, cfg).inflight_requests == s.inflight_requests,
{
}

/// An endpoint that failures made unhealthy stays unhealthy at every time
/// before the cooldown since its last failure has passed, and counts as
/// healthy from then on.
pub proof fn lemma_cooldown_window(s: EndpointState, now: u64, cfg: Config)
    requires
        !s.healthy,
        s.consecutive_failures >= cfg.failure_threshold,
        now >= s.last_failure,
    ensures
        after_cooldown(s, now, cfg).healthy == (now - s.last_failure
            >= cfg.recovery_cooldown_seconds),
{
}

} // verus!
