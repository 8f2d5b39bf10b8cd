//! Static options of the engine.

use vstd::prelude::*;
use crate::endpoint::RoutingError;
use crate::text::same_text;

verus! {

/// The named selection strategies.
#[derive(Clone, Copy, Debug, PartialEq, Eq, Structural)]
pub enum StrategyKind {
    LeastLoaded,
    RoundRobin,
}

impl StrategyKind {
    /// The strategy of this name: `least_loaded` or `round_robin`. Any
    /// other name is refused.
    pub fn from_name(name: &str) -> (r: Result<StrategyKind, RoutingError>)
        ensures
            match r {
                Ok(StrategyKind::LeastLoaded) => name@ == "least_loaded"@,
                Ok(StrategyKind::RoundRobin) => name@ == "round_robin"@,
                Err(e) => e == RoutingError::InvalidConfiguration && name@ != "least_loaded"@
                    && name@ != "round_robin"@,
            },
    {
        if same_text(name, "least_loaded") {
            Ok(StrategyKind::LeastLoaded)
        } else if same_text(name, "round_robin") {
            Ok(StrategyKind::RoundRobin)
        } else {
            Err(RoutingError::InvalidConfiguration)
        }
    }

    /// The name of the strategy.
    pub fn name(&self) -> (r: &'static str)
        ensures
            r@ == match *self {
                StrategyKind::LeastLoaded => "least_loaded"@,
                StrategyKind::RoundRobin => "round_robin"@,
            },
    {
        match self {
            StrategyKind::LeastLoaded => "least_loaded",
            StrategyKind::RoundRobin => "round_robin",
        }
    }
}

/// The options, with fractions held in thousandths.
#[derive(Clone, Copy, Debug, PartialEq, Eq, Structural)]
pub struct Config {
    pub strategy: StrategyKind,
    /// Weight of a new latency sample in the moving average, in thousandths.
    pub smoothing_permille: u32,
    /// Weight of the latency estimate in the score, in thousandths.
    pub latency_weight_permille: u32,
    pub failure_threshold: u64,
    pub recovery_cooldown_seconds: u64,
    pub allow_degraded_fallback: bool,
    pub affinity_priority: bool,
}

/// The options used where none are given: smoothing 0.2, latency weight
/// 0.01, three failures, thirty seconds.
pub open spec fn default_config() -> Config {
    Config {
        strategy: StrategyKind::LeastLoaded,
        smoothing_permille: 200,
        latency_weight_permille: 10,
        failure_threshold: 3,
        recovery_cooldown_seconds: 30,
        allow_degraded_fallback: false,
        affinity_priority: true,
    }
}

impl Config {
    /// The smoothing factor lies in (0, 1] and at least one failure is
    /// needed to mark an endpoint unhealthy.
    pub open spec fn valid(&self) -> bool {
        &&& 1 <= self.smoothing_permille <= 1000
        &&& self.failure_threshold >= 1
    }

    /// The default options.
    pub fn standard() -> (r: Config)
        ensures
            r == default_config(),
            r.valid(),
    {
        Config {
            strategy: StrategyKind::LeastLoaded,
            smoothing_permille: 200,
            latency_weight_permille: 10,
            failure_threshold: 3,
            recovery_cooldown_seconds: 30,
            allow_degraded_fallback: false,
            affinity_priority: true,
        }
    }

    /// Accepts the options exactly where they are valid.
    pub fn validate(&self) -> (r: Result<(), RoutingError>)
        ensures
            r.is_ok() <==> self.valid(),
            r.is_err() ==> r == Err::<(), RoutingError>(RoutingError::InvalidConfiguration),
    {
        if self.smoothing_permille < 1 || self.smoothing_permille > 1000 {
            Err(RoutingError::InvalidConfiguration)
        } else if self.failure_threshold < 1 {
            Err(RoutingError::InvalidConfiguration)
        } else {
            Ok(())
        }
    }
}

} // verus!
