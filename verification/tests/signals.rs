use ai_load_balancer::config::{Config, StrategyKind};
use ai_load_balancer::endpoint::{Endpoint, EndpointState, OutcomeReport, RoutingError};
use ai_load_balancer::lifecycle::{RequestEvent, RequestPhase};
use ai_load_balancer::registry::EndpointRegistry;
use ai_load_balancer::signals::{smoothed, SignalCollector};

fn registry_with(ids: &[&str]) -> EndpointRegistry {
    let mut reg = EndpointRegistry::new();
    for id in ids {
        reg.upsert(Endpoint::new(id, "addr", Vec::new(), 0));
    }
    reg
}

fn report(id: &str, success: bool, latency_ms: u64) -> OutcomeReport {
    OutcomeReport { endpoint: id.to_string(), success, latency_ms }
}

#[test]
fn standard_options() {
    let c = Config::standard();
    assert_eq!(c.strategy, StrategyKind::LeastLoaded);
    assert_eq!(c.smoothing_permille, 200);
    assert_eq!(c.latency_weight_permille, 10);
    assert_eq!(c.failure_threshold, 3);
    assert_eq!(c.recovery_cooldown_seconds, 30);
    assert!(!c.allow_degraded_fallback);
    assert!(c.affinity_priority);
    assert_eq!(c.validate(), Ok(()));
}

#[test]
fn invalid_options_are_refused() {
    let zero = Config { smoothing_permille: 0, ..Config::standard() };
    assert_eq!(zero.validate(), Err(RoutingError::InvalidConfiguration));
    let over = Config { smoothing_permille: 1001, ..Config::standard() };
    assert_eq!(over.validate(), Err(RoutingError::InvalidConfiguration));
    let none = Config { failure_threshold: 0, ..Config::standard() };
    assert_eq!(none.validate(), Err(RoutingError::InvalidConfiguration));
    let edge = Config { smoothing_permille: 1000, failure_threshold: 1, ..Config::standard() };
    assert_eq!(edge.validate(), Ok(()));
    assert!(SignalCollector::new(zero).is_err());
    assert!(SignalCollector::new(edge).is_ok());
    assert_eq!(SignalCollector::new(edge).unwrap().options(), edge);
}

#[test]
fn strategy_names() {
    assert_eq!(StrategyKind::from_name("least_loaded"), Ok(StrategyKind::LeastLoaded));
    assert_eq!(StrategyKind::from_name("round_robin"), Ok(StrategyKind::RoundRobin));
    assert_eq!(StrategyKind::from_name("random"), Err(RoutingError::InvalidConfiguration));
    assert_eq!(StrategyKind::from_name(""), Err(RoutingError::InvalidConfiguration));
    assert_eq!(StrategyKind::LeastLoaded.name(), "least_loaded");
    assert_eq!(StrategyKind::RoundRobin.name(), "round_robin");
}

#[test]
fn moving_average_exact_values() {
    assert_eq!(smoothed(100, 200, 200), 120);
    assert_eq!(smoothed(0, 100, 200), 20);
    assert_eq!(smoothed(120, 0, 200), 96);
    assert_eq!(smoothed(10, 13, 200), 10);
    assert_eq!(smoothed(77, 500, 1000), 500);
    assert_eq!(smoothed(77, 500, 0), 77);
    assert_eq!(smoothed(u64::MAX, u64::MAX, 200), u64::MAX);
    assert_eq!(smoothed(u64::MAX, 0, 500), u64::MAX / 2);
}

#[test]
fn outcome_updates_latency_and_time() {
    let c = SignalCollector::new(Config::standard()).unwrap();
    let mut reg = registry_with(&["e1", "e2"]);
    assert!(c.record_outcome(&mut reg, &report("e1", true, 100), 5));
    let s = reg.state_of("e1").unwrap();
    assert_eq!(s.rolling_latency_ms, 20);
    assert_eq!(s.last_update, 5);
    assert!(s.healthy);
    assert!(c.record_outcome(&mut reg, &report("e1", true, 100), 6));
    assert_eq!(reg.state_of("e1").unwrap().rolling_latency_ms, 36);
    assert_eq!(reg.state_of("e2").unwrap(), EndpointState::fresh(0));
}

#[test]
fn three_failures_in_a_row_mark_unhealthy() {
    let c = SignalCollector::new(Config::standard()).unwrap();
    let mut reg = registry_with(&["e1"]);
    c.record_outcome(&mut reg, &report("e1", false, 10), 1);
    assert!(reg.state_of("e1").unwrap().healthy);
    c.record_outcome(&mut reg, &report("e1", false, 10), 2);
    assert!(reg.state_of("e1").unwrap().healthy);
    c.record_outcome(&mut reg, &report("e1", false, 10), 3);
    let s = reg.state_of("e1").unwrap();
    assert!(!s.healthy);
    assert_eq!(s.consecutive_failures, 3);
    assert_eq!(s.last_failure, 3);
}

#[test]
fn a_success_interrupts_the_run_of_failures() {
    let c = SignalCollector::new(Config::standard()).unwrap();
    let mut reg = registry_with(&["e1"]);
    c.record_outcome(&mut reg, &report("e1", false, 10), 1);
    c.record_outcome(&mut reg, &report("e1", false, 10), 2);
    c.record_outcome(&mut reg, &report("e1", true, 10), 3);
    assert_eq!(reg.state_of("e1").unwrap().consecutive_failures, 0);
    c.record_outcome(&mut reg, &report("e1", false, 10), 4);
    c.record_outcome(&mut reg, &report("e1", false, 10), 5);
    assert!(reg.state_of("e1").unwrap().healthy);
    c.record_outcome(&mut reg, &report("e1", false, 10), 6);
    assert!(!reg.state_of("e1").unwrap().healthy);
    c.record_outcome(&mut reg, &report("e1", true, 10), 7);
    let s = reg.state_of("e1").unwrap();
    assert!(s.healthy);
    assert_eq!(s.consecutive_failures, 0);
    assert_eq!(s.last_failure, 6);
}

#[test]
fn reports_on_unknown_endpoints_are_dropped() {
    let c = SignalCollector::new(Config::standard()).unwrap();
    let mut reg = registry_with(&["e1"]);
    assert!(!c.record_outcome(&mut reg, &report("ghost", false, 10), 1));
    assert!(!c.record_health_probe(&mut reg, "ghost", false, 1));
    assert_eq!(reg.len(), 1);
    assert_eq!(reg.state_of("e1").unwrap(), EndpointState::fresh(0));
}

#[test]
fn health_probe_overrides_the_flag() {
    let c = SignalCollector::new(Config::standard()).unwrap();
    let mut reg = registry_with(&["e1"]);
    assert!(c.record_health_probe(&mut reg, "e1", false, 8));
    let s = reg.state_of("e1").unwrap();
    assert!(!s.healthy);
    assert_eq!(s.last_update, 8);
    c.refresh(&mut reg, 1000);
    assert!(!reg.state_of("e1").unwrap().healthy);
    assert!(c.record_health_probe(&mut reg, "e1", true, 9));
    assert!(reg.state_of("e1").unwrap().healthy);
}

#[test]
fn cooldown_restores_health() {
    let c = SignalCollector::new(Config::standard()).unwrap();
    let mut reg = registry_with(&["e1", "e2"]);
    for t in 1..=3u64 {
        c.record_outcome(&mut reg, &report("e1", false, 10), 100 + t);
    }
    assert!(!reg.state_of("e1").unwrap().healthy);
    c.refresh(&mut reg, 132);
    assert!(!reg.state_of("e1").unwrap().healthy);
    c.refresh(&mut reg, 50);
    assert!(!reg.state_of("e1").unwrap().healthy);
    let untouched = reg.state_of("e2").unwrap();
    c.refresh(&mut reg, 133);
    let s = reg.state_of("e1").unwrap();
    assert!(s.healthy);
    assert_eq!(s.consecutive_failures, 0);
    assert_eq!(s.last_update, 133);
    assert_eq!(reg.state_of("e2").unwrap(), untouched);
    let direct = c.next_after_cooldown(
        EndpointState { healthy: false, consecutive_failures: 3, last_failure: 10, ..EndpointState::fresh(0) },
        39,
    );
    assert!(!direct.healthy);
}

#[test]
fn next_after_outcome_keeps_in_flight_count() {
    let c = SignalCollector::new(Config { failure_threshold: 1, ..Config::standard() }).unwrap();
    let s = EndpointState { inflight_requests: 7, consecutive_failures: u64::MAX, ..EndpointState::fresh(0) };
    let n = c.next_after_outcome(s, false, 50, 4);
    assert_eq!(n.inflight_requests, 7);
    assert_eq!(n.consecutive_failures, u64::MAX);
    assert!(!n.healthy);
    assert_eq!(n.rolling_latency_ms, 10);
}

#[test]
fn request_phases() {
    let a = RequestPhase::Arrived;
    assert_eq!(a.advance(RequestEvent::Decide), Some(RequestPhase::Decided));
    assert_eq!(a.advance(RequestEvent::Dispatch), None);
    assert_eq!(a.advance(RequestEvent::Complete), None);
    let d = RequestPhase::Decided;
    assert_eq!(d.advance(RequestEvent::Dispatch), Some(RequestPhase::Dispatched));
    assert_eq!(d.advance(RequestEvent::Reject), Some(RequestPhase::Failed));
    assert_eq!(d.advance(RequestEvent::Complete), None);
    let p = RequestPhase::Dispatched;
    assert_eq!(p.advance(RequestEvent::Complete), Some(RequestPhase::Completed));
    assert_eq!(p.advance(RequestEvent::Reject), None);
    for e in [RequestEvent::Decide, RequestEvent::Dispatch, RequestEvent::Reject, RequestEvent::Complete] {
        assert_eq!(RequestPhase::Completed.advance(e), None);
        assert_eq!(RequestPhase::Failed.advance(e), None);
    }
    assert!(RequestPhase::Completed.is_terminal());
    assert!(RequestPhase::Failed.is_terminal());
    assert!(!a.is_terminal() && !d.is_terminal() && !p.is_terminal());
}
