use ai_load_balancer::config::{Config, StrategyKind};
use ai_load_balancer::endpoint::{Endpoint, Rationale, RoutingError, RoutingRequest};
use ai_load_balancer::strategy::{
    best_candidate, is_qualified, ranks_first, score_of, select, select_least_loaded,
    select_round_robin, sticky_candidate,
};

fn tags(names: &[&str]) -> Vec<String> {
    names.iter().map(|s| s.to_string()).collect()
}

fn endpoint(id: &str, caps: &[&str], inflight: u64, latency: u64) -> Endpoint {
    let mut e = Endpoint::new(id, &format!("{}.svc:80", id), tags(caps), 0);
    e.state.inflight_requests = inflight;
    e.state.rolling_latency_ms = latency;
    e
}

fn request(id: u64, caps: &[&str], affinity: Option<&str>) -> RoutingRequest {
    RoutingRequest {
        request_id: id,
        required_capabilities: tags(caps),
        affinity: affinity.map(|s| s.to_string()),
    }
}

#[test]
fn least_loaded_picks_lower_inflight() {
    let cands = vec![endpoint("E1", &["llama"], 5, 0), endpoint("E2", &["llama"], 1, 0)];
    let d = select_least_loaded(&request(1, &["llama"], None), &cands, &Config::standard()).unwrap();
    assert_eq!(d.endpoint, "E2");
    assert_eq!(d.address, "E2.svc:80");
    assert_eq!(d.rationale, Rationale::LeastLoaded);
    assert_eq!(d.rationale.tag(), "least_loaded");
    assert_eq!(d.request_id, 1);
}

#[test]
fn affinity_wins_over_load() {
    let cands = vec![endpoint("E1", &["llama"], 5, 0), endpoint("E2", &["llama"], 1, 0)];
    let d = select_least_loaded(&request(2, &["llama"], Some("E1")), &cands, &Config::standard())
        .unwrap();
    assert_eq!(d.endpoint, "E1");
    assert_eq!(d.rationale, Rationale::Sticky);
    assert_eq!(d.rationale.tag(), "sticky");
}

#[test]
fn affinity_is_ignored_when_hinted_endpoint_does_not_qualify() {
    let mut sick = endpoint("E1", &["llama"], 0, 0);
    sick.state.healthy = false;
    let cands = vec![sick, endpoint("E2", &["llama"], 1, 0), endpoint("E3", &["audio"], 0, 0)];
    let cfg = Config::standard();
    let d = select_least_loaded(&request(3, &["llama"], Some("E1")), &cands, &cfg).unwrap();
    assert_eq!((d.endpoint.as_str(), d.rationale), ("E2", Rationale::LeastLoaded));
    let d = select_least_loaded(&request(3, &["llama"], Some("E3")), &cands, &cfg).unwrap();
    assert_eq!((d.endpoint.as_str(), d.rationale), ("E2", Rationale::LeastLoaded));
    let d = select_least_loaded(&request(3, &["llama"], Some("gone")), &cands, &cfg).unwrap();
    assert_eq!((d.endpoint.as_str(), d.rationale), ("E2", Rationale::LeastLoaded));
}

#[test]
fn affinity_is_ignored_when_priority_is_off() {
    let cands = vec![endpoint("E1", &[], 5, 0), endpoint("E2", &[], 1, 0)];
    let cfg = Config { affinity_priority: false, ..Config::standard() };
    let d = select_least_loaded(&request(4, &[], Some("E1")), &cands, &cfg).unwrap();
    assert_eq!((d.endpoint.as_str(), d.rationale), ("E2", Rationale::LeastLoaded));
}

#[test]
fn score_adds_weighted_latency() {
    let e = endpoint("a", &[], 5, 250);
    assert_eq!(score_of(&e, 10), 7500);
    assert_eq!(score_of(&e, 0), 5000);
    let big = endpoint("b", &[], u64::MAX, u64::MAX);
    assert_eq!(
        score_of(&big, u32::MAX),
        (u64::MAX as u128) * 1000 + (u32::MAX as u128) * (u64::MAX as u128)
    );
}

#[test]
fn latency_breaks_equal_load() {
    // 2 + 0.01 * 400 = 6 against 3 + 0.01 * 100 = 4
    let cands = vec![endpoint("a", &[], 2, 400), endpoint("b", &[], 3, 100)];
    let d = select_least_loaded(&request(5, &[], None), &cands, &Config::standard()).unwrap();
    assert_eq!(d.endpoint, "b");
    assert!(ranks_first(&cands[1], &cands[0], 10));
    assert!(!ranks_first(&cands[0], &cands[1], 10));
    assert!(ranks_first(&cands[0], &cands[1], 0));
}

#[test]
fn equal_scores_go_to_the_smaller_identifier() {
    let cands = vec![endpoint("m", &[], 1, 0), endpoint("b", &[], 1, 0), endpoint("z", &[], 1, 0)];
    let d = select_least_loaded(&request(6, &[], None), &cands, &Config::standard()).unwrap();
    assert_eq!(d.endpoint, "b");
    let reversed = vec![endpoint("z", &[], 1, 0), endpoint("b", &[], 1, 0), endpoint("m", &[], 1, 0)];
    let d = select_least_loaded(&request(6, &[], None), &reversed, &Config::standard()).unwrap();
    assert_eq!(d.endpoint, "b");
    assert_eq!(best_candidate(&cands, &tags(&[]), true, 10), Some(1));
}

#[test]
fn unhealthy_and_unfit_candidates_are_skipped() {
    let mut sick = endpoint("a", &["llama"], 0, 0);
    sick.state.healthy = false;
    let cands = vec![sick, endpoint("b", &["audio"], 0, 0), endpoint("c", &["llama"], 9, 0)];
    let d = select_least_loaded(&request(7, &["llama"], None), &cands, &Config::standard()).unwrap();
    assert_eq!(d.endpoint, "c");
    assert!(!is_qualified(&cands[0], &tags(&["llama"]), true));
    assert!(!is_qualified(&cands[0], &tags(&["llama"]), false));
    assert!(!is_qualified(&cands[1], &tags(&["llama"]), true));
    assert!(is_qualified(&cands[1], &tags(&["llama"]), false));
    assert!(is_qualified(&cands[2], &tags(&["llama"]), true));
}

#[test]
fn no_match_without_fallback_fails() {
    let cands = vec![endpoint("a", &["llama"], 0, 0), endpoint("b", &["audio"], 0, 0)];
    let r = select_least_loaded(&request(8, &["vision"], None), &cands, &Config::standard());
    assert_eq!(r.unwrap_err(), RoutingError::NoEligibleEndpoint);
    let r = select_least_loaded(&request(8, &[], None), &Vec::new(), &Config::standard());
    assert_eq!(r.unwrap_err(), RoutingError::NoEligibleEndpoint);
}

#[test]
fn fallback_takes_best_healthy_endpoint() {
    let mut sick = endpoint("a", &["llama"], 0, 0);
    sick.state.healthy = false;
    let cands = vec![sick, endpoint("b", &["audio"], 4, 0), endpoint("c", &["llama"], 2, 0)];
    let cfg = Config { allow_degraded_fallback: true, ..Config::standard() };
    let d = select_least_loaded(&request(9, &["vision"], Some("c")), &cands, &cfg).unwrap();
    assert_eq!((d.endpoint.as_str(), d.rationale), ("c", Rationale::Fallback));
    assert_eq!(d.rationale.tag(), "fallback");
    let mut all_sick = cands;
    all_sick[1].state.healthy = false;
    all_sick[2].state.healthy = false;
    let r = select_least_loaded(&request(9, &["vision"], None), &all_sick, &cfg);
    assert_eq!(r.unwrap_err(), RoutingError::NoEligibleEndpoint);
}

#[test]
fn sticky_candidate_is_first_qualifying_match() {
    let cands = vec![endpoint("a", &["x"], 0, 0), endpoint("b", &[], 0, 0), endpoint("b", &["x"], 0, 0)];
    assert_eq!(sticky_candidate(&cands, &tags(&["x"]), &"b".to_string()), Some(2));
    assert_eq!(sticky_candidate(&cands, &tags(&[]), &"b".to_string()), Some(1));
    assert_eq!(sticky_candidate(&cands, &tags(&["y"]), &"a".to_string()), None);
}

#[test]
fn same_inputs_same_decision() {
    let cands = vec![
        endpoint("c", &["llama"], 3, 120),
        endpoint("a", &["llama"], 3, 120),
        endpoint("b", &["llama", "vision"], 4, 20),
    ];
    let req = request(10, &["llama"], None);
    let cfg = Config::standard();
    let first = select(&req, &cands, &cfg).unwrap();
    for _ in 0..5 {
        let again = select(&req, &cands, &cfg).unwrap();
        assert_eq!(again.endpoint, first.endpoint);
        assert_eq!(again.address, first.address);
        assert_eq!(again.rationale, first.rationale);
        assert_eq!(again.request_id, first.request_id);
    }
    assert_eq!(first.endpoint, "a");
}

#[test]
fn round_robin_takes_turns_over_qualifying_candidates() {
    let mut sick = endpoint("b", &["llama"], 0, 0);
    sick.state.healthy = false;
    let cands = vec![
        endpoint("a", &["llama"], 9, 0),
        sick,
        endpoint("c", &["audio"], 0, 0),
        endpoint("d", &["llama"], 0, 0),
        endpoint("e", &["llama"], 5, 0),
    ];
    let picks: Vec<String> = (0..7u64)
        .map(|i| select_round_robin(&request(i, &["llama"], Some("e")), &cands).unwrap().endpoint)
        .collect();
    assert_eq!(picks, tags(&["a", "d", "e", "a", "d", "e", "a"]));
    let d = select_round_robin(&request(u64::MAX, &["llama"], None), &cands).unwrap();
    assert_eq!(d.endpoint, "a");
    assert_eq!(d.rationale, Rationale::RoundRobin);
    assert_eq!(d.rationale.tag(), "round_robin");
    let r = select_round_robin(&request(0, &["vision"], None), &cands);
    assert_eq!(r.unwrap_err(), RoutingError::NoEligibleEndpoint);
}

#[test]
fn select_follows_the_configured_strategy() {
    let cands = vec![endpoint("a", &[], 9, 0), endpoint("b", &[], 0, 0)];
    let ll = Config::standard();
    let rr = Config { strategy: StrategyKind::RoundRobin, ..Config::standard() };
    assert_eq!(select(&request(0, &[], None), &cands, &ll).unwrap().endpoint, "b");
    assert_eq!(select(&request(0, &[], None), &cands, &rr).unwrap().endpoint, "a");
    assert_eq!(select(&request(1, &[], None), &cands, &rr).unwrap().endpoint, "b");
}
