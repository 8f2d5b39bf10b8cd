use ai_load_balancer::balancer::LoadBalancer;
use ai_load_balancer::config::Config;
use ai_load_balancer::endpoint::{Endpoint, Rationale, RoutingError, RoutingRequest};

fn tags(names: &[&str]) -> Vec<String> {
    names.iter().map(|s| s.to_string()).collect()
}

fn endpoint(id: &str, caps: &[&str], inflight: u64) -> Endpoint {
    let mut e = Endpoint::new(id, &format!("{}:443", id), tags(caps), 0);
    e.state.inflight_requests = inflight;
    e
}

fn request(id: u64, caps: &[&str], affinity: Option<&str>) -> RoutingRequest {
    RoutingRequest {
        request_id: id,
        required_capabilities: tags(caps),
        affinity: affinity.map(|s| s.to_string()),
    }
}

fn inflight(b: &LoadBalancer, id: &str) -> u64 {
    b.endpoint(id).unwrap().state.inflight_requests
}

#[test]
fn balancer_refuses_invalid_options() {
    let bad = Config { smoothing_permille: 0, ..Config::standard() };
    assert_eq!(LoadBalancer::new(bad).err(), Some(RoutingError::InvalidConfiguration));
}

#[test]
fn request_then_response_settles_once() {
    let mut b = LoadBalancer::new(Config::standard()).unwrap();
    b.register_endpoint(endpoint("a", &["llama"], 0));
    b.register_endpoint(endpoint("b", &["llama"], 3));
    let d = b.on_request(&request(41, &["llama"], None), 10).unwrap();
    assert_eq!(d.endpoint, "a");
    assert_eq!(d.address, "a:443");
    assert_eq!(d.request_id, 41);
    assert_eq!(d.rationale, Rationale::LeastLoaded);
    assert_eq!(b.pending_count(), 1);
    assert_eq!(inflight(&b, "a"), 1);
    assert!(b.on_response(41, true, 100, 11));
    assert_eq!(b.pending_count(), 0);
    assert_eq!(inflight(&b, "a"), 0);
    assert_eq!(b.endpoint("a").unwrap().state.rolling_latency_ms, 20);
    assert!(!b.on_response(41, true, 100, 12));
    assert_eq!(inflight(&b, "a"), 0);
    assert_eq!(b.endpoint("a").unwrap().state.rolling_latency_ms, 20);
    assert_eq!(b.endpoint("a").unwrap().state.last_update, 11);
}

#[test]
fn response_for_unknown_request_changes_nothing() {
    let mut b = LoadBalancer::new(Config::standard()).unwrap();
    b.register_endpoint(endpoint("a", &[], 2));
    let _d = b.on_request(&request(1, &[], None), 10).unwrap();
    assert!(!b.on_response(2, false, 5, 11));
    assert_eq!(b.pending_count(), 1);
    assert_eq!(inflight(&b, "a"), 3);
    assert_eq!(b.endpoint("a").unwrap().state.consecutive_failures, 0);
}

#[test]
fn failed_request_leaves_nothing_pending() {
    let mut b = LoadBalancer::new(Config::standard()).unwrap();
    b.register_endpoint(endpoint("a", &["llama"], 0));
    let r = b.on_request(&request(1, &["vision"], None), 10);
    assert_eq!(r.unwrap_err(), RoutingError::NoEligibleEndpoint);
    assert_eq!(b.pending_count(), 0);
    assert!(!b.on_response(1, false, 0, 11));
    assert_eq!(inflight(&b, "a"), 0);
}

#[test]
fn responses_settle_in_any_order() {
    let mut b = LoadBalancer::new(Config::standard()).unwrap();
    b.register_endpoint(endpoint("a", &[], 0));
    b.register_endpoint(endpoint("b", &[], 0));
    let picks: Vec<String> =
        (1..=4u64).map(|i| b.on_request(&request(i, &[], None), 10).unwrap().endpoint).collect();
    assert_eq!(picks, tags(&["a", "b", "a", "b"]));
    assert_eq!((inflight(&b, "a"), inflight(&b, "b")), (2, 2));
    assert!(b.on_response(3, true, 1, 11));
    assert_eq!((inflight(&b, "a"), inflight(&b, "b")), (1, 2));
    assert!(b.on_response(2, false, 1, 11));
    assert!(b.on_response(4, true, 1, 11));
    assert!(b.on_response(1, true, 1, 11));
    assert_eq!((inflight(&b, "a"), inflight(&b, "b")), (0, 0));
    assert_eq!(b.pending_count(), 0);
}

#[test]
fn withdrawn_endpoint_settles_without_effect() {
    let mut b = LoadBalancer::new(Config::standard()).unwrap();
    b.register_endpoint(endpoint("a", &[], 0));
    b.register_endpoint(endpoint("b", &[], 9));
    assert_eq!(b.on_request(&request(1, &[], None), 10).unwrap().endpoint, "a");
    assert!(b.deregister_endpoint("a"));
    assert!(b.on_response(1, false, 5, 11));
    assert_eq!(b.pending_count(), 0);
    assert_eq!(inflight(&b, "b"), 9);
    assert_eq!(b.endpoint("a").unwrap_err(), RoutingError::EndpointNotFound);
}

#[test]
fn health_reports_reach_the_registry() {
    let mut b = LoadBalancer::new(Config::standard()).unwrap();
    b.register_endpoint(endpoint("a", &[], 0));
    b.register_endpoint(endpoint("b", &[], 9));
    assert!(b.report_health("a", false, 5));
    assert!(!b.report_health("c", false, 5));
    assert_eq!(b.on_request(&request(1, &[], Some("a")), 10).unwrap().endpoint, "b");
}
