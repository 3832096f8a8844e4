use egressd::endpoint::Endpoint;
use egressd::health::HealthResult;
use egressd::summary::PoolSummary;

fn ep(name: &str, healthy: bool) -> Endpoint {
    let mut e = Endpoint::new(name, &format!("cid-{name}"));
    e.healthy = healthy;
    e
}

#[test]
fn summary_counts() {
    let eps = vec![ep("a", true), ep("b", true), ep("c", false)];
    let s = PoolSummary::from_endpoints(5, eps.clone());
    assert_eq!(s.pool_size, 3);
    assert_eq!(s.healthy, 2);
    assert_eq!(s.degraded, 1);
    assert_eq!(s.target, 5);
    assert_eq!(s.endpoints, eps);
}

#[test]
fn summary_status() {
    assert_eq!(PoolSummary::from_endpoints(3, vec![]).status(), "initializing");
    assert_eq!(PoolSummary::from_endpoints(2, vec![ep("a", true), ep("b", true)]).status(), "ok");
    assert_eq!(
        PoolSummary::from_endpoints(2, vec![ep("a", false), ep("b", false)]).status(),
        "degraded"
    );
    assert_eq!(
        PoolSummary::from_endpoints(2, vec![ep("a", true), ep("b", false)]).status(),
        "degraded"
    );
}

#[test]
fn degraded_saturating() {
    let s = PoolSummary { target: 0, pool_size: 0, healthy: 0, degraded: 0, endpoints: vec![] };
    assert_eq!(s.degraded, 0);
}

#[test]
fn summary_all_healthy_is_ok_regardless_of_target() {
    let s = PoolSummary::from_endpoints(10, vec![ep("a", true)]);
    assert_eq!(s.degraded, 0);
    assert_eq!(s.status(), "ok");
}

#[test]
fn health_result_needs_all_probes() {
    let mut h = HealthResult {
        running: true,
        socks5: true,
        http: true,
        tunnel_connected: true,
        tunnel_detail: "Connected".to_string(),
    };
    assert!(h.healthy());
    h.http = false;
    assert!(!h.healthy());
    h.http = true;
    h.running = false;
    assert!(!h.healthy());
}

#[test]
fn endpoint_urls() {
    let e = Endpoint::new("egressd-abc", "cid123");
    assert_eq!(e.socks5_url(), "socks5://egressd-abc:1080");
    assert_eq!(e.http_url(), "http://egressd-abc:3128");
    assert!(!e.healthy && !e.busy && !e.socks5_ok && !e.http_ok && !e.tunnel_connected);
    assert_eq!(e.tunnel_detail, "");
    assert!(e.created_at > 0);
}
