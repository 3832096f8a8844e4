use egressd::docker::FakeDocker;
use egressd::health::HealthResult;
use egressd::pool::Pool;

#[test]
fn add_bumps_target() {
    let mut pool = Pool::new(0);
    let ep = pool.add_proxy("egressd-abc".to_string(), "cid-abc".to_string()).unwrap();
    assert_eq!(ep.name, "egressd-abc");
    assert_eq!(pool.target(), 1);
    assert_eq!(pool.pool_size(), 1);
}

#[test]
fn add_duplicate_err() {
    let mut pool = Pool::new(0);
    pool.add_proxy("egressd-abc".to_string(), "cid-1".to_string()).unwrap();
    let err = pool.add_proxy("egressd-abc".to_string(), "cid-2".to_string()).unwrap_err();
    assert!(err.contains("already exists"));
}

#[test]
fn remove_lowers_target_and_cleans_volumes() {
    let mut pool = Pool::new(0);
    let mut docker = FakeDocker::new();
    let id = docker.create("egressd-abc", "img", "net");
    pool.add_proxy("egressd-abc".to_string(), id).unwrap();
    assert!(docker.has_volume("egressd-abc-data"));
    assert!(pool.remove_proxy(&mut docker, "egressd-abc"));
    assert_eq!(pool.target(), 0);
    assert_eq!(pool.pool_size(), 0);
    assert!(!docker.has_volume("egressd-abc-data"));
}

#[test]
fn ensure_scale_up() {
    let mut pool = Pool::new(2);
    let mut docker = FakeDocker::new();
    pool.ensure_count(&mut docker, "img", "net", "egressd-");
    assert_eq!(pool.pool_size(), 2);
    // Should be idempotent
    pool.ensure_count(&mut docker, "img", "net", "egressd-");
    assert_eq!(pool.pool_size(), 2);
}

#[test]
fn ensure_scale_down_skips_busy() {
    let mut pool = Pool::new(0);
    let mut docker = FakeDocker::new();
    // Create 2 proxies
    for i in 0..2 {
        let name = format!("egressd-{i}");
        let id = docker.create(&name, "img", "net");
        pool.add_proxy(name, id).unwrap();
    }
    assert_eq!(pool.pool_size(), 2);
    // Mark one busy
    pool.set_busy("egressd-0", true);
    pool.set_target(1); // want to scale down by 1
    pool.ensure_count(&mut docker, "img", "net", "egressd-");
    // Should remove non-busy one, keep busy
    let snap = pool.snapshot();
    assert_eq!(snap.len(), 1);
    assert_eq!(snap[0].name, "egressd-0");
    // Now free busy and scale down again
    pool.set_busy("egressd-0", false);
    pool.set_target(0);
    pool.ensure_count(&mut docker, "img", "net", "egressd-");
    assert_eq!(pool.pool_size(), 0);
}

#[test]
fn health_cycle_evicts_gone() {
    let mut pool = Pool::new(1);
    let mut docker = FakeDocker::new();
    let id = docker.create("egressd-abc", "img", "net");
    pool.add_proxy("egressd-abc".to_string(), id).unwrap();
    // Remove container behind pool's back (simulate crash)
    docker.remove("egressd-abc");
    // Health cycle should evict
    pool.health_cycle(&mut docker, &vec![]);
    assert_eq!(pool.pool_size(), 0);
}

#[test]
fn health_cycle_skips_busy() {
    let mut pool = Pool::new(1);
    let mut docker = FakeDocker::new();
    let id = docker.create("egressd-abc", "img", "net");
    pool.add_proxy("egressd-abc".to_string(), id).unwrap();
    pool.set_busy("egressd-abc", true);
    docker.remove("egressd-abc");
    pool.health_cycle(&mut docker, &vec![]);
    assert_eq!(pool.pool_size(), 1); // not evicted
}

#[test]
fn health_cycle_cleans_volumes() {
    let mut pool = Pool::new(1);
    let mut docker = FakeDocker::new();
    let id = docker.create("egressd-vol", "img", "net");
    pool.add_proxy("egressd-vol".to_string(), id).unwrap();
    docker.remove("egressd-vol");
    docker.add_volume("egressd-vol-data".to_string());
    docker.add_volume("egressd-vol-cache".to_string());
    pool.health_cycle(&mut docker, &vec![]);
    assert!(!docker.has_volume("egressd-vol-data"));
    assert!(!docker.has_volume("egressd-vol-cache"));
}

#[test]
fn new_caps_target() {
    assert_eq!(Pool::new(50).target(), 20);
    let mut p = Pool::new(3);
    assert_eq!(p.target(), 3);
    p.set_target(99);
    assert_eq!(p.target(), 20);
}

#[test]
fn add_refused_when_full() {
    let mut pool = Pool::new(0);
    for i in 0..20 {
        pool.add_proxy(format!("p{i}"), format!("c{i}")).unwrap();
    }
    assert_eq!(pool.target(), 20);
    let err = pool.add_proxy("p-extra".to_string(), "c".to_string()).unwrap_err();
    assert_eq!(err, "pool at max size (20)");
    let err = pool.add_proxy("p3".to_string(), "c".to_string()).unwrap_err();
    assert_eq!(err, "proxy p3 already exists");
}

#[test]
fn ensure_count_with_exact_names() {
    let mut pool = Pool::new(2);
    let mut docker = FakeDocker::new();
    let draws = vec![0xdeadbeef, 0, 0, 0x1, 0, 0];
    pool.ensure_count_with(&mut docker, "egressd-", &draws, 42);
    let snap = pool.snapshot();
    assert_eq!(snap.len(), 2);
    assert_eq!(snap[0].name, "egressd-deadbeef");
    assert_eq!(snap[0].container_id, "cid-egressd-deadbeef");
    assert_eq!(snap[0].created_at, 42);
    assert_eq!(snap[1].name, "egressd-00000001");
    assert!(docker.has_container_named("egressd-00000001"));
}

#[test]
fn ensure_count_with_retries_taken_names() {
    let mut pool = Pool::new(0);
    let mut docker = FakeDocker::new();
    pool.add_proxy("x-0000000a".to_string(), "c".to_string()).unwrap();
    pool.set_target(2);
    // First candidate is taken, the second is free.
    pool.ensure_count_with(&mut docker, "x-", &vec![0xa, 0xb, 0xc], 7);
    let snap = pool.snapshot();
    assert_eq!(snap.len(), 2);
    assert_eq!(snap[1].name, "x-0000000b");
    // All three candidates taken: the slot is skipped.
    pool.set_target(3);
    pool.ensure_count_with(&mut docker, "x-", &vec![0xa, 0xb, 0xa], 8);
    assert_eq!(pool.pool_size(), 2);
}

#[test]
fn shrink_removes_first_idle_ones() {
    let mut pool = Pool::new(0);
    let mut docker = FakeDocker::new();
    for n in ["a", "b", "c", "d"] {
        let id = docker.create(n, "img", "net");
        pool.add_proxy(n.to_string(), id).unwrap();
    }
    pool.set_busy("a", true);
    pool.set_target(2);
    pool.ensure_count_with(&mut docker, "", &vec![], 0);
    let names: Vec<String> = pool.snapshot().into_iter().map(|e| e.name).collect();
    assert_eq!(names, vec!["a".to_string(), "d".to_string()]);
    assert!(!docker.has_container_named("b"));
    assert!(!docker.has_container_named("c"));
    assert!(docker.has_container_named("d"));
}

#[test]
fn summary_and_health_flags() {
    let mut pool = Pool::new(0);
    pool.add_proxy("a".to_string(), "1".to_string()).unwrap();
    pool.add_proxy("b".to_string(), "2".to_string()).unwrap();
    pool.set_healthy("a", true);
    let s = pool.summary(true);
    assert_eq!(s.target, 2);
    assert_eq!(s.pool_size, 2);
    assert_eq!(s.healthy, 1);
    assert_eq!(s.degraded, 1);
    assert_eq!(s.endpoints.len(), 2);
    assert!(pool.summary(false).endpoints.is_empty());
    assert!(pool.get("a").unwrap().healthy);
    assert!(pool.get("zzz").is_none());
    assert!(pool.contains("b"));
}

#[test]
fn health_cycle_sets_flags_from_probes() {
    let mut pool = Pool::new(0);
    let mut docker = FakeDocker::new();
    for n in ["a", "b", "c"] {
        let id = docker.create(n, "img", "net");
        pool.add_proxy(n.to_string(), id).unwrap();
    }
    pool.set_healthy("c", true);
    docker.remove("b");
    let probes = vec![
        ("a".to_string(), HealthResult::from_probes(true, true, true, Some("Connected".to_string()))),
        ("b".to_string(), HealthResult::from_probes(false, false, false, None)),
        ("a".to_string(), HealthResult::from_probes(false, false, false, None)),
    ];
    pool.health_cycle(&mut docker, &probes);
    let snap = pool.snapshot();
    assert_eq!(snap.len(), 2);
    assert_eq!(snap[0].name, "a");
    assert!(snap[0].healthy && snap[0].socks5_ok && snap[0].http_ok && snap[0].tunnel_connected);
    assert_eq!(snap[0].tunnel_detail, "Connected");
    // Without a probe result the flags stay.
    assert_eq!(snap[1].name, "c");
    assert!(snap[1].healthy);
}

#[test]
fn probe_results() {
    let h = HealthResult::from_probes(true, true, true, Some("Disconnected".to_string()));
    assert!(!h.tunnel_connected);
    assert_eq!(h.tunnel_detail, "Disconnected");
    assert!(!h.healthy());
    let h = HealthResult::from_probes(true, true, true, Some("Connected".to_string()));
    assert!(h.healthy());
    assert!(!HealthResult::from_probes(true, false, true, Some("Connected".to_string())).healthy());
}
