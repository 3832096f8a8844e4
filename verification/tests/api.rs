use egressd::api::{new_request_id, task_location, ControlPlane, Dispatch, Draws, Outcome};
use egressd::json::{JsonNumber, JsonValue};
use egressd::task::TaskStatus;

fn test_state() -> ControlPlane {
    ControlPlane::new(0, None)
}

fn test_state_auth() -> ControlPlane {
    ControlPlane::new(0, Some("test-secret".to_string()))
}

fn draws(uuid_hi: u64, now: i64) -> Draws {
    let suffixes: Vec<u32> = (0..60u32).map(|i| 0x1000 + i).collect();
    Draws { uuid: (uuid_hi as u128) << 64, now, suffixes }
}

fn obj(key: &str, v: JsonValue) -> JsonValue {
    JsonValue::Object(vec![(key.to_string(), v)])
}

fn empty_obj() -> JsonValue {
    JsonValue::Object(vec![])
}

fn seed_proxy(c: &mut ControlPlane, name: &str, healthy: bool) {
    let cid = c.docker.create(name, "img", "net");
    c.pool.add_proxy(name.to_string(), cid).unwrap();
    if healthy {
        c.pool.set_healthy(name, healthy);
    }
}

/// The new task's id and outcome; the task is then finished as the server does.
fn ran(c: &mut ControlPlane, d: Dispatch) -> (String, Outcome) {
    match d {
        Dispatch::Ran { task_id, outcome } => {
            let o = outcome.unwrap();
            assert!(c.registry.finish_task(&task_id, Ok(None)));
            (task_id, o)
        }
        other => panic!("expected a new task, got {other:?}"),
    }
}

#[test]
fn health_returns_200_and_shape() {
    let c = test_state();
    let h = c.health();
    assert_eq!((h.status, h.pool_size, h.healthy, h.degraded), ("initializing", 0, 0, 0));
    let rid = new_request_id().unwrap();
    assert_eq!(rid.len(), 16);
}

#[test]
fn health_exempt_from_auth() {
    let c = test_state_auth();
    assert_eq!(c.health().status, "initializing");
}

#[test]
fn auth_required() {
    let mut c = test_state_auth();
    assert_eq!(c.get_pool("", None, "r", 0).unwrap_err().status, 401);
    assert!(c.get_pool("Bearer test-secret", None, "r", 0).is_ok());
}

#[test]
fn request_id_on_errors() {
    let mut c = test_state_auth();
    let e = c.get_pool("", None, "r", 0).unwrap_err();
    assert_eq!(e.status, 401);
    assert_eq!(e.code, "UNAUTHORIZED");
    assert_eq!(e.request_id, "");
}

#[test]
fn get_pool_summary_and_filters() {
    let mut c = test_state();
    seed_proxy(&mut c, "egressd-aaa", true);
    seed_proxy(&mut c, "egressd-bbb", false);
    let s = c.get_pool("", None, "r", 0).unwrap();
    assert_eq!(s.pool_size, 2);
    assert_eq!(s.healthy, 1);
    assert_eq!(s.degraded, 1);
    assert_eq!(s.endpoints.len(), 2);
    let s = c.get_pool("", Some("none"), "r", 0).unwrap();
    assert!(s.endpoints.is_empty());
}

#[test]
fn get_pool_invalid_include_422() {
    let mut c = test_state();
    let e = c.get_pool("", Some("banana"), "r-1", 0).unwrap_err();
    assert_eq!(e.status, 422);
    assert_eq!(e.code, "VALIDATION_ERROR");
    assert_eq!(e.message, "include must be 'proxies' or 'none'");
    assert_eq!(e.request_id, "r-1");
}

#[test]
fn scale_pool_async() {
    let mut c = test_state();
    let body = obj("target", JsonValue::Number(JsonNumber::PosInt(2)));
    let d = c.patch_pool("", None, &body, "r", &draws(0xabc, 5)).unwrap();
    let (tid, out) = ran(&mut c, d);
    assert!(task_location(&tid).starts_with("/v1/tasks/"));
    assert_eq!(out, Outcome::Scaled { target: 2, pool_size: 2, healthy: 0, degraded: 2 });
    let done = c.registry.get(&tid).unwrap();
    assert_eq!(done.status, TaskStatus::Succeeded);
    assert_eq!(done.task_type, "pool.scale");
    assert_eq!(c.pool.pool_size(), 2);
    assert_eq!(c.pool.target(), 2);
}

#[test]
fn scale_pool_exact_task_and_names() {
    let mut c = test_state();
    let body = obj("target", JsonValue::Number(JsonNumber::PosInt(2)));
    match c.patch_pool("", None, &body, "r", &draws(0xabc, 5)).unwrap() {
        Dispatch::Ran { task_id, .. } => {
            assert_eq!(task_id, "0000000000000abc");
            assert_eq!(task_location(&task_id), "/v1/tasks/0000000000000abc");
            let t = c.registry.get(&task_id).unwrap();
            assert_eq!(t.status, TaskStatus::Running);
            assert_eq!((t.created_at, t.started_at), (5, Some(5)));
        }
        other => panic!("unexpected {other:?}"),
    }
    let names: Vec<String> = c.pool.snapshot().into_iter().map(|e| e.name).collect();
    assert_eq!(names, vec!["egressd-00001000".to_string(), "egressd-00001003".to_string()]);
}

#[test]
fn scale_invalid_target_422() {
    let mut c = test_state();
    let e = c
        .patch_pool("", None, &obj("target", JsonValue::Str("many".to_string())), "r", &draws(1, 0))
        .unwrap_err();
    assert_eq!(e.status, 422);
    assert_eq!(e.code, "VALIDATION_ERROR");
    assert_eq!(c.registry.len(), 0);
}

#[test]
fn create_proxy_async_bumps_target() {
    let mut c = test_state();
    let d = c.create_proxy("", None, Some(&empty_obj()), "r", &draws(7, 9)).unwrap();
    let (tid, out) = ran(&mut c, d);
    assert!(task_location(&tid).starts_with("/v1/tasks/"));
    assert_eq!(c.registry.get(&tid).unwrap().status, TaskStatus::Succeeded);
    assert_eq!(c.pool.pool_size(), 1);
    assert_eq!(c.pool.target(), 1);
    let ep_name = c.pool.snapshot()[0].name.clone();
    assert!(ep_name.starts_with("egressd-"));
    match out {
        Outcome::Created(ep) => {
            assert_eq!(ep.name, "egressd-00001000");
            assert_eq!(ep.container_id, "cid-egressd-00001000");
            assert_eq!(ep.created_at, 9);
        }
        other => panic!("unexpected {other:?}"),
    }
    // Reconcile must not remove created proxy
    c.pool.ensure_count(&mut c.docker, "warpgate:local", "egressd-net", "egressd-");
    assert_eq!(c.pool.pool_size(), 1);
}

#[test]
fn create_named_duplicate_409() {
    let mut c = test_state();
    seed_proxy(&mut c, "egressd-custom", false);
    let body = obj("name", JsonValue::Str("egressd-custom".to_string()));
    let e = c.create_proxy("", None, Some(&body), "r", &draws(2, 0)).unwrap_err();
    assert_eq!(e.status, 409);
    assert_eq!(e.code, "PROXY_EXISTS");
    assert_eq!(e.message, "proxy egressd-custom already exists");
}

#[test]
fn create_invalid_name_422() {
    let mut c = test_state();
    for body in [
        obj("name", JsonValue::Str("has space".to_string())),
        obj("name", JsonValue::Number(JsonNumber::PosInt(12))),
        JsonValue::Str("not-an-object".to_string()),
    ] {
        let e = c.create_proxy("", None, Some(&body), "r", &draws(1, 0)).unwrap_err();
        assert_eq!(e.status, 422, "payload {body:?}");
    }
}

#[test]
fn create_at_capacity_409() {
    let mut c = test_state();
    for i in 0..20 {
        c.pool.add_proxy(format!("p{i}"), format!("c{i}")).unwrap();
    }
    let e = c.create_proxy("", None, None, "r", &draws(1, 0)).unwrap_err();
    assert_eq!(e.status, 409);
    assert_eq!(e.code, "POOL_AT_CAPACITY");
    assert_eq!(e.message, "pool at max size (20)");
}

#[test]
fn list_proxies_filter() {
    let mut c = test_state();
    seed_proxy(&mut c, "egressd-aaa", true);
    seed_proxy(&mut c, "egressd-bbb", false);
    for (q, want) in [
        (None, vec!["egressd-aaa", "egressd-bbb"]),
        (Some("true"), vec!["egressd-aaa"]),
        (Some("false"), vec!["egressd-bbb"]),
    ] {
        let got: Vec<String> = c.list_proxies("", q, "r", 0).unwrap().into_iter().map(|e| e.name).collect();
        assert_eq!(got, want, "query {q:?}");
    }
}

#[test]
fn list_proxies_invalid_filter_422() {
    let mut c = test_state();
    let e = c.list_proxies("", Some("banana"), "r", 0).unwrap_err();
    assert_eq!(e.status, 422);
    assert_eq!(e.message, "healthy must be 'true' or 'false'");
}

#[test]
fn get_single_and_404() {
    let mut c = test_state();
    seed_proxy(&mut c, "egressd-aaa", true);
    assert_eq!(c.get_proxy("", "egressd-aaa", "r", 0).unwrap().name, "egressd-aaa");
    let e = c.get_proxy("", "nope", "r", 0).unwrap_err();
    assert_eq!(e.status, 404);
    assert_eq!(e.code, "PROXY_NOT_FOUND");
    assert_eq!(e.message, "proxy nope not found");
}

#[test]
fn delete_missing_404() {
    let mut c = test_state();
    assert_eq!(c.delete_proxy("", "nope", "r", &draws(1, 0)).unwrap_err().status, 404);
}

#[test]
fn delete_existing_async() {
    let mut c = test_state();
    let cid = c.docker.create("egressd-gone", "img", "net");
    c.pool.add_proxy("egressd-gone".to_string(), cid).unwrap();
    let d = c.delete_proxy("", "egressd-gone", "r", &draws(2, 0)).unwrap();
    let (tid, out) = ran(&mut c, d);
    assert_eq!(out, Outcome::Removed("egressd-gone".to_string()));
    assert_eq!(c.registry.get(&tid).unwrap().status, TaskStatus::Succeeded);
    assert_eq!(c.pool.pool_size(), 0);
    assert_eq!(c.pool.target(), 0);
    assert!(!c.docker.has_container_named("egressd-gone"));
}

#[test]
fn rotate_and_restart_keep_proxy() {
    let mut c = test_state();
    seed_proxy(&mut c, "egressd-r", false);
    let d = c.rotate_proxy("", "egressd-r", "r", &draws(1, 0)).unwrap();
    let (_, out) = ran(&mut c, d);
    assert_eq!(out, Outcome::Rotated);
    assert!(c.docker.has_container_named("egressd-r"));
    assert!(!c.pool.get("egressd-r").unwrap().busy);
    let d = c.restart_proxy("", "egressd-r", "r", &draws(2, 0)).unwrap();
    let (_, out) = ran(&mut c, d);
    assert_eq!(out, Outcome::Restarted("cid-egressd-r".to_string()));
    assert!(!c.pool.get("egressd-r").unwrap().busy);
    assert_eq!(c.rotate_proxy("", "nope", "r", &draws(3, 0)).unwrap_err().code, "PROXY_NOT_FOUND");
    assert_eq!(c.restart_proxy("", "nope", "r", &draws(4, 0)).unwrap_err().code, "PROXY_NOT_FOUND");
}

#[test]
fn bulk_rotation_scope() {
    let mut c = test_state();
    for n in ["a", "b", "c"] {
        seed_proxy(&mut c, n, n == "b");
    }
    let d = c.rotate_proxies_bulk("", None, "r", &draws(1, 0)).unwrap();
    let (_, out) = ran(&mut c, d);
    assert_eq!(out, Outcome::RotatedAll(vec!["a".to_string(), "c".to_string()]));
    let body = obj("scope", JsonValue::Str("all".to_string()));
    let d = c.rotate_proxies_bulk("", Some(&body), "r", &draws(2, 0)).unwrap();
    let (_, out) = ran(&mut c, d);
    assert_eq!(out, Outcome::RotatedAll(vec!["a".to_string(), "b".to_string(), "c".to_string()]));
    let bad = obj("scope", JsonValue::Str("everything".to_string()));
    assert_eq!(c.rotate_proxies_bulk("", Some(&bad), "r", &draws(3, 0)).unwrap_err().status, 422);
}

#[test]
fn idempotency_dedup_create() {
    let mut c = test_state();
    let key = Some("create-1".to_string());
    let d = c.create_proxy("", key.clone(), Some(&empty_obj()), "r", &draws(1, 0)).unwrap();
    let (id, _) = ran(&mut c, d);
    match c.create_proxy("", key, Some(&empty_obj()), "r", &draws(2, 1)).unwrap() {
        Dispatch::Replay(t) => assert_eq!(t.id, id),
        other => panic!("expected a replay, got {other:?}"),
    }
    assert_eq!(c.pool.pool_size(), 1);
}

#[test]
fn idempotency_conflict_cross_type() {
    let mut c = test_state();
    // Pre-register key with pool.scale type
    let t = c.registry.create("pool.scale").unwrap();
    c.registry.set_idempotent("shared-key".into(), t.id.clone());
    let e = c.create_proxy("", Some("shared-key".to_string()), Some(&empty_obj()), "r", &draws(2, 1)).unwrap_err();
    assert_eq!(e.status, 409);
    assert_eq!(e.code, "IDEMPOTENCY_CONFLICT");
}

#[test]
fn task_pending_retry_after() {
    let mut c = test_state();
    let task = c.registry.create("pool.scale").unwrap();
    let t = c.get_task("", &task.id, "r", 0).unwrap();
    assert_eq!(t.status, TaskStatus::Pending);
    // A pending task is polled again: the server answers it with `Retry-After`.
    assert!(t.status.is_active());
    assert_eq!(t.status.as_str(), "pending");
}

#[test]
fn task_not_found() {
    let mut c = test_state();
    let e = c.get_task("", "does-not-exist", "r", 0).unwrap_err();
    assert_eq!(e.status, 404);
    assert_eq!(e.code, "TASK_NOT_FOUND");
    assert_eq!(e.message, "task does-not-exist not found");
}

#[test]
fn refused_requests_change_nothing() {
    let mut c = test_state_auth();
    seed_proxy(&mut c, "egressd-x", false);
    let e = c.delete_proxy("Bearer wrong", "egressd-x", "r", &draws(1, 0)).unwrap_err();
    assert_eq!(e.status, 401);
    assert_eq!(c.pool.pool_size(), 1);
    assert_eq!(c.registry.len(), 0);
    for i in 0..9 {
        assert_eq!(c.get_pool("Bearer wrong", None, "r", i).unwrap_err().status, 401);
    }
    assert_eq!(c.get_pool("Bearer wrong", None, "r", 9).unwrap_err().status, 429);
    assert!(c.get_pool("Bearer test-secret", None, "r", 10).is_ok());
}

#[test]
fn fresh_draws_and_request_ids() {
    let d = Draws::fresh().unwrap();
    assert_eq!(d.suffixes.len(), 60);
    let rid = new_request_id().unwrap();
    assert_eq!(rid.len(), 16);
    assert!(rid.chars().all(|c| c.is_ascii_hexdigit()));
}

#[test]
fn scale_with_key_of_other_type_409() {
    let mut c = test_state();
    let d = c.create_proxy("", Some("k".to_string()), None, "r", &draws(1, 0)).unwrap();
    ran(&mut c, d);
    let target = c.pool.target();
    let tasks = c.registry.len();
    let body = obj("target", JsonValue::Number(JsonNumber::PosInt(3)));
    let e = c.patch_pool("", Some("k".to_string()), &body, "r-9", &draws(2, 1)).unwrap_err();
    assert_eq!(e.status, 409);
    assert_eq!(e.code, "IDEMPOTENCY_CONFLICT");
    assert_eq!(e.message, "idempotency key already used for task type 'proxy.create'");
    assert_eq!(e.request_id, "r-9");
    assert_eq!(c.pool.target(), target);
    assert_eq!(c.pool.pool_size(), 1);
    assert_eq!(c.registry.len(), tasks);
}

#[test]
fn idempotency_key_expires_after_a_day() {
    let mut c = test_state();
    let key = Some("create-1".to_string());
    let d = c.create_proxy("", key.clone(), None, "r", &draws(1, 0)).unwrap();
    let (id, _) = ran(&mut c, d);
    match c.create_proxy("", key.clone(), None, "r", &draws(2, 86_399_999)).unwrap() {
        Dispatch::Replay(t) => assert_eq!(t.id, id),
        other => panic!("expected a replay, got {other:?}"),
    }
    match c.create_proxy("", key, None, "r", &draws(3, 86_400_000)).unwrap() {
        Dispatch::Ran { task_id, .. } => assert_ne!(task_id, id),
        other => panic!("expected a new task, got {other:?}"),
    }
}

#[test]
fn tasks_and_keys_survive_later_requests() {
    let mut c = test_state();
    let key = Some("k-1".to_string());
    let d = c.create_proxy("", key.clone(), None, "r", &draws(1, 0)).unwrap();
    let (id1, _) = ran(&mut c, d);
    let body = obj("target", JsonValue::Number(JsonNumber::PosInt(3)));
    let d = c.patch_pool("", None, &body, "r", &draws(2, 10)).unwrap();
    let (id2, _) = ran(&mut c, d);
    let named = obj("name", JsonValue::Str("egressd-named".to_string()));
    let d = c.create_proxy("", Some("k-2".to_string()), Some(&named), "r", &draws(3, 20)).unwrap();
    ran(&mut c, d);
    // The first task can still be polled, and its key still replays it.
    assert_eq!(c.get_task("", &id1, "r", 30).unwrap().status, TaskStatus::Succeeded);
    assert_eq!(c.get_task("", &id2, "r", 30).unwrap().task_type, "pool.scale");
    match c.create_proxy("", key, None, "r", &draws(4, 40)).unwrap() {
        Dispatch::Replay(t) => assert_eq!(t.id, id1),
        other => panic!("expected a replay, got {other:?}"),
    }
}
