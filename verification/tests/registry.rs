use egressd::registry::TaskRegistry;
use egressd::task::{TaskError, TaskStatus};

/// A UUID whose short id is the hex of `n`.
fn uuid(n: u128) -> u128 {
    n << 64
}

#[test]
fn registry_create_get() {
    let mut reg = TaskRegistry::new();
    let t = reg.create("pool.scale").unwrap();
    assert_eq!(t.status, TaskStatus::Pending);
    let fetched = reg.get(&t.id).unwrap();
    assert_eq!(fetched.id, t.id);
    assert_eq!(reg.len(), 1);
}

#[test]
fn registry_idempotency_dedup() {
    let mut reg = TaskRegistry::new();
    let t1 = reg.create("proxy.create").unwrap();
    reg.set_idempotent("key1".to_string(), t1.id.clone());
    let fetched = reg.get_idempotent("key1").unwrap();
    assert_eq!(fetched.id, t1.id);
    // Same key returns same task
    let again = reg.get_idempotent("key1").unwrap();
    assert_eq!(again.id, t1.id);
    assert_eq!(reg.idem_len(), 1);
}

#[test]
fn registry_idempotency_conflict() {
    let mut reg = TaskRegistry::new();
    let t1 = reg.create("pool.scale").unwrap();
    reg.set_idempotent("shared".to_string(), t1.id.clone());
    let err = reg
        .check_idempotent_conflict("shared", "proxy.create")
        .unwrap_err();
    assert_eq!(err.code, "IDEMPOTENCY_CONFLICT");
    // Same type is ok
    let ok = reg.check_idempotent_conflict("shared", "pool.scale").unwrap();
    assert!(ok.is_some());
}

#[test]
fn registry_prune_max_items() {
    let mut reg = TaskRegistry::new();
    // Create 205 tasks, should prune to 200
    for i in 0..205 {
        let t = reg.create(&format!("type-{i}")).unwrap();
        let now = t.created_at;
        if let Some(task) = reg.get_mut(&t.id) {
            task.finished_at = Some(now - 4000 * 1000);
            task.status = TaskStatus::Succeeded;
        }
    }
    assert!(reg.len() <= 200);
}

#[test]
fn registry_conflict_message_names_type() {
    let mut reg = TaskRegistry::new();
    let t1 = reg.create_at("pool.scale", uuid(1), 10_000);
    reg.set_idempotent_at("k".to_string(), t1.id.clone(), 10_000);
    let err = reg.check_idempotent_conflict_at("k", "proxy.create", 10_000).unwrap_err();
    assert_eq!(err.message, "idempotency key already used for task type 'pool.scale'");
    assert!(reg.check_idempotent_conflict_at("unknown", "proxy.create", 10_000).unwrap().is_none());
}

#[test]
fn registry_prune_by_age_exact() {
    let mut reg = TaskRegistry::new();
    let old = reg.create_at("a", uuid(1), 0);
    assert!(reg.finish_task_at(&old.id, Ok(None), 1_000));
    // Finished at 1 s; one hour and a bit later a new create prunes it.
    let young = reg.create_at("b", uuid(2), 1_000 + 3_600_001);
    assert!(reg.get(&old.id).is_none());
    assert!(reg.get(&young.id).is_some());
    assert_eq!(reg.len(), 1);
}

#[test]
fn registry_running_tasks_survive_age_prune() {
    let mut reg = TaskRegistry::new();
    let t = reg.create_at("a", uuid(1), 0);
    assert!(reg.start_task_at(&t.id, 5));
    reg.create_at("b", uuid(2), 10 * 3_600_000);
    let back = reg.get(&t.id).unwrap();
    assert_eq!(back.status, TaskStatus::Running);
    assert_eq!(back.started_at, Some(5));
}

#[test]
fn registry_cap_drops_oldest() {
    let mut reg = TaskRegistry::new();
    let first = reg.create_at("t", uuid(1000), 0);
    for i in 1..=200u128 {
        reg.create_at("t", uuid(1000 + i), i as i64);
    }
    assert_eq!(reg.len(), 200);
    assert!(reg.get(&first.id).is_none());
}

#[test]
fn registry_finish_and_start_missing() {
    let mut reg = TaskRegistry::new();
    assert!(!reg.start_task("nope"));
    assert!(!reg.finish_task("nope", Ok(None)));
    assert!(reg.get_mut("nope").is_none());
    let t = reg.create("proxy.create").unwrap();
    reg.submit(&t.id);
    assert_eq!(reg.get(&t.id).unwrap().status, TaskStatus::Running);
    assert!(reg.finish_task(&t.id, Err(TaskError::new("CREATE_FAILED", "boom"))));
    let done = reg.get(&t.id).unwrap();
    assert_eq!(done.status, TaskStatus::Failed);
    assert_eq!(done.error_code.as_deref(), Some("CREATE_FAILED"));
    assert_eq!(done.error.as_deref(), Some("boom"));
}

#[test]
fn registry_finish_success_records_result() {
    let mut reg = TaskRegistry::new();
    let t = reg.create_at("pool.scale", uuid(7), 100);
    assert!(reg.finish_task_at(&t.id, Ok(Some("{\"target\":2}".to_string())), 200));
    let done = reg.get(&t.id).unwrap();
    assert_eq!(done.status, TaskStatus::Succeeded);
    assert_eq!(done.result.as_deref(), Some("{\"target\":2}"));
    assert_eq!(done.finished_at, Some(200));
}

#[test]
fn registry_idem_key_of_missing_task_reads_none() {
    let mut reg = TaskRegistry::new();
    reg.set_idempotent_at("k".to_string(), "ghost".to_string(), 0);
    assert!(reg.get_idempotent("k").is_none());
}

#[test]
fn registry_idem_rewrite_points_to_new_task() {
    let mut reg = TaskRegistry::new();
    let a = reg.create_at("x", uuid(1), 0);
    let b = reg.create_at("x", uuid(2), 0);
    reg.set_idempotent_at("k".to_string(), a.id.clone(), 0);
    reg.set_idempotent_at("k".to_string(), b.id.clone(), 1);
    assert_eq!(reg.idem_len(), 1);
    assert_eq!(reg.get_idempotent_at("k", 1).unwrap().id, b.id);
}

#[test]
fn registry_idem_key_expires_after_a_day() {
    let mut reg = TaskRegistry::new();
    let t = reg.create_at("proxy.create", uuid(9), 0);
    reg.set_idempotent_at("k".to_string(), t.id.clone(), 0);
    assert_eq!(reg.get_idempotent_at("k", 86_399_999).unwrap().id, t.id);
    assert!(reg.get_idempotent_at("k", 86_400_000).is_none());
    assert!(reg.check_idempotent_conflict_at("k", "pool.scale", 86_400_000).unwrap().is_none());
    let e = reg.check_idempotent_conflict_at("k", "pool.scale", 1).unwrap_err();
    assert_eq!(e.code, "IDEMPOTENCY_CONFLICT");
    assert_eq!(reg.check_idempotent_conflict_at("k", "proxy.create", 1).unwrap().unwrap().id, t.id);
}
