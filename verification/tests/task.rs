use egressd::task::{Task, TaskError, TaskStatus};

#[test]
fn task_lifecycle() {
    let mut t = Task::new("proxy.create").unwrap();
    assert_eq!(t.status, TaskStatus::Pending);
    t.start();
    assert_eq!(t.status, TaskStatus::Running);
    assert!(t.started_at.is_some());
    t.succeed(Some(r#"{"id":"x"}"#.to_string()));
    assert_eq!(t.status, TaskStatus::Succeeded);
    assert!(t.finished_at.is_some());
    let v: serde_json::Value = serde_json::from_str(&t.result.unwrap()).unwrap();
    assert_eq!(v["id"], "x");
}

#[test]
fn task_fail() {
    let mut t = Task::new("proxy.create").unwrap();
    t.fail(TaskError::new("CREATE_FAILED", "boom"));
    assert_eq!(t.status, TaskStatus::Failed);
    assert_eq!(t.error_code.as_deref(), Some("CREATE_FAILED"));
    assert_eq!(t.error.as_deref(), Some("boom"));
}

#[test]
fn task_fail_internal() {
    let mut t = Task::new("pool.scale").unwrap();
    t.fail_internal("panicked");
    assert_eq!(t.status, TaskStatus::Failed);
    assert_eq!(t.error_code.as_deref(), Some("INTERNAL"));
    assert_eq!(t.error.as_deref(), Some("panicked"));
    assert!(t.finished_at.is_some());
}

#[test]
fn task_new_shape() {
    let t = Task::new("pool.scale").unwrap();
    assert_eq!(t.id.len(), 16);
    assert!(t.id.chars().all(|c| c.is_ascii_hexdigit() && !c.is_ascii_uppercase()));
    assert_eq!(t.task_type, "pool.scale");
    assert!(t.result.is_none() && t.error.is_none() && t.error_code.is_none());
    assert!(t.started_at.is_none() && t.finished_at.is_none());
    let u = Task::new("pool.scale").unwrap();
    assert_ne!(t.id, u.id);
}

#[test]
fn task_new_at_exact() {
    let t = Task::new_at("proxy.remove", 0x0123_4567_89ab_cdef_0011_2233_4455_6677, 1_000);
    assert_eq!(t.id, "0123456789abcdef");
    assert_eq!(t.created_at, 1_000);
    let mut t2 = t.clone();
    t2.start_at(2_000);
    assert_eq!(t2.started_at, Some(2_000));
    t2.succeed_at(None, 3_000);
    assert_eq!(t2.status, TaskStatus::Succeeded);
    assert_eq!(t2.finished_at, Some(3_000));
    assert_eq!(t2.id, t.id);
}

#[test]
fn status_names() {
    assert_eq!(TaskStatus::Pending.as_str(), "pending");
    assert_eq!(TaskStatus::Running.as_str(), "running");
    assert_eq!(TaskStatus::Succeeded.as_str(), "succeeded");
    assert_eq!(TaskStatus::Failed.as_str(), "failed");
    assert!(TaskStatus::Pending.is_active());
    assert!(TaskStatus::Running.is_active());
    assert!(!TaskStatus::Failed.is_active());
    assert_eq!(TaskError::new("X", "message").to_string(), "message");
}
