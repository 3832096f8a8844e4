use egressd::auth::{constant_eq, AuthGate};

#[test]
fn constant_eq_cases() {
    assert!(constant_eq(b"abc", b"abc"));
    assert!(!constant_eq(b"abc", b"abd"));
    assert!(!constant_eq(b"abc", b"ab"));
    assert!(constant_eq(b"", b""));
}

#[test]
fn no_key_accepts_anything() {
    let mut g = AuthGate::new(None);
    assert!(g.check_at("", "c", 0).is_ok());
    assert!(g.check_at("garbage", "c", 0).is_ok());
}

#[test]
fn bearer_key_required() {
    let mut g = AuthGate::new(Some("test-secret".to_string()));
    assert!(g.check_at("Bearer test-secret", "c", 0).is_ok());
    let e = g.check_at("Bearer wrong", "c", 0).unwrap_err();
    assert_eq!(e.status, 401);
    assert_eq!(e.code, "UNAUTHORIZED");
    assert_eq!(e.message, "unauthorized");
    let e = g.check_at("", "c", 0).unwrap_err();
    assert_eq!(e.status, 401);
}

#[test]
fn rate_limit_after_ten_failures() {
    let mut g = AuthGate::new(Some("k".to_string()));
    for i in 0..10 {
        let e = g.check_at("bad", "1.2.3.4", i).unwrap_err();
        assert_eq!(e.status, 401);
    }
    let e = g.check_at("bad", "1.2.3.4", 10).unwrap_err();
    assert_eq!(e.status, 429);
    assert_eq!(e.code, "RATE_LIMITED");
    assert_eq!(e.message, "too many requests");
    // Another client is not limited.
    assert_eq!(g.check_at("bad", "5.6.7.8", 10).unwrap_err().status, 401);
    // A good key still passes.
    assert!(g.check_at("Bearer k", "1.2.3.4", 11).is_ok());
    // Once the window has passed, failures count afresh.
    assert_eq!(g.check_at("bad", "1.2.3.4", 60_010).unwrap_err().status, 401);
}

#[test]
fn check_uses_clock() {
    let mut g = AuthGate::new(Some("k".to_string()));
    assert!(g.check("Bearer k", "c").is_ok());
    assert_eq!(g.check("Bearer x", "c").unwrap_err().status, 401);
}
