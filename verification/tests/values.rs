use egressd::endpoint::Endpoint;
use egressd::errors::ApiError;
use egressd::ids::{name_suffix_of, new_short_id, short_id_of};
use egressd::json::{JsonNumber, JsonValue};

#[test]
fn endpoint_new_at_exact() {
    let e = Endpoint::new_at("egressd-abc", "cid123", 7);
    assert_eq!(e.socks5_url(), "socks5://egressd-abc:1080");
    assert_eq!(e.http_url(), "http://egressd-abc:3128");
    assert_eq!(e.created_at, 7);
    assert!(!e.healthy && !e.busy && !e.socks5_ok && !e.http_ok && !e.tunnel_connected);
    assert_eq!(e.tunnel_detail, "");
    assert_eq!(e.clone(), e);
}

#[test]
fn endpoint_new_uses_clock() {
    let e = Endpoint::new("x", "y");
    assert!(e.created_at > 0);
    assert_eq!(e.container_id, "y");
}

#[test]
fn short_ids() {
    assert_eq!(short_id_of(0xfedc_ba98_7654_3210_0000_0000_0000_0000), "fedcba9876543210");
    assert_eq!(short_id_of(0), "0000000000000000");
    let a = new_short_id().unwrap();
    assert_eq!(a.len(), 16);
    assert!(a.chars().all(|c| c.is_ascii_digit() || ('a'..='f').contains(&c)));
    // A v4 UUID has version nibble 4 in the third group, which is past the short id.
    assert_ne!(a, new_short_id().unwrap());
}

#[test]
fn name_suffixes() {
    assert_eq!(name_suffix_of(0), "00000000");
    assert_eq!(name_suffix_of(0xdeadbeef), "deadbeef");
    assert_eq!(name_suffix_of(0x1a), "0000001a");
}

#[test]
fn api_error_constructors() {
    let e = ApiError::unauthorized("r");
    assert_eq!((e.status, e.code.as_str(), e.message.as_str(), e.request_id.as_str()), (401, "UNAUTHORIZED", "unauthorized", "r"));
    let e = ApiError::validation("bad", "r");
    assert_eq!((e.status, e.code.as_str()), (422, "VALIDATION_ERROR"));
    let e = ApiError::not_found("X", "m", "r");
    assert_eq!(e.status, 404);
    let e = ApiError::conflict("Y", "m", "r");
    assert_eq!(e.status, 409);
    assert_eq!(e.clone(), e);
    assert_eq!(ApiError::new(500, "A", "B", "C").message, "B");
}

#[test]
fn json_access() {
    let v = JsonValue::Object(vec![
        ("a".to_string(), JsonValue::Number(JsonNumber::PosInt(3))),
        ("a".to_string(), JsonValue::Null),
        ("s".to_string(), JsonValue::Str("x".to_string())),
        ("b".to_string(), JsonValue::Bool(true)),
    ]);
    assert_eq!(v.get("a").unwrap().as_u64(), Some(3));
    assert_eq!(v.get("s").unwrap().as_str(), Some("x"));
    assert!(v.get("b").unwrap().is_boolean());
    assert!(v.get("zz").is_none());
    assert!(v.is_object());
    assert!(JsonValue::Null.is_null());
    assert!(JsonValue::Null.get("a").is_none());
    assert_eq!(JsonValue::Number(JsonNumber::NegInt(-1)).as_u64(), None);
}
