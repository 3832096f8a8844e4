use egressd::json::{JsonNumber, JsonValue};
use egressd::schemas::{validate_proxy_name, validate_rotate_scope, validate_scale_target};

fn obj(key: &str, v: JsonValue) -> JsonValue {
    JsonValue::Object(vec![(key.to_string(), v)])
}

fn empty_obj() -> JsonValue {
    JsonValue::Object(vec![])
}

fn uint(n: u64) -> JsonValue {
    JsonValue::Number(JsonNumber::PosInt(n))
}

fn text(s: &str) -> JsonValue {
    JsonValue::Str(s.to_string())
}

#[test]
fn scale_valid() {
    assert_eq!(validate_scale_target(Some(&obj("target", uint(2)))).unwrap(), 2);
    assert_eq!(validate_scale_target(Some(&obj("target", uint(0)))).unwrap(), 0);
}

#[test]
fn scale_invalid() {
    assert!(validate_scale_target(None).is_err());
    assert!(validate_scale_target(Some(&obj("target", text("many")))).is_err());
    assert!(validate_scale_target(Some(&obj("target", JsonValue::Number(JsonNumber::NegInt(-1))))).is_err());
    assert!(validate_scale_target(Some(&obj("target", JsonValue::Number(JsonNumber::Float)))).is_err());
    assert!(validate_scale_target(Some(&obj("target", uint(100)))).is_err()); // exceeds 20
    assert!(validate_scale_target(Some(&obj("target", JsonValue::Bool(true)))).is_err());
    assert_eq!(
        validate_scale_target(Some(&obj("target", text("many")))).unwrap_err().0,
        "target must be an integer"
    );
}

#[test]
fn scale_messages() {
    assert_eq!(validate_scale_target(None).unwrap_err().0, "request body must be a JSON object");
    assert_eq!(validate_scale_target(Some(&text("x"))).unwrap_err().0, "request body must be a JSON object");
    assert_eq!(validate_scale_target(Some(&empty_obj())).unwrap_err().0, "target must be an integer");
    assert_eq!(
        validate_scale_target(Some(&obj("target", uint(21)))).unwrap_err().0,
        "target exceeds max pool size (20)"
    );
    assert_eq!(validate_scale_target(Some(&obj("target", uint(20)))).unwrap(), 20);
}

#[test]
fn rotate_scope_valid() {
    assert_eq!(validate_rotate_scope(None).unwrap(), "unhealthy");
    assert_eq!(validate_rotate_scope(Some(&obj("scope", text("all")))).unwrap(), "all");
    assert_eq!(validate_rotate_scope(Some(&obj("scope", text("unhealthy")))).unwrap(), "unhealthy");
    assert_eq!(validate_rotate_scope(Some(&empty_obj())).unwrap(), "unhealthy");
}

#[test]
fn rotate_scope_invalid() {
    assert!(validate_rotate_scope(Some(&obj("scope", text("everything")))).is_err());
    assert!(validate_rotate_scope(Some(&text("not-an-object"))).is_err());
    assert_eq!(
        validate_rotate_scope(Some(&obj("scope", text("everything")))).unwrap_err().0,
        "scope must be 'all' or 'unhealthy'"
    );
}

#[test]
fn rotate_scope_edges() {
    assert_eq!(validate_rotate_scope(Some(&JsonValue::Null)).unwrap(), "unhealthy");
    // A scope that is not a string reads as empty, which is refused.
    assert_eq!(
        validate_rotate_scope(Some(&obj("scope", uint(3)))).unwrap_err().0,
        "scope must be 'all' or 'unhealthy'"
    );
    assert_eq!(
        validate_rotate_scope(Some(&text("x"))).unwrap_err().0,
        "request body must be a JSON object"
    );
}

#[test]
fn proxy_name_valid() {
    assert_eq!(
        validate_proxy_name(Some(&obj("name", text("egressd-custom")))).unwrap(),
        Some("egressd-custom".to_string())
    );
    assert_eq!(validate_proxy_name(None).unwrap(), None);
    assert_eq!(validate_proxy_name(Some(&empty_obj())).unwrap(), None);
    assert_eq!(validate_proxy_name(Some(&JsonValue::Null)).unwrap(), None);
}

#[test]
fn proxy_name_invalid() {
    assert!(validate_proxy_name(Some(&obj("name", text("has space")))).is_err());
    assert!(validate_proxy_name(Some(&obj("name", uint(12)))).is_err());
    assert!(validate_proxy_name(Some(&obj("name", text(&"x".repeat(65))))).is_err());
    assert!(validate_proxy_name(Some(&text("not-an-object"))).is_err());
    assert!(validate_proxy_name(Some(&obj("name", text("")))).is_err());
    assert!(validate_proxy_name(Some(&obj("name", text("-bad")))).is_err());
    let err = validate_proxy_name(Some(&obj("name", text("has space")))).unwrap_err();
    assert_eq!(
        err.0,
        "name must match a docker container name ([a-zA-Z0-9][a-zA-Z0-9_.-]*)"
    );
}

#[test]
fn proxy_name_edges() {
    assert_eq!(validate_proxy_name(Some(&obj("name", JsonValue::Null))).unwrap(), None);
    assert_eq!(
        validate_proxy_name(Some(&obj("name", uint(12)))).unwrap_err().0,
        "name must be a string"
    );
    assert_eq!(
        validate_proxy_name(Some(&obj("name", text("")))).unwrap_err().0,
        "name must be 1-64 characters"
    );
    let max = "a".repeat(64);
    assert_eq!(validate_proxy_name(Some(&obj("name", text(&max)))).unwrap(), Some(max.clone()));
    // 32 two-byte characters are 64 bytes, 33 are 66: the limit counts bytes.
    assert_eq!(
        validate_proxy_name(Some(&obj("name", text(&"é".repeat(33))))).unwrap_err().0,
        "name must be 1-64 characters"
    );
    assert_eq!(
        validate_proxy_name(Some(&obj("name", text(&"é".repeat(32))))).unwrap_err().0,
        "name must match a docker container name ([a-zA-Z0-9][a-zA-Z0-9_.-]*)"
    );
    assert_eq!(
        validate_proxy_name(Some(&obj("name", text("A9_.-z")))).unwrap(),
        Some("A9_.-z".to_string())
    );
    assert!(validate_proxy_name(Some(&obj("name", text("bad/name")))).is_err());
    assert!(validate_proxy_name(Some(&obj("name", text("ok\n")))).is_err());
}
