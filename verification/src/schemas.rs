use vstd::prelude::*;
use vstd::utf8::encode_utf8;
use crate::json::{JsonNumber, JsonValue, member};
use crate::pool::MAX_POOL;
use crate::text::eq_str;

verus! {

/// A request body the API refuses, with the reason.
#[derive(Debug, PartialEq, Eq)]
pub struct ValidationError(pub String);

impl Clone for ValidationError {
    fn clone(&self) -> (r: Self)
        ensures
            r == *self,
    {
        ValidationError(self.0.clone())
    }
}

impl ValidationError {
    /// The reason, which is what the error displays as.
    pub fn to_string(&self) -> (s: String)
        ensures
            s@ == self.0@,
    {
        self.0.clone()
    }
}

/// Longest proxy name, in bytes.
pub const PROXY_NAME_MAX: usize = 64;

pub open spec fn msg_object() -> Seq<char> {
    "request body must be a JSON object"@
}

pub open spec fn msg_target_int() -> Seq<char> {
    "target must be an integer"@
}

pub open spec fn msg_target_max() -> Seq<char> {
    "target exceeds max pool size (20)"@
}

pub open spec fn msg_scope() -> Seq<char> {
    "scope must be 'all' or 'unhealthy'"@
}

pub open spec fn msg_name_string() -> Seq<char> {
    "name must be a string"@
}

pub open spec fn msg_name_len() -> Seq<char> {
    "name must be 1-64 characters"@
}

pub open spec fn msg_name_pattern() -> Seq<char> {
    "name must match a docker container name ([a-zA-Z0-9][a-zA-Z0-9_.-]*)"@
}

/// What `validate_scale_target` decides: the target, or the reason it is refused.
pub open spec fn scale_target_of(body: Option<JsonValue>) -> Result<u64, Seq<char>> {
    match body {
        Some(JsonValue::Object(m)) => match member(m@, "target"@) {
            Some(JsonValue::Number(JsonNumber::PosInt(n))) => if n > MAX_POOL {
                Err(msg_target_max())
            } else {
                Ok(n)
            },
            _ => Err(msg_target_int()),
        },
        _ => Err(msg_object()),
    }
}

/// The scope a rotation body asks for, before it is checked: `unhealthy` by default, the
/// text of `scope` when it is a string, and empty when it is not.
pub open spec fn requested_scope(body: Option<JsonValue>) -> Result<Seq<char>, Seq<char>> {
    match body {
        None => Ok("unhealthy"@),
        Some(JsonValue::Null) => Ok("unhealthy"@),
        Some(JsonValue::Object(m)) => match member(m@, "scope"@) {
            None => Ok("unhealthy"@),
            Some(JsonValue::Str(s)) => Ok(s@),
            Some(_) => Ok(Seq::empty()),
        },
        Some(_) => Err(msg_object()),
    }
}

/// What `validate_rotate_scope` decides.
pub open spec fn rotate_scope_of(body: Option<JsonValue>) -> Result<Seq<char>, Seq<char>> {
    match requested_scope(body) {
        Ok(s) => if s == "unhealthy"@ || s == "all"@ {
            Ok(s)
        } else {
            Err(msg_scope())
        },
        Err(e) => Err(e),
    }
}

/// An ASCII letter or digit.
pub open spec fn is_alnum(c: char) -> bool {
    ('a' <= c && c <= 'z') || ('A' <= c && c <= 'Z') || ('0' <= c && c <= '9')
}

/// A character allowed after the first in a container name.
pub open spec fn is_name_char(c: char) -> bool {
    is_alnum(c) || c == '_' || c == '.' || c == '-'
}

/// `s` is a Docker container name: `^[a-zA-Z0-9][a-zA-Z0-9_.-]*$`.
pub open spec fn is_container_name(s: Seq<char>) -> bool {
    &&& s.len() >= 1
    &&& is_alnum(s[0])
    &&& forall|i: int| 1 <= i < s.len() ==> is_name_char(#[trigger] s[i])
}

/// The regular expression for container names.
pub open spec fn container_name_pattern() -> Seq<char> {
    "^[a-zA-Z0-9][a-zA-Z0-9_.-]*$"@
}

/// Whether `text` matches the container-name pattern.
///
/// Calls `regex::Regex::new(pattern)` and `Regex::is_match(text)`. With this pattern (the
/// only one `requires` admits, and one the crate compiles) the crate's syntax gives: `^` and
/// `$` anchor at the start and the end of the text, each class matches one of the listed
/// ASCII characters, and `*` any number of them; so the text matches exactly when
/// `is_container_name` holds of it.
#[verifier::external_body]
fn regex_matches(pattern: &str, text: &str) -> (r: bool)
    requires
        pattern@ == container_name_pattern(),
    ensures
        r == is_container_name(text@),
{
    regex::Regex::new(pattern).unwrap().is_match(text)
}

/// The length of the UTF-8 encoding of `s`, in bytes.
pub open spec fn byte_len(s: Seq<char>) -> nat {
    encode_utf8(s).len()
}

/// What `validate_proxy_name` decides: no name, a name, or the reason it is refused.
pub open spec fn proxy_name_of(body: Option<JsonValue>) -> Result<Option<Seq<char>>, Seq<char>> {
    match body {
        None => Ok(None),
        Some(JsonValue::Null) => Ok(None),
        Some(JsonValue::Object(m)) => match member(m@, "name"@) {
            None => Ok(None),
            Some(JsonValue::Null) => Ok(None),
            Some(JsonValue::Str(s)) => if s@.len() == 0 || byte_len(s@) > PROXY_NAME_MAX {
                Err(msg_name_len())
            } else if !is_container_name(s@) {
                Err(msg_name_pattern())
            } else {
                Ok(Some(s@))
            },
            Some(_) => Err(msg_name_string()),
        },
        Some(_) => Err(msg_object()),
    }
}

fn refuse(msg: &str) -> (e: ValidationError)
    ensures
        e.0@ == msg@,
{
    ValidationError(msg.to_owned())
}

/// The pool target a scale request asks for: a non-negative integer no larger than
/// `MAX_POOL`.
pub fn validate_scale_target(body: Option<&JsonValue>) -> (r: Result<usize, ValidationError>)
    ensures
        match scale_target_of(match body { Some(b) => Some(*b), None => None }) {
            Ok(n) => r == Ok::<usize, ValidationError>(n as usize),
            Err(msg) => r matches Err(e) && e.0@ == msg,
        },
{
    proof {
        reveal_strlit("request body must be a JSON object");
        reveal_strlit("target must be an integer");
        reveal_strlit("target exceeds max pool size (20)");
    }
    let body = match body {
        Some(b) => b,
        None => return Err(refuse("request body must be a JSON object")),
    };
    if !body.is_object() {
        return Err(refuse("request body must be a JSON object"));
    }
    let target = match body.get("target") {
        Some(t) => t,
        None => return Err(refuse("target must be an integer")),
    };
    if target.is_boolean() {
        return Err(refuse("target must be an integer"));
    }
    let n = match target.as_u64() {
        Some(n) => n,
        None => return Err(refuse("target must be an integer")),
    };
    if n > MAX_POOL as u64 {
        return Err(refuse("target exceeds max pool size (20)"));
    }
    Ok(n as usize)
}

/// The rotation scope a request asks for: `unhealthy` (the default) or `all`.
pub fn validate_rotate_scope(body: Option<&JsonValue>) -> (r: Result<String, ValidationError>)
    ensures
        match rotate_scope_of(match body { Some(b) => Some(*b), None => None }) {
            Ok(s) => r matches Ok(t) && t@ == s,
            Err(msg) => r matches Err(e) && e.0@ == msg,
        },
{
    proof {
        reveal_strlit("request body must be a JSON object");
        reveal_strlit("scope must be 'all' or 'unhealthy'");
        reveal_strlit("unhealthy");
        reveal_strlit("all");
    }
    let scope: String = match body {
        None => String::from_str("unhealthy"),
        Some(b) => {
            if b.is_null() {
                String::from_str("unhealthy")
            } else if !b.is_object() {
                return Err(refuse("request body must be a JSON object"));
            } else {
                match b.get("scope") {
                    None => String::from_str("unhealthy"),
                    Some(v) => match v.as_str() {
                        Some(s) => s.to_owned(),
                        None => String::new(),
                    },
                }
            }
        },
    };
    if !eq_str(scope.as_str(), "unhealthy") && !eq_str(scope.as_str(), "all") {
        return Err(refuse("scope must be 'all' or 'unhealthy'"));
    }
    Ok(scope)
}

/// The explicit name a create request gives, if any: 1 to 64 bytes matching
/// `^[a-zA-Z0-9][a-zA-Z0-9_.-]*$`.
pub fn validate_proxy_name(body: Option<&JsonValue>) -> (r: Result<Option<String>, ValidationError>)
    ensures
        match proxy_name_of(match body { Some(b) => Some(*b), None => None }) {
            Ok(None) => r == Ok::<Option<String>, ValidationError>(None),
            Ok(Some(n)) => r matches Ok(Some(t)) && t@ == n,
            Err(msg) => r matches Err(e) && e.0@ == msg,
        },
{
    proof {
        reveal_strlit("request body must be a JSON object");
        reveal_strlit("name must be a string");
        reveal_strlit("name must be 1-64 characters");
        reveal_strlit("name must match a docker container name ([a-zA-Z0-9][a-zA-Z0-9_.-]*)");
    }
    let b = match body {
        Some(b) => b,
        None => return Ok(None),
    };
    if b.is_null() {
        return Ok(None);
    }
    if !b.is_object() {
        return Err(refuse("request body must be a JSON object"));
    }
    let name_val = match b.get("name") {
        Some(v) => v,
        None => return Ok(None),
    };
    if name_val.is_null() {
        return Ok(None);
    }
    let name = match name_val.as_str() {
        Some(s) => s,
        None => return Err(refuse("name must be a string")),
    };
    if name.is_empty() || name.as_bytes().len() > PROXY_NAME_MAX {
        return Err(refuse("name must be 1-64 characters"));
    }
    if !regex_matches("^[a-zA-Z0-9][a-zA-Z0-9_.-]*$", name) {
        return Err(refuse("name must match a docker container name ([a-zA-Z0-9][a-zA-Z0-9_.-]*)"));
    }
    Ok(Some(name.to_owned()))
}

} // verus!
