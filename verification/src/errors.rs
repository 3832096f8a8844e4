use vstd::prelude::*;

verus! {

/// The error envelope of the API: an HTTP status, a code, a message and the request id.
#[derive(Debug, PartialEq, Eq)]
pub struct ApiError {
    pub status: u16,
    pub code: String,
    pub message: String,
    pub request_id: String,
}

impl Clone for ApiError {
    fn clone(&self) -> (r: Self)
        ensures
            r == *self,
    {
        ApiError {
            status: self.status,
            code: self.code.clone(),
            message: self.message.clone(),
            request_id: self.request_id.clone(),
        }
    }
}

impl ApiError {
    pub open spec fn is(self, status: u16, code: Seq<char>, message: Seq<char>, request_id: Seq<char>) -> bool {
        &&& self.status == status
        &&& self.code@ == code
        &&& self.message@ == message
        &&& self.request_id@ == request_id
    }

    pub fn new(status: u16, code: &str, message: &str, request_id: &str) -> (e: ApiError)
        ensures
            e.is(status, code@, message@, request_id@),
    {
        ApiError {
            status,
            code: code.to_owned(),
            message: message.to_owned(),
            request_id: request_id.to_owned(),
        }
    }

    /// 401 `UNAUTHORIZED`.
    pub fn unauthorized(rid: &str) -> (e: ApiError)
        ensures
            e.is(401, "UNAUTHORIZED"@, "unauthorized"@, rid@),
    {
        ApiError::new(401, "UNAUTHORIZED", "unauthorized", rid)
    }

    /// 422 `VALIDATION_ERROR` with `msg`.
    pub fn validation(msg: &str, rid: &str) -> (e: ApiError)
        ensures
            e.is(422, "VALIDATION_ERROR"@, msg@, rid@),
    {
        ApiError::new(422, "VALIDATION_ERROR", msg, rid)
    }

    /// 404 with `code` and `msg`.
    pub fn not_found(code: &str, msg: &str, rid: &str) -> (e: ApiError)
        ensures
            e.is(404, code@, msg@, rid@),
    {
        ApiError::new(404, code, msg, rid)
    }

    /// 409 with `code` and `msg`.
    pub fn conflict(code: &str, msg: &str, rid: &str) -> (e: ApiError)
        ensures
            e.is(409, code@, msg@, rid@),
    {
        ApiError::new(409, code, msg, rid)
    }
}

} // verus!
