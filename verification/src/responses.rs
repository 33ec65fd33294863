//! Error shapes the service layer returns to clients, and the mapping from
//! each error kind to its HTTP status code.

use vstd::prelude::*;

verus! {

/// Body of an error response.
#[derive(Debug)]
pub struct ErrorResponse {
    pub message: String,
}

/// The failures the service layer reports, each carrying a message for the
/// client.
#[derive(Debug, Clone, PartialEq, Eq)]
pub enum HTTPException {
    Internal(String),
    NotFound(String),
    BadRequest(String),
    Conflict(String),
    Unauthorized(String),
}

/// Body of a successful response: a message and a payload, the payload held
/// as already-serialized text; turning it into a structured value belongs to
/// the surrounding service.
#[derive(Debug, Clone, PartialEq, Eq)]
pub struct CustomResponse {
    pub message: String,
    pub data: String,
}

/// The successful outcomes the service layer reports.
#[derive(Debug, Clone, PartialEq, Eq)]
pub enum HTTPSuccessResponse {
    Okay(CustomResponse),
    Created(CustomResponse),
}

impl HTTPSuccessResponse {
    /// The HTTP status code this outcome is reported under.
    pub fn get_http_status(&self) -> (code: u16)
        ensures
            code == match self {
                HTTPSuccessResponse::Okay(_) => 200u16,
                HTTPSuccessResponse::Created(_) => 201u16,
            },
    {
        match self {
            HTTPSuccessResponse::Okay(_) => 200,
            HTTPSuccessResponse::Created(_) => 201,
        }
    }

    /// The response body, whatever the outcome.
    pub fn get_http_response(&self) -> (r: &CustomResponse)
        ensures
            match self {
                HTTPSuccessResponse::Okay(c) => r == c,
                HTTPSuccessResponse::Created(c) => r == c,
            },
    {
        match self {
            HTTPSuccessResponse::Okay(response) => response,
            HTTPSuccessResponse::Created(response) => response,
        }
    }
}

/// The message an exception carries, whatever its kind.
pub open spec fn spec_exception_message(e: HTTPException) -> Seq<char> {
    match e {
        HTTPException::Internal(m) => m@,
        HTTPException::NotFound(m) => m@,
        HTTPException::BadRequest(m) => m@,
        HTTPException::Conflict(m) => m@,
        HTTPException::Unauthorized(m) => m@,
    }
}

impl HTTPException {
    /// The HTTP status code this exception is reported under.
    pub fn get_http_status(&self) -> (code: u16)
        ensures
            code == match self {
                HTTPException::Internal(_) => 500u16,
                HTTPException::NotFound(_) => 404u16,
                HTTPException::BadRequest(_) => 400u16,
                HTTPException::Conflict(_) => 409u16,
                HTTPException::Unauthorized(_) => 401u16,
            },
    {
        match self {
            HTTPException::Internal(_) => 500,
            HTTPException::NotFound(_) => 404,
            HTTPException::BadRequest(_) => 400,
            HTTPException::Conflict(_) => 409,
            HTTPException::Unauthorized(_) => 401,
        }
    }

    /// The message shown to the client.
    pub fn message(&self) -> (m: &String)
        ensures
            m@ == spec_exception_message(*self),
    {
        match self {
            HTTPException::Internal(message) => message,
            HTTPException::NotFound(message) => message,
            HTTPException::BadRequest(message) => message,
            HTTPException::Conflict(message) => message,
            HTTPException::Unauthorized(message) => message,
        }
    }
}

} // verus!
