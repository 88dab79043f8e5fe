//! The errors of the HTTP surface and their status codes.

use vstd::prelude::*;

verus! {

/// An error as a client sees it: the status code and the text of `detail`.
pub struct ErrorView {
    /// The HTTP status code.
    pub status: u16,
    /// The message.
    pub detail: Seq<char>,
}

/// A handler error, one variant per HTTP status code.
#[derive(Debug)]
pub enum ApiError {
    /// 400: path escapes, invalid subdirectories, failed writes.
    BadRequest(String),
    /// 401: missing or invalid bearer.
    Unauthorized(String),
    /// 404: no such file, directory or path.
    NotFound(String),
    /// 409: the destination of a move exists.
    Conflict(String),
    /// 413: a snapshot or restore stream is over the size cap.
    PayloadTooLarge(String),
    /// 415: a binary file that is no image.
    UnsupportedMediaType(String),
    /// 422: a file that cannot be compared.
    UnprocessableEntity(String),
    /// 429: the cap on terminal sessions is reached.
    TooManyRequests(String),
    /// 500: an internal failure.
    Internal(String),
    /// 502: the proxied service refused the connection.
    BadGateway(String),
    /// 503: the session key is not configured, or a terminal cannot start.
    ServiceUnavailable(String),
    /// 504: the proxied service timed out.
    GatewayTimeout(String),
}

impl View for ApiError {
    type V = ErrorView;

    open spec fn view(&self) -> ErrorView {
        match *self {
            ApiError::BadRequest(m) => bad_request(m@),
            ApiError::Unauthorized(m) => unauthorized(m@),
            ApiError::NotFound(m) => not_found(m@),
            ApiError::Conflict(m) => ErrorView { status: 409, detail: m@ },
            ApiError::PayloadTooLarge(m) => ErrorView { status: 413, detail: m@ },
            ApiError::UnsupportedMediaType(m) => ErrorView { status: 415, detail: m@ },
            ApiError::UnprocessableEntity(m) => unprocessable(m@),
            ApiError::TooManyRequests(m) => ErrorView { status: 429, detail: m@ },
            ApiError::Internal(m) => internal(m@),
            ApiError::BadGateway(m) => ErrorView { status: 502, detail: m@ },
            ApiError::ServiceUnavailable(m) => ErrorView { status: 503, detail: m@ },
            ApiError::GatewayTimeout(m) => ErrorView { status: 504, detail: m@ },
        }
    }
}

/// A 400 with the given message.
pub open spec fn bad_request(m: Seq<char>) -> ErrorView {
    ErrorView { status: 400, detail: m }
}

/// A 401 with the given message.
pub open spec fn unauthorized(m: Seq<char>) -> ErrorView {
    ErrorView { status: 401, detail: m }
}

/// A 404 with the given message.
pub open spec fn not_found(m: Seq<char>) -> ErrorView {
    ErrorView { status: 404, detail: m }
}

/// A 422 with the given message.
pub open spec fn unprocessable(m: Seq<char>) -> ErrorView {
    ErrorView { status: 422, detail: m }
}

/// A 500 with the given message.
pub open spec fn internal(m: Seq<char>) -> ErrorView {
    ErrorView { status: 500, detail: m }
}

/// The body of every error response.
#[derive(Debug)]
pub struct ErrorResponse {
    /// Human-readable error detail.
    pub detail: String,
}

impl ApiError {
    /// The HTTP status code of the error.
    pub fn status(&self) -> (r: u16)
        ensures
            r == self@.status,
    {
        match self {
            ApiError::BadRequest(_) => 400,
            ApiError::Unauthorized(_) => 401,
            ApiError::NotFound(_) => 404,
            ApiError::Conflict(_) => 409,
            ApiError::PayloadTooLarge(_) => 413,
            ApiError::UnsupportedMediaType(_) => 415,
            ApiError::UnprocessableEntity(_) => 422,
            ApiError::TooManyRequests(_) => 429,
            ApiError::Internal(_) => 500,
            ApiError::BadGateway(_) => 502,
            ApiError::ServiceUnavailable(_) => 503,
            ApiError::GatewayTimeout(_) => 504,
        }
    }

    /// The body of the response to the failed request.
    pub fn body(&self) -> (r: ErrorResponse)
        ensures
            r.detail@ == self@.detail,
    {
        let m: &String = match self {
            ApiError::BadRequest(m) => m,
            ApiError::Unauthorized(m) => m,
            ApiError::NotFound(m) => m,
            ApiError::Conflict(m) => m,
            ApiError::PayloadTooLarge(m) => m,
            ApiError::UnsupportedMediaType(m) => m,
            ApiError::UnprocessableEntity(m) => m,
            ApiError::TooManyRequests(m) => m,
            ApiError::Internal(m) => m,
            ApiError::BadGateway(m) => m,
            ApiError::ServiceUnavailable(m) => m,
            ApiError::GatewayTimeout(m) => m,
        };
        ErrorResponse { detail: m.clone() }
    }
}

/// Every error is a client or a server error.
pub proof fn law_error_statuses(e: ApiError)
    ensures
        400 <= e@.status <= 504,
{
}

/// The message of a path that leaves the workspace.
pub fn escapes() -> (r: &'static str)
    ensures
        r@ == "path escapes workspace"@,
{
    "path escapes workspace"
}

/// Every kind of error has the HTTP status that it is named after, and says what it
/// was given to say.
pub proof fn law_statuses(m: String)
    ensures
        ApiError::BadRequest(m)@ == (ErrorView { status: 400, detail: m@ }),
        ApiError::Unauthorized(m)@ == (ErrorView { status: 401, detail: m@ }),
        ApiError::NotFound(m)@ == (ErrorView { status: 404, detail: m@ }),
        ApiError::Conflict(m)@ == (ErrorView { status: 409, detail: m@ }),
        ApiError::PayloadTooLarge(m)@ == (ErrorView { status: 413, detail: m@ }),
        ApiError::UnsupportedMediaType(m)@ == (ErrorView { status: 415, detail: m@ }),
        ApiError::UnprocessableEntity(m)@ == (ErrorView { status: 422, detail: m@ }),
        ApiError::TooManyRequests(m)@ == (ErrorView { status: 429, detail: m@ }),
        ApiError::Internal(m)@ == (ErrorView { status: 500, detail: m@ }),
        ApiError::BadGateway(m)@ == (ErrorView { status: 502, detail: m@ }),
        ApiError::ServiceUnavailable(m)@ == (ErrorView { status: 503, detail: m@ }),
        ApiError::GatewayTimeout(m)@ == (ErrorView { status: 504, detail: m@ }),
{
}

} // verus!
