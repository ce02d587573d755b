//! The decisions of the HTTP handler: which route a request takes, and the
//! reply to a classification request.
use vstd::prelude::*;

use crate::classify::{classifies, classify_email, Classification};
use crate::dataset::{rules, spec_namespace_roots, spec_rules};
use crate::email::spec_extract_domain;
use crate::text::{chars_equal, chars_of};

verus! {

/// The path of the classification endpoint.
pub const CLASSIFY_PATH: &'static str = "/v1/email-domain-classifications";

/// The largest request body accepted, in bytes.
pub const MAX_BODY_BYTES: usize = 4096;

/// Where a request goes.
#[derive(Debug, Clone, Copy, PartialEq, Eq, Structural)]
pub enum Route {
    /// `GET /health`.
    Health,
    /// A path other than the classification endpoint.
    NotFound,
    /// The classification endpoint with a method other than `POST`.
    MethodNotAllowed,
    /// A `POST` to the classification endpoint whose body is too large.
    PayloadTooLarge,
    /// A `POST` to the classification endpoint to be classified.
    Classify,
}

/// The route of a request with the given path, method and body size.
pub open spec fn spec_route(path: Seq<char>, method: Seq<char>, body_len: nat) -> Route {
    if path == "/health"@ && method == "GET"@ {
        Route::Health
    } else if path != CLASSIFY_PATH@ {
        Route::NotFound
    } else if method != "POST"@ {
        Route::MethodNotAllowed
    } else if body_len > MAX_BODY_BYTES {
        Route::PayloadTooLarge
    } else {
        Route::Classify
    }
}

/// Chooses the route of a request.
pub fn route_request(path: &str, method: &str, body_len: usize) -> (r: Route)
    ensures
        r == spec_route(path@, method@, body_len as nat),
{
    let path_chars = chars_of(path);
    let method_chars = chars_of(method);
    if chars_equal(&path_chars, &chars_of("/health")) && chars_equal(&method_chars, &chars_of("GET")) {
        return Route::Health;
    }
    if !chars_equal(&path_chars, &chars_of(CLASSIFY_PATH)) {
        return Route::NotFound;
    }
    if !chars_equal(&method_chars, &chars_of("POST")) {
        return Route::MethodNotAllowed;
    }
    if body_len > MAX_BODY_BYTES {
        return Route::PayloadTooLarge;
    }
    Route::Classify
}

/// An error reply: the status, the error code and the message, and the
/// methods to announce in an `allow` header, if any.
#[derive(Debug, Clone, PartialEq, Eq)]
pub struct ErrorReply {
    pub status: u16,
    pub code: &'static str,
    pub message: &'static str,
    pub allow: Option<&'static str>,
}

/// The error reply of a route that does not classify, if it is one.
pub open spec fn spec_route_error(route: Route) -> Option<ErrorReply> {
    match route {
        Route::NotFound => Some(
            ErrorReply { status: 404, code: "notFound", message: "route not found", allow: None },
        ),
        Route::MethodNotAllowed => Some(
            ErrorReply {
                status: 405,
                code: "methodNotAllowed",
                message: "use POST for this route",
                allow: Some("POST"),
            },
        ),
        Route::PayloadTooLarge => Some(
            ErrorReply {
                status: 413,
                code: "payloadTooLarge",
                message: "request body must not exceed 4096 bytes",
                allow: None,
            },
        ),
        _ => None,
    }
}

impl Route {
    /// The error reply of this route, if it is one that fails the request.
    pub fn error_reply(&self) -> (r: Option<ErrorReply>)
        ensures
            r == spec_route_error(*self),
    {
        match self {
            Route::NotFound => Some(
                ErrorReply {
                    status: 404,
                    code: "notFound",
                    message: "route not found",
                    allow: None,
                },
            ),
            Route::MethodNotAllowed => Some(
                ErrorReply {
                    status: 405,
                    code: "methodNotAllowed",
                    message: "use POST for this route",
                    allow: Some("POST"),
                },
            ),
            Route::PayloadTooLarge => Some(
                ErrorReply {
                    status: 413,
                    code: "payloadTooLarge",
                    message: "request body must not exceed 4096 bytes",
                    allow: None,
                },
            ),
            _ => None,
        }
    }
}

/// The health report: the dataset version and the number of rules.
pub fn health() -> (r: (&'static str, usize))
    ensures
        r.0 == crate::dataset::DATASET_VERSION,
        r.1 == spec_rules().len(),
{
    (crate::dataset::DATASET_VERSION, rules().len())
}

/// The reply to a classification request whose body held `email` (or, where
/// `None`, was not JSON with exactly one string field named `email`): the
/// classification, or an error reply with status 400 for the body or 422 for
/// the address.
pub fn classification_reply(email: Option<&str>) -> (r: Result<Classification, ErrorReply>)
    ensures
        match email {
            None => r == Err::<Classification, ErrorReply>(
                ErrorReply {
                    status: 400,
                    code: "invalidJson",
                    message: "body must be JSON with exactly one string field named email",
                    allow: None,
                },
            ),
            Some(e) => match r {
                Ok(c) => spec_extract_domain(e) is Ok && classifies(
                    c,
                    spec_extract_domain(e)->Ok_0,
                    spec_rules(),
                    spec_namespace_roots(),
                ),
                Err(reply) => spec_extract_domain(e) is Err && reply.status == 422 && reply.code
                    == "invalidEmail" && reply.message@ == (spec_extract_domain(e)->Err_0).spec_message()
                    && reply.allow is None,
            },
        },
{
    match email {
        None => Err(
            ErrorReply {
                status: 400,
                code: "invalidJson",
                message: "body must be JSON with exactly one string field named email",
                allow: None,
            },
        ),
        Some(e) => match classify_email(e) {
            Ok(c) => Ok(c),
            Err(error) => Err(
                ErrorReply {
                    status: 422,
                    code: "invalidEmail",
                    message: error.message(),
                    allow: None,
                },
            ),
        },
    }
}

/// Routing: `GET /health` and nothing else is the health check; every other
/// path than the classification endpoint is not found, whatever the method
/// and body size; the endpoint answers a method other than `POST` with
/// method-not-allowed, a `POST` body over 4096 bytes with payload-too-large,
/// and classifies every other `POST`.
pub proof fn law_routes(path: Seq<char>, method: Seq<char>, body_len: nat)
    ensures
        spec_route(path, method, body_len) == Route::Health <==> (path == "/health"@ && method
            == "GET"@),
        path != "/v1/email-domain-classifications"@ && !(path == "/health"@ && method == "GET"@)
            ==> spec_route(path, method, body_len) == Route::NotFound,
        spec_route(path, method, body_len) == Route::MethodNotAllowed <==> (path
            == "/v1/email-domain-classifications"@ && method != "POST"@),
        spec_route(path, method, body_len) == Route::PayloadTooLarge <==> (path
            == "/v1/email-domain-classifications"@ && method == "POST"@ && body_len > 4096),
        spec_route(path, method, body_len) == Route::Classify <==> (path
            == "/v1/email-domain-classifications"@ && method == "POST"@ && body_len <= 4096),
{
    reveal_strlit("/health");
    reveal_strlit("/v1/email-domain-classifications");
    reveal_strlit("GET");
    reveal_strlit("POST");
    assert("/health"@ != "/v1/email-domain-classifications"@) by {
        assert("/health"@.len() != "/v1/email-domain-classifications"@.len());
    }
}

} // verus!
