//! What the axum integration answers instead of panicking: a typed error with the status it
//! is answered with, and the decisions of a redirect and of a default content type.

use crate::text::{occurs_at, push_text, split_once};
use axum::http::HeaderValue;
use vstd::prelude::*;
use vstd::string::StringSliceAdditionalSpecFns;

verus! {

#[verifier::external_type_specification]
#[verifier::external_body]
pub struct ExHeaderValue(HeaderValue);

/// Why a request was answered with an error instead of the application.
#[derive(Debug, Clone, PartialEq, Eq)]
pub enum RequestError {
    /// An authority-form target (`CONNECT host:port`) names no page to render.
    NoPath { target: String },
    /// A route handler got a request that axum did not route to it by path.
    NoMatchedPath,
    /// A route handler got a request for the route `path`, which is not in its route list.
    UnknownRoute { path: String },
    /// A redirect to `location`, which is not a valid `Location` header value.
    InvalidRedirect { location: String },
    /// The content type `content_type` is not a valid header value.
    InvalidContentType { content_type: String },
}

impl RequestError {
    /// The status the request is answered with: 400 (Bad Request) for a request with no
    /// path, 500 (Internal Server Error) for the others.
    pub fn status(&self) -> (code: u16)
        ensures
            code == if self is NoPath {
                400u16
            } else {
                500u16
            },
    {
        match self {
            RequestError::NoPath { .. } => 400,
            _ => 500,
        }
    }
}

/// The body of an error response: the status's reason and, if the request has one, its
/// request id, so that the error can be found in the log.
pub open spec fn error_body_text(reason: Seq<char>, request_id: Option<Seq<char>>) -> Seq<char> {
    match request_id {
        Some(id) => reason + " (request id "@ + id + ")\n"@,
        None => reason + "\n"@,
    }
}

/// The body of an error response.
pub fn error_body(reason: &str, request_id: Option<&str>) -> (body: String)
    ensures
        body@ == error_body_text(
            reason@,
            match request_id {
                Some(id) => Some(id@),
                None => None,
            },
        ),
{
    let mut body = String::new();
    push_text(&mut body, reason);
    match request_id {
        Some(id) => {
            push_text(&mut body, " (request id ");
            push_text(&mut body, id);
            push_text(&mut body, ")\n");
        },
        None => push_text(&mut body, "\n"),
    }
    body
}

/// The index of the first route in `routes` whose path is `matched`.
pub open spec fn route_index(routes: Seq<Seq<char>>, matched: Seq<char>, i: int) -> Option<int>
    decreases routes.len() - i,
{
    if i < 0 || i >= routes.len() {
        None
    } else if routes[i] == matched {
        Some(i)
    } else {
        route_index(routes, matched, i + 1)
    }
}

/// The route of a request among `routes` (their paths), by the path axum matched for it
/// (`matched`, which axum does not give a request that it did not route by path).
pub fn matched_route(routes: &Vec<String>, matched: Option<&str>) -> (route: Result<usize, RequestError>)
    ensures
        match matched {
            None => route == Err::<usize, RequestError>(RequestError::NoMatchedPath),
            Some(path) => match route_index(routes@.map_values(|r: String| r@), path@, 0) {
                Some(i) => route == Ok::<usize, RequestError>(i as usize),
                None => route matches Err(RequestError::UnknownRoute { path: p }) && p@ == path@,
            },
        },
{
    let path = match matched {
        Some(path) => path,
        None => {
            return Err(RequestError::NoMatchedPath);
        },
    };
    let ghost views = routes@.map_values(|r: String| r@);
    let owned = path.to_owned();
    let mut i: usize = 0;
    while i < routes.len()
        invariant
            i <= routes@.len(),
            views == routes@.map_values(|r: String| r@),
            owned@ == path@,
            matched == Some(path),
            route_index(views, path@, i as int) == route_index(views, path@, 0),
        decreases routes.len() - i,
    {
        if routes[i] == owned {
            return Ok(i);
        }
        i += 1;
    }
    Err(RequestError::UnknownRoute { path: owned })
}

/// Whether `bytes` make a valid header value: each is a visible byte (32 and up, but not
/// 127) or a tab.
pub open spec fn header_bytes(bytes: Seq<u8>) -> bool {
    forall|k: int| 0 <= k < bytes.len() ==> (bytes[k] >= 32 && bytes[k] != 127) || bytes[k] == 9
}

/// The bytes of a header value, as `HeaderValue::as_bytes` gives them.
pub uninterp spec fn header_value_bytes(value: HeaderValue) -> Seq<u8>;

/// `HeaderValue::from_str`: the header value of `text`, which exists exactly when each of
/// its bytes is a visible byte or a tab, and holds the bytes of `text`.
#[verifier::external_body]
fn header_value(text: &str) -> (value: Option<HeaderValue>)
    ensures
        value is Some <==> header_bytes(text.spec_bytes()),
        value matches Some(v) ==> header_value_bytes(v) == text.spec_bytes(),
{
    HeaderValue::from_str(text).ok()
}

/// The default content type `content_type` as a header value, or the error it is logged
/// with (the response then goes without one).
pub fn content_type_header(content_type: &str) -> (header: Result<HeaderValue, RequestError>)
    ensures
        header is Ok <==> header_bytes(content_type.spec_bytes()),
        header matches Ok(v) ==> header_value_bytes(v) == content_type.spec_bytes(),
        header matches Err(e) ==> e matches RequestError::InvalidContentType { content_type: c } && c@ == content_type@,
{
    match header_value(content_type) {
        Some(value) => Ok(value),
        None => Err(RequestError::InvalidContentType { content_type: content_type.to_owned() }),
    }
}

/// Whether `accept` mentions `text/html`.
pub open spec fn mentions_html(accept: Seq<char>) -> bool {
    exists|j: int| #[trigger] occurs_at(accept, "text/html"@, j)
}

/// Whether an `Accept` header asks for HTML: it mentions `text/html`.
pub open spec fn asks_for_html(accept: Option<Seq<char>>) -> bool {
    match accept {
        Some(a) => mentions_html(a),
        None => false,
    }
}

/// Whether the `Accept` header `accept` (if the request has a readable one) asks for HTML.
pub fn accepts_html(accept: Option<&str>) -> (html: bool)
    ensures
        html == asks_for_html(
            match accept {
                Some(a) => Some(a@),
                None => None,
            },
        ),
{
    match accept {
        Some(a) => match split_once(a, "text/html") {
            Some((before, after)) => {
                let ghost pat = "text/html"@;
                assert(a@ == before@ + pat + after@);
                assert(a@.subrange(before@.len() as int, before@.len() + pat.len() as int) =~= pat);
                assert(occurs_at(a@, pat, before@.len() as int));
                assert(occurs_at(a@, "text/html"@, before@.len() as int));
                true
            },
            None => {
                false
            },
        },
        None => false,
    }
}

/// A redirect that can be made: the `Location` header, and whether the status is set to
/// 302 (Found), as it is for a request that asks for HTML (a navigation or a plain form).
#[derive(Debug)]
pub struct Redirect {
    pub location: HeaderValue,
    pub found: bool,
}

/// The redirect to `path` for a request whose `Accept` header is `accept`; or, where `path`
/// cannot be a header value (a control character such as CR or LF would start another
/// header), the error it is refused with (the response then gets the status 500 and no
/// `Location`).
pub fn redirect_to(path: &str, accept: Option<&str>) -> (redirect: Result<Redirect, RequestError>)
    ensures
        redirect is Ok <==> header_bytes(path.spec_bytes()),
        redirect matches Ok(r) ==> header_value_bytes(r.location) == path.spec_bytes(),
        redirect matches Ok(r) ==> r.found == asks_for_html(
            match accept {
                Some(a) => Some(a@),
                None => None,
            },
        ),
        redirect matches Err(e) ==> e matches RequestError::InvalidRedirect { location } && location@ == path@,
{
    match header_value(path) {
        Some(location) => Ok(Redirect { location, found: accepts_html(accept) }),
        None => Err(RequestError::InvalidRedirect { location: path.to_owned() }),
    }
}

} // verus!
