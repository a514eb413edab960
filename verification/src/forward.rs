//! Forwarding a request to the HTTP API: what is decided before the request is sent and after
//! the API has answered. Sending it is left to the caller.

use crate::headers::{
    forwarded_headers, keep_headers, kept_headers, raw_headers, request_headers, response_texts,
    text_headers,
};
use crate::message::{failure, header_texts, ProxyRequest, ProxyResponse, ResponseView};
use crate::policy::{allowed_method, allowed_path, is_allowed_method, path_allowed};
use crate::text::{same_text, trim_end_slashes, trim_slashes};
use vstd::prelude::*;
use vstd::string::StringExecFns;

verus! {

/// The largest response body that is passed on, in bytes.
pub const MAX_RESPONSE_BYTES: u64 = 16 * 1024 * 1024;

/// Why a request is not forwarded or its response not passed on.
pub enum ForwardError {
    /// The method is not among those that are forwarded.
    MethodNotAllowed(String),
    /// The path is not among those that are forwarded.
    PathNotAllowed,
    /// The response body is larger than `MAX_RESPONSE_BYTES`.
    ResponseTooLarge,
}

/// What a client is told about a method that is not forwarded.
pub open spec fn method_refusal(method: Seq<char>) -> Seq<char> {
    "method not allowed: "@ + method
}

impl ForwardError {
    /// What a client is told.
    pub open spec fn text(self) -> Seq<char> {
        match self {
            ForwardError::MethodNotAllowed(method) => method_refusal(method@),
            ForwardError::PathNotAllowed => "path not allowed"@,
            ForwardError::ResponseTooLarge => "response too large"@,
        }
    }

    /// What a client is told.
    pub fn message(&self) -> (r: String)
        ensures
            r@ == self.text(),
    {
        match self {
            ForwardError::MethodNotAllowed(method) => {
                let mut text = "method not allowed: ".to_owned();
                text.append(method.as_str());
                text
            },
            ForwardError::PathNotAllowed => "path not allowed".to_owned(),
            ForwardError::ResponseTooLarge => "response too large".to_owned(),
        }
    }
}

/// The HTTP methods that are forwarded.
#[derive(Clone, Copy, Debug, PartialEq, Eq, Structural)]
pub enum HttpMethod {
    Get,
    Post,
    Put,
    Delete,
}

impl HttpMethod {
    /// The name of a method.
    pub open spec fn name(self) -> Seq<char> {
        match self {
            HttpMethod::Get => "GET"@,
            HttpMethod::Post => "POST"@,
            HttpMethod::Put => "PUT"@,
            HttpMethod::Delete => "DELETE"@,
        }
    }
}

/// A request as it goes to the HTTP API.
pub struct OutgoingRequest {
    pub method: HttpMethod,
    pub headers: Vec<(String, Vec<u8>)>,
    pub body: Option<Vec<u8>>,
}

/// What to do with a request.
pub enum ForwardPlan {
    /// Answer it at once.
    Reply(ProxyResponse),
    /// Send it to the API.
    Send { url: String, request: ProxyRequest },
}

/// The address of the API when none is configured.
pub open spec fn default_base() -> Seq<char> {
    "http://127.0.0.1:21114"@
}

/// The URL that a request for `path` is sent to.
pub open spec fn target_url(base: Seq<char>, path: Seq<char>) -> Seq<char> {
    trim_slashes(base) + path
}

/// Decides what to do with a request, given the configured address of the API.
pub fn plan_forward(req: ProxyRequest, base: Option<String>) -> (r: ForwardPlan)
    ensures
        if !allowed_method(req@.method) {
            r matches ForwardPlan::Reply(resp) && resp@ == failure(method_refusal(req@.method))
        } else if !allowed_path(req@.path) {
            r matches ForwardPlan::Reply(resp) && resp@ == failure("path not allowed"@)
        } else {
            &&& r matches ForwardPlan::Send { url, request }
            &&& request == req
            &&& url@ == target_url(
                match base {
                    Some(base) => base@,
                    None => default_base(),
                },
                req@.path,
            )
        },
{
    if !is_allowed_method(req.method.as_str()) {
        let err = ForwardError::MethodNotAllowed(req.method);
        return ForwardPlan::Reply(ProxyResponse::failed(err.message().as_str()));
    }
    if !path_allowed(req.path.as_str()) {
        let err = ForwardError::PathNotAllowed;
        return ForwardPlan::Reply(ProxyResponse::failed(err.message().as_str()));
    }
    let base = match base {
        Some(base) => base,
        None => "http://127.0.0.1:21114".to_owned(),
    };
    let mut url = trim_end_slashes(base.as_str()).to_owned();
    url.append(req.path.as_str());
    ForwardPlan::Send { url, request: req }
}

/// Finds the method with the given name.
pub fn find_method(name: &str) -> (r: Option<HttpMethod>)
    ensures
        r is Some <==> allowed_method(name@),
        r matches Some(method) ==> method.name() == name@,
{
    if same_text(name, "GET") {
        Some(HttpMethod::Get)
    } else if same_text(name, "POST") {
        Some(HttpMethod::Post)
    } else if same_text(name, "PUT") {
        Some(HttpMethod::Put)
    } else if same_text(name, "DELETE") {
        Some(HttpMethod::Delete)
    } else {
        None
    }
}

/// Turns a request into the one that goes to the API. An empty body is not sent.
pub fn prepare_request(req: ProxyRequest) -> (r: Result<OutgoingRequest, ForwardError>)
    ensures
        if allowed_method(req@.method) {
            &&& r matches Ok(out)
            &&& out.method.name() == req@.method
            &&& raw_headers(out.headers@) == forwarded_headers(req@.headers)
            &&& out.body == if req@.body.len() == 0 {
                None
            } else {
                Some(req.body)
            }
        } else {
            r matches Err(err) && err == ForwardError::MethodNotAllowed(req.method)
        },
{
    let method = match find_method(req.method.as_str()) {
        Some(method) => method,
        None => return Err(ForwardError::MethodNotAllowed(req.method)),
    };
    let headers = request_headers(&req.headers);
    let body = if req.body.is_empty() {
        None
    } else {
        Some(req.body)
    };
    Ok(OutgoingRequest { method, headers, body })
}

/// Turns what the API answered into a response, once its header values are text.
pub fn relay_response(
    status: u16,
    headers: &Vec<(String, String)>,
    body: Vec<u8>,
) -> (r: Result<ProxyResponse, ForwardError>)
    ensures
        if body@.len() > MAX_RESPONSE_BYTES {
            r matches Err(err) && err is ResponseTooLarge
        } else {
            &&& r matches Ok(resp)
            &&& resp@ == (ResponseView {
                status: status as i32,
                headers: kept_headers(header_texts(headers@)),
                body: body@,
                error: Seq::empty(),
            })
        },
{
    let headers = keep_headers(headers);
    if body.len() as u64 > MAX_RESPONSE_BYTES {
        return Err(ForwardError::ResponseTooLarge);
    }
    Ok(ProxyResponse { status: status as i32, headers, body, error: String::new() })
}

/// Turns what the API answered into a response.
pub fn receive_response(
    status: u16,
    headers: &Vec<(String, Vec<u8>)>,
    body: Vec<u8>,
) -> (r: Result<ProxyResponse, ForwardError>)
    ensures
        if body@.len() > MAX_RESPONSE_BYTES {
            r matches Err(err) && err is ResponseTooLarge
        } else {
            &&& r matches Ok(resp)
            &&& resp@ == (ResponseView {
                status: status as i32,
                headers: kept_headers(text_headers(raw_headers(headers@))),
                body: body@,
                error: Seq::empty(),
            })
        },
{
    relay_response(status, &response_texts(headers), body)
}

/// The answer to a request that was sent: the response, or a failure that says what went wrong.
pub fn forward_reply(outcome: Result<ProxyResponse, String>) -> (r: ProxyResponse)
    ensures
        match outcome {
            Ok(resp) => r == resp,
            Err(err) => r@ == failure(err@),
        },
{
    match outcome {
        Ok(resp) => resp,
        Err(err) => ProxyResponse::failed(err.as_str()),
    }
}

} // verus!
