//! HTTP requests over a message connection: the message format and the forwarding rules.
//!
//! A client without a way to the HTTP API packs its request into a rendezvous message. This
//! library reads the request, decides whether and how it is forwarded, and packs the answer.
//! Talking to the API is the caller's part.
//!
//! - [`wire`]: the protobuf wire format
//! - [`message`]: the request and response messages
//! - [`policy`]: which methods, paths and headers are forwarded
//! - [`headers`]: the headers that go along and those that come back
//! - [`forward`]: what is decided before a request is sent and after it was answered
//! - [`text`]: the string operations that these need
//! - [`laws`]: what holds of all of this together
//! - [`layout_laws`]: byte by byte and field by field, what is written and read
//! - [`rule_laws`]: case by case, what is forwarded and what comes back

pub mod forward;
pub mod headers;
pub mod laws;
pub mod layout_laws;
pub mod message;
pub mod policy;
pub mod rule_laws;
pub mod text;
pub mod wire;

pub use message::{encode_response_frame, parse_request_frame, ProxyRequest, ProxyResponse};
