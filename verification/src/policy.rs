//! What may be forwarded: the rules on methods, paths and headers.

use crate::text::{
    chars_of, control_char, is_control, is_text, lowercase, lowercase_chars, same_text, starts_with,
};
use vstd::prelude::*;
use vstd::utf8::encode_utf8;

verus! {

/// The longest path that is forwarded, in bytes.
pub const MAX_PATH_LEN: usize = 4 * 1024;

/// The methods that are forwarded.
pub open spec fn allowed_method(method: Seq<char>) -> bool {
    ||| method == "GET"@
    ||| method == "POST"@
    ||| method == "PUT"@
    ||| method == "DELETE"@
}

/// Whether a path has two dots in a row at `i`.
pub open spec fn dots_at(path: Seq<char>, i: int) -> bool {
    path[i] == '.' && path[i + 1] == '.'
}

/// The paths that are forwarded: those below `/api/` that are not too long, do not climb up and
/// hold neither a backslash nor a control character.
pub open spec fn allowed_path(path: Seq<char>) -> bool {
    &&& "/api/"@.is_prefix_of(path)
    &&& encode_utf8(path).len() <= MAX_PATH_LEN
    &&& forall|i: int| 0 <= i < path.len() - 1 ==> !(#[trigger] dots_at(path, i))
    &&& forall|i: int|
        0 <= i < path.len() ==> #[trigger] path[i] != '\\' && !control_char(path[i])
}

/// The request headers that concern only the connection to this server or that are set anew.
/// The name is taken without regard to case.
pub open spec fn stripped_request_header(name: Seq<char>) -> bool {
    let name = lowercase(name);
    ||| name == "connection"@
    ||| name == "keep-alive"@
    ||| name == "proxy-authenticate"@
    ||| name == "proxy-authorization"@
    ||| name == "proxy-connection"@
    ||| name == "te"@
    ||| name == "trailer"@
    ||| name == "trailers"@
    ||| name == "transfer-encoding"@
    ||| name == "upgrade"@
    ||| name == "host"@
    ||| name == "content-length"@
}

/// The response headers that concern only the connection to the API or that no longer fit the
/// body. The name is taken without regard to case.
pub open spec fn stripped_response_header(name: Seq<char>) -> bool {
    let name = lowercase(name);
    ||| name == "connection"@
    ||| name == "keep-alive"@
    ||| name == "proxy-authenticate"@
    ||| name == "proxy-authorization"@
    ||| name == "te"@
    ||| name == "trailer"@
    ||| name == "trailers"@
    ||| name == "transfer-encoding"@
    ||| name == "upgrade"@
    ||| name == "content-length"@
    ||| name == "content-encoding"@
}

/// Whether requests with this method are forwarded.
pub fn is_allowed_method(method: &str) -> (r: bool)
    ensures
        r == allowed_method(method@),
{
    same_text(method, "GET") || same_text(method, "POST") || same_text(method, "PUT")
        || same_text(method, "DELETE")
}

/// Whether requests for this path are forwarded.
pub fn path_allowed(path: &str) -> (r: bool)
    ensures
        r == allowed_path(path@),
{
    let chars = chars_of(path);
    if !starts_with(&chars, "/api/") || path.as_bytes().len() > MAX_PATH_LEN {
        return false;
    }
    let mut i: usize = 0;
    while i < chars.len()
        invariant
            chars@ == path@,
            i <= chars@.len(),
            forall|j: int| 0 <= j < i && j < path@.len() - 1 ==> !(#[trigger] dots_at(path@, j)),
            forall|j: int|
                0 <= j < i ==> #[trigger] path@[j] != '\\' && !control_char(path@[j]),
        decreases chars@.len() - i,
    {
        let c: char = chars[i];
        if c == '\\' || is_control(c) {
            assert(!(path@[i as int] != '\\' && !control_char(path@[i as int])));
            return false;
        }
        if c == '.' && i + 1 < chars.len() && chars[i + 1] == '.' {
            assert(dots_at(path@, i as int));
            return false;
        }
        i += 1;
    }
    true
}

/// Whether a request header is left out of the forwarded request.
pub fn is_stripped_request_header(name: &str) -> (r: bool)
    ensures
        r == stripped_request_header(name@),
{
    let name = lowercase_chars(name);
    is_text(&name, "connection") || is_text(&name, "keep-alive") || is_text(
        &name,
        "proxy-authenticate",
    ) || is_text(&name, "proxy-authorization") || is_text(&name, "proxy-connection") || is_text(
        &name,
        "te",
    ) || is_text(&name, "trailer") || is_text(&name, "trailers") || is_text(
        &name,
        "transfer-encoding",
    ) || is_text(&name, "upgrade") || is_text(&name, "host") || is_text(&name, "content-length")
}

/// Whether a response header is left out of the answer.
pub fn is_stripped_response_header(name: &str) -> (r: bool)
    ensures
        r == stripped_response_header(name@),
{
    let name = lowercase_chars(name);
    is_text(&name, "connection") || is_text(&name, "keep-alive") || is_text(
        &name,
        "proxy-authenticate",
    ) || is_text(&name, "proxy-authorization") || is_text(&name, "te") || is_text(&name, "trailer")
        || is_text(&name, "trailers") || is_text(&name, "transfer-encoding") || is_text(
        &name,
        "upgrade",
    ) || is_text(&name, "content-length") || is_text(&name, "content-encoding")
}

} // verus!
