//! What is forwarded and what comes back, case by case.

use crate::forward::{
    default_base, method_refusal, target_url, ForwardError, HttpMethod, MAX_RESPONSE_BYTES,
};
use crate::headers::{
    dropped_header, dropped_names, forwarded_header, forwarded_headers, is_token_char,
    kept_headers, lossy_text, raw_headers, text_headers, valid_header_name, valid_header_value,
};
use crate::laws::law_base_slash;
use crate::message::{MAX_HEADERS, MAX_REQUEST_FRAME};
use crate::policy::{
    allowed_method, allowed_path, dots_at, stripped_request_header, stripped_response_header,
    MAX_PATH_LEN,
};
use crate::text::{control_char, lowercase, trim_slashes};
use vstd::prelude::*;
use vstd::utf8::{
    decode_utf8, encode_utf8, encode_utf8_decode_utf8, encode_utf8_valid_utf8, valid_utf8,
};

verus! {

/// Turning a text into small letters moves each ASCII capital 32 places up and leaves every other
/// character in its place.
pub proof fn law_lowercase(s: Seq<char>)
    ensures
        lowercase(s).len() == s.len(),
        forall|i: int|
            0 <= i < s.len() ==> (#[trigger] lowercase(s)[i]) as u32 == if 65 <= (s[i] as u32)
                && (s[i] as u32) <= 90 {
                (s[i] as u32) + 32
            } else {
                (s[i] as u32) as int
            },
{
}

/// The control characters are the codes up to 31 and those from 127 to 159.
pub proof fn law_control_char(c: char)
    ensures
        control_char(c) <==> (c as u32) < 32 || (127 <= (c as u32) && (c as u32) < 160),
{
}

/// A text that does not end in a slash is left as it is, and a slash at the end of any text goes.
pub proof fn law_trim_slashes(s: Seq<char>)
    ensures
        s.len() == 0 || s.last() != '/' ==> trim_slashes(s) == s,
        trim_slashes(s.push('/')) == trim_slashes(s),
{
    assert(s.push('/').drop_last() =~= s);
}

/// The URL of a request is the configured address, less any slashes at its end, followed by the
/// whole path.
pub proof fn law_target_url(base: Seq<char>, path: Seq<char>)
    ensures
        base.len() == 0 || base.last() != '/' ==> target_url(base, path) == base + path,
        target_url(base.push('/'), path) == target_url(base, path),
{
    law_base_slash(base, path);
}

/// The address that is used when none is configured.
pub proof fn law_default_base()
    ensures
        default_base() == "http://127.0.0.1:21114"@,
{
}

/// The limits: a message has at most 2 MiB and a request in it at most 64 headers, a path has at
/// most 4096 bytes and a response body at most 16 MiB.
pub proof fn law_limits(len: nat)
    ensures
        len > MAX_REQUEST_FRAME <==> len >= 2097153,
        len > MAX_HEADERS <==> len >= 65,
        len > MAX_PATH_LEN <==> len >= 4097,
        len > MAX_RESPONSE_BYTES <==> len >= 16777217,
{
}

/// What a client is told when its request is not forwarded or the response not passed on.
pub proof fn law_refusals(method: String, name: Seq<char>)
    ensures
        method_refusal(name) == "method not allowed: "@ + name,
        ForwardError::MethodNotAllowed(method).text() == "method not allowed: "@ + method@,
        ForwardError::PathNotAllowed.text() == "path not allowed"@,
        ForwardError::ResponseTooLarge.text() == "response too large"@,
{
}

/// A method is forwarded exactly when it is the name of one of the four methods, and each of them
/// has its own name.
pub proof fn law_methods(name: Seq<char>)
    ensures
        allowed_method(name) <==> exists|method: HttpMethod| #[trigger] method.name() == name,
        HttpMethod::Get.name() == seq!['G', 'E', 'T'],
        HttpMethod::Post.name() == seq!['P', 'O', 'S', 'T'],
        HttpMethod::Put.name() == seq!['P', 'U', 'T'],
        HttpMethod::Delete.name() == seq!['D', 'E', 'L', 'E', 'T', 'E'],
{
    reveal_strlit("GET");
    reveal_strlit("POST");
    reveal_strlit("PUT");
    reveal_strlit("DELETE");
    assert("GET"@ =~= seq!['G', 'E', 'T']);
    assert("POST"@ =~= seq!['P', 'O', 'S', 'T']);
    assert("PUT"@ =~= seq!['P', 'U', 'T']);
    assert("DELETE"@ =~= seq!['D', 'E', 'L', 'E', 'T', 'E']);
    if allowed_method(name) {
        assert(HttpMethod::Get.name() == name || HttpMethod::Post.name() == name
            || HttpMethod::Put.name() == name || HttpMethod::Delete.name() == name);
    }
}

/// A path is forwarded exactly when it starts with `/api/`, has at most 4096 bytes, has no two
/// dots in a row, and holds neither a backslash nor a control character.
pub proof fn law_allowed_path(path: Seq<char>)
    ensures
        allowed_path(path) <==> {
            &&& path.len() >= 5
            &&& path[0] == '/' && path[1] == 'a' && path[2] == 'p' && path[3] == 'i' && path[4]
                == '/'
            &&& encode_utf8(path).len() <= 4096
            &&& !(exists|i: int|
                0 <= i && i + 1 < path.len() && #[trigger] path[i] == '.' && path[i + 1] == '.')
            &&& !(exists|i: int|
                0 <= i < path.len() && (#[trigger] path[i] == '\\' || control_char(path[i])))
        },
{
    reveal_strlit("/api/");
    let prefix = "/api/"@;
    assert(prefix.len() == 5);
    if path.len() >= 5 {
        let head = path.subrange(0, 5);
        if prefix.is_prefix_of(path) {
            assert(head[0] == prefix[0] && head[1] == prefix[1] && head[2] == prefix[2] && head[3]
                == prefix[3] && head[4] == prefix[4]);
        }
        if path[0] == '/' && path[1] == 'a' && path[2] == 'p' && path[3] == 'i' && path[4] == '/' {
            assert(prefix =~= head);
        }
    }
    if exists|i: int|
        0 <= i && i + 1 < path.len() && #[trigger] path[i] == '.' && path[i + 1] == '.' {
        let i = choose|i: int|
            0 <= i && i + 1 < path.len() && #[trigger] path[i] == '.' && path[i + 1] == '.';
        assert(dots_at(path, i));
    }
}

/// No path with two dots in a row, a backslash or a control character is forwarded, wherever they
/// stand in it.
pub proof fn law_path_refused(before: Seq<char>, c: char, after: Seq<char>)
    ensures
        !allowed_path(before + seq!['.', '.'] + after),
        (c as u32) == 92 || (c as u32) < 32 || (127 <= (c as u32) && (c as u32) < 160)
            ==> !allowed_path(before + seq![c] + after),
{
    let dots = before + seq!['.', '.'] + after;
    law_allowed_path(dots);
    let at = before.len() as int;
    assert(dots[at] == '.' && dots[at + 1] == '.');
    let bad = before + seq![c] + after;
    law_allowed_path(bad);
    assert(bad[at] == c);
}

/// A request header is left out exactly when its name, in any case, is one of these.
pub proof fn law_stripped_request_header(name: Seq<char>)
    ensures
        stripped_request_header(name) <==> seq![
            "connection"@,
            "keep-alive"@,
            "proxy-authenticate"@,
            "proxy-authorization"@,
            "proxy-connection"@,
            "te"@,
            "trailer"@,
            "trailers"@,
            "transfer-encoding"@,
            "upgrade"@,
            "host"@,
            "content-length"@,
        ].contains(lowercase(name)),
{
    let names = seq![
        "connection"@,
        "keep-alive"@,
        "proxy-authenticate"@,
        "proxy-authorization"@,
        "proxy-connection"@,
        "te"@,
        "trailer"@,
        "trailers"@,
        "transfer-encoding"@,
        "upgrade"@,
        "host"@,
        "content-length"@,
    ];
    assert(names.len() == 12);
    assert(names[0] == "connection"@);
    assert(names[1] == "keep-alive"@);
    assert(names[2] == "proxy-authenticate"@);
    assert(names[3] == "proxy-authorization"@);
    assert(names[4] == "proxy-connection"@);
    assert(names[5] == "te"@);
    assert(names[6] == "trailer"@);
    assert(names[7] == "trailers"@);
    assert(names[8] == "transfer-encoding"@);
    assert(names[9] == "upgrade"@);
    assert(names[10] == "host"@);
    assert(names[11] == "content-length"@);
}

/// A response header is left out for the same names as a request header, but for
/// `proxy-connection` and `host`, and for `content-encoding` as well.
pub proof fn law_stripped_response_header(name: Seq<char>)
    ensures
        stripped_response_header(name) <==> {
            ||| lowercase(name) == "content-encoding"@
            ||| stripped_request_header(name) && lowercase(name) != "proxy-connection"@
                && lowercase(name) != "host"@
        },
{
    reveal_strlit("connection");
    reveal_strlit("keep-alive");
    reveal_strlit("proxy-authenticate");
    reveal_strlit("proxy-authorization");
    reveal_strlit("proxy-connection");
    reveal_strlit("te");
    reveal_strlit("trailer");
    reveal_strlit("trailers");
    reveal_strlit("transfer-encoding");
    reveal_strlit("upgrade");
    reveal_strlit("host");
    reveal_strlit("content-length");
    assert("proxy-connection"@.len() == 16 && "host"@.len() == 4);
    assert("connection"@.len() == 10 && "keep-alive"@.len() == 10);
    assert("proxy-authenticate"@.len() == 18 && "proxy-authorization"@.len() == 19);
    assert("te"@.len() == 2 && "trailer"@.len() == 7 && "trailers"@.len() == 8);
    assert("transfer-encoding"@.len() == 17 && "upgrade"@.len() == 7);
    assert("content-length"@.len() == 14);
}

/// The characters of a header name are the letters and digits of ASCII and a few signs.
pub proof fn law_token_char(c: char)
    ensures
        is_token_char(c) <==> {
            ||| 48 <= (c as u32) <= 57
            ||| 65 <= (c as u32) <= 90
            ||| 94 <= (c as u32) <= 122
            ||| 35 <= (c as u32) <= 39
            ||| (c as u32) == 33 || (c as u32) == 42 || (c as u32) == 43 || (c as u32) == 45
            ||| (c as u32) == 46 || (c as u32) == 124 || (c as u32) == 126
        },
{
}

/// A header name can be sent exactly when it has 1 to 65535 characters, all of them of the kind
/// that a header name may hold.
pub proof fn law_valid_header_name(name: Seq<char>)
    ensures
        valid_header_name(name) <==> 1 <= name.len() && name.len() <= 65535 && !(exists|i: int|
            0 <= i < name.len() && !is_token_char(#[trigger] name[i])),
{
}

/// One more character at the end of a header value leaves it one that can be sent exactly when
/// the character is the tab or its code is at least 32 and not 127. The empty value can be sent.
pub proof fn law_valid_header_value(value: Seq<char>, c: char)
    ensures
        valid_header_value(Seq::empty()),
        valid_header_value(value.push(c)) <==> valid_header_value(value) && ((c as u32) == 9 || (
        (c as u32) >= 32 && (c as u32) != 127)),
{
    let longer = value.push(c);
    assert(longer[value.len() as int] == c);
    if valid_header_value(longer) {
        assert forall|i: int| 0 <= i < value.len() implies {
            ||| #[trigger] value[i] == '\t'
            ||| (value[i] as u32) >= 0x20 && (value[i] as u32) != 0x7f
        } by {
            assert(longer[i] == value[i]);
        }
    }
}

proof fn lemma_filter_push<A>(s: Seq<A>, keep: spec_fn(A) -> bool, x: A)
    ensures
        s.push(x).filter(keep) == if keep(x) {
            s.filter(keep).push(x)
        } else {
            s.filter(keep)
        },
        Seq::<A>::empty().filter(keep) == Seq::<A>::empty(),
{
    reveal(Seq::filter);
    assert(s.push(x).drop_last() =~= s);
}

/// One more header on a request is one more header on the forwarded request, with its name in
/// small letters and the bytes of its value, exactly when it is not to be left out and its name
/// and value can be sent. The headers before it are not affected.
pub proof fn law_forwarded_step(
    headers: Seq<(Seq<char>, Seq<char>)>,
    name: Seq<char>,
    value: Seq<char>,
)
    ensures
        forwarded_headers(Seq::empty()) == Seq::<(Seq<char>, Seq<u8>)>::empty(),
        forwarded_headers(headers.push((name, value))) == if !stripped_request_header(name)
            && valid_header_name(name) && valid_header_value(value) {
            forwarded_headers(headers).push((lowercase(name), encode_utf8(value)))
        } else {
            forwarded_headers(headers)
        },
{
    lemma_filter_push(
        headers,
        |h: (Seq<char>, Seq<char>)| forwarded_header(h.0, h.1),
        (name, value),
    );
    assert(forwarded_headers(Seq::empty()) =~= Seq::<(Seq<char>, Seq<u8>)>::empty());
    if !stripped_request_header(name) && valid_header_name(name) && valid_header_value(value) {
        assert(forwarded_headers(headers.push((name, value))) =~= forwarded_headers(headers).push(
            (lowercase(name), encode_utf8(value)),
        ));
    }
}

/// One more header on a request is reported exactly when it is not to be left out but its name or
/// value cannot be sent.
pub proof fn law_dropped_step(
    headers: Seq<(Seq<char>, Seq<char>)>,
    name: Seq<char>,
    value: Seq<char>,
)
    ensures
        dropped_names(Seq::empty()) == Seq::<Seq<char>>::empty(),
        dropped_names(headers.push((name, value))) == if !stripped_request_header(name) && !(
        valid_header_name(name) && valid_header_value(value)) {
            dropped_names(headers).push(name)
        } else {
            dropped_names(headers)
        },
{
    lemma_filter_push(
        headers,
        |h: (Seq<char>, Seq<char>)| dropped_header(h.0, h.1),
        (name, value),
    );
    assert(dropped_names(Seq::empty()) =~= Seq::<Seq<char>>::empty());
    if !stripped_request_header(name) && !(valid_header_name(name) && valid_header_value(value)) {
        assert(dropped_names(headers.push((name, value))) =~= dropped_names(headers).push(name));
    }
}

/// One more header on a response is one more header on the answer, as it is, exactly when it is
/// not to be left out.
pub proof fn law_kept_step(headers: Seq<(Seq<char>, Seq<char>)>, header: (Seq<char>, Seq<char>))
    ensures
        kept_headers(Seq::empty()) == Seq::<(Seq<char>, Seq<char>)>::empty(),
        kept_headers(headers.push(header)) == if stripped_response_header(header.0) {
            kept_headers(headers)
        } else {
            kept_headers(headers).push(header)
        },
{
    lemma_filter_push(
        headers,
        |h: (Seq<char>, Seq<char>)| !stripped_response_header(h.0),
        header,
    );
}

/// A header value that is UTF-8 comes back as the text that it encodes, whatever its length; the
/// name stays as it is.
pub proof fn law_utf8_value(name: Seq<char>, text: Seq<char>)
    ensures
        text_headers(seq![(name, encode_utf8(text))]) == seq![(name, text)],
{
    encode_utf8_valid_utf8(text);
    encode_utf8_decode_utf8(text);
    assert(text_headers(seq![(name, encode_utf8(text))]) =~= seq![(name, text)]);
}

/// Header values become text one by one: UTF-8 as what it encodes, anything else as the standard
/// library's lossy reading of it.
pub proof fn law_text_headers(headers: Seq<(Seq<char>, Seq<u8>)>, i: int)
    requires
        0 <= i < headers.len(),
    ensures
        text_headers(headers).len() == headers.len(),
        text_headers(headers)[i].0 == headers[i].0,
        valid_utf8(headers[i].1) ==> text_headers(headers)[i].1 == decode_utf8(headers[i].1),
        !valid_utf8(headers[i].1) ==> text_headers(headers)[i].1 == lossy_text(headers[i].1),
{
}

/// The names and bytes of a list of headers are those of each header, in order.
pub proof fn law_raw_headers(headers: Seq<(String, Vec<u8>)>)
    ensures
        raw_headers(headers).len() == headers.len(),
        forall|i: int|
            0 <= i < headers.len() ==> #[trigger] raw_headers(headers)[i] == (
                headers[i].0@,
                headers[i].1@,
            ),
{
}

} // verus!
