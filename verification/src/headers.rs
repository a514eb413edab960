//! HTTP headers: which ones a request takes along, and how those of a response become text.

use crate::message::header_texts;
use crate::policy::{
    is_stripped_request_header, is_stripped_response_header, stripped_request_header,
    stripped_response_header,
};
use crate::text::lowercase;
use vstd::prelude::*;
use vstd::utf8::{decode_utf8, encode_utf8, valid_utf8};

verus! {

/// The characters of an HTTP token.
pub open spec fn is_token_char(c: char) -> bool {
    ||| 'a' <= c && c <= 'z'
    ||| 'A' <= c && c <= 'Z'
    ||| '0' <= c && c <= '9'
    ||| c == '!' || c == '#' || c == '$' || c == '%' || c == '&' || c == '\'' || c == '*'
    ||| c == '+' || c == '-' || c == '.' || c == '^' || c == '_' || c == '`' || c == '|'
    ||| c == '~'
}

/// The names that an HTTP header can have.
pub open spec fn valid_header_name(name: Seq<char>) -> bool {
    &&& 1 <= name.len() <= 65535
    &&& forall|i: int| 0 <= i < name.len() ==> is_token_char(#[trigger] name[i])
}

/// The values that an HTTP header can be given: no control characters of ASCII but the tab.
pub open spec fn valid_header_value(value: Seq<char>) -> bool {
    forall|i: int|
        0 <= i < value.len() ==> {
            ||| #[trigger] value[i] == '\t'
            ||| (value[i] as u32) >= 0x20 && (value[i] as u32) != 0x7f
        }
}

/// `reqwest::header::HeaderName::from_bytes`, then `as_str`: a name is accepted exactly when it
/// is a token of at most 65535 characters, and comes back in small letters.
#[verifier::external_body]
fn header_name(name: &str) -> (r: Option<String>)
    ensures
        r is Some <==> valid_header_name(name@),
        r matches Some(n) ==> n@ == lowercase(name@),
{
    match reqwest::header::HeaderName::from_bytes(name.as_bytes()) {
        Ok(n) => Some(n.as_str().to_owned()),
        Err(_) => None,
    }
}

/// `reqwest::header::HeaderValue::from_str`, then `as_bytes`: a value is accepted exactly when
/// no byte of it is below 32 (but for the tab) or 127, and holds the bytes of the text.
#[verifier::external_body]
fn header_value(value: &str) -> (r: Option<Vec<u8>>)
    ensures
        r is Some <==> valid_header_value(value@),
        r matches Some(bytes) ==> bytes@ == encode_utf8(value@),
{
    match reqwest::header::HeaderValue::from_str(value) {
        Ok(v) => Some(v.as_bytes().to_vec()),
        Err(_) => None,
    }
}

/// The text that `String::from_utf8_lossy` makes of `bytes`.
pub uninterp spec fn lossy_text(bytes: Seq<u8>) -> Seq<char>;

/// `String::from_utf8_lossy`: valid UTF-8 gives the text that it encodes, and other bytes give a
/// text with a replacement character in it. How many of them stand where is left open.
#[verifier::external_body]
fn from_utf8_lossy(bytes: &[u8]) -> (r: String)
    ensures
        r@ == lossy_text(bytes@),
        valid_utf8(bytes@) ==> r@ == decode_utf8(bytes@),
        !valid_utf8(bytes@) ==> r@.contains('\u{fffd}'),
{
    String::from_utf8_lossy(bytes).to_string()
}

/// The names and value bytes of a list of headers.
pub open spec fn raw_headers(headers: Seq<(String, Vec<u8>)>) -> Seq<(Seq<char>, Seq<u8>)> {
    headers.map_values(|h: (String, Vec<u8>)| (h.0@, h.1@))
}

/// Whether a forwarded request takes a header along.
pub open spec fn forwarded_header(name: Seq<char>, value: Seq<char>) -> bool {
    &&& !stripped_request_header(name)
    &&& valid_header_name(name)
    &&& valid_header_value(value)
}

/// The headers that a forwarded request takes along, in order, with their names in small letters.
pub open spec fn forwarded_headers(headers: Seq<(Seq<char>, Seq<char>)>) -> Seq<
    (Seq<char>, Seq<u8>),
> {
    headers.filter(|h: (Seq<char>, Seq<char>)| forwarded_header(h.0, h.1)).map_values(
        |h: (Seq<char>, Seq<char>)| (lowercase(h.0), encode_utf8(h.1)),
    )
}

/// The text of a header value that came back.
pub open spec fn value_text(bytes: Seq<u8>) -> Seq<char> {
    if valid_utf8(bytes) {
        decode_utf8(bytes)
    } else {
        lossy_text(bytes)
    }
}

/// Headers with their values as text.
pub open spec fn text_headers(headers: Seq<(Seq<char>, Seq<u8>)>) -> Seq<(Seq<char>, Seq<char>)> {
    headers.map_values(|h: (Seq<char>, Seq<u8>)| (h.0, value_text(h.1)))
}

/// The headers that an answer keeps, in order.
pub open spec fn kept_headers(headers: Seq<(Seq<char>, Seq<char>)>) -> Seq<(Seq<char>, Seq<char>)> {
    headers.filter(|h: (Seq<char>, Seq<char>)| !stripped_response_header(h.0))
}

/// Picks the headers that a forwarded request takes along.
pub fn request_headers(headers: &Vec<(String, String)>) -> (r: Vec<(String, Vec<u8>)>)
    ensures
        raw_headers(r@) == forwarded_headers(header_texts(headers@)),
{
    let ghost texts = header_texts(headers@);
    let mut kept: Vec<(String, Vec<u8>)> = Vec::new();
    let mut i: usize = 0;
    proof {
        reveal(Seq::filter);
        assert(texts.take(0) =~= Seq::empty());
        assert(raw_headers(kept@) =~= forwarded_headers(texts.take(0)));
    }
    while i < headers.len()
        invariant
            i <= headers@.len(),
            texts == header_texts(headers@),
            raw_headers(kept@) == forwarded_headers(texts.take(i as int)),
        decreases headers@.len() - i,
    {
        let name = headers[i].0.as_str();
        let value = headers[i].1.as_str();
        proof {
            lemma_forwarded_headers_step(texts, i as int);
        }
        if !is_stripped_request_header(name) {
            if let (Some(n), Some(v)) = (header_name(name), header_value(value)) {
                let ghost before = kept@;
                kept.push((n, v));
                assert(raw_headers(kept@) =~= raw_headers(before).push((n@, v@)));
            }
        }
        i += 1;
    }
    assert(texts.take(i as int) =~= texts);
    kept
}

/// Whether a header that is not to be left out has a name or value that HTTP does not allow.
pub open spec fn dropped_header(name: Seq<char>, value: Seq<char>) -> bool {
    !stripped_request_header(name) && !forwarded_header(name, value)
}

/// The names of the headers that a forwarded request cannot take along, in order.
pub open spec fn dropped_names(headers: Seq<(Seq<char>, Seq<char>)>) -> Seq<Seq<char>> {
    headers.filter(|h: (Seq<char>, Seq<char>)| dropped_header(h.0, h.1)).map_values(
        |h: (Seq<char>, Seq<char>)| h.0,
    )
}

/// Lists the names of the headers that a forwarded request cannot take along because HTTP does
/// not allow them.
pub fn dropped_headers(headers: &Vec<(String, String)>) -> (r: Vec<String>)
    ensures
        r@.map_values(|n: String| n@) == dropped_names(header_texts(headers@)),
{
    let ghost texts = header_texts(headers@);
    let mut names: Vec<String> = Vec::new();
    let mut i: usize = 0;
    proof {
        reveal(Seq::filter);
        assert(texts.take(0) =~= Seq::empty());
        assert(names@.map_values(|n: String| n@) =~= dropped_names(texts.take(0)));
    }
    while i < headers.len()
        invariant
            i <= headers@.len(),
            texts == header_texts(headers@),
            names@.map_values(|n: String| n@) == dropped_names(texts.take(i as int)),
        decreases headers@.len() - i,
    {
        let name = headers[i].0.as_str();
        let value = headers[i].1.as_str();
        proof {
            lemma_dropped_names_step(texts, i as int);
        }
        if !is_stripped_request_header(name) {
            if header_name(name).is_none() || header_value(value).is_none() {
                let ghost before = names@;
                names.push(headers[i].0.clone());
                assert(names@.map_values(|n: String| n@) =~= before.map_values(
                    |n: String| n@,
                ).push(name@));
            }
        }
        i += 1;
    }
    assert(texts.take(i as int) =~= texts);
    names
}

proof fn lemma_dropped_names_step(headers: Seq<(Seq<char>, Seq<char>)>, i: int)
    requires
        0 <= i < headers.len(),
    ensures
        dropped_names(headers.take(i + 1)) == if dropped_header(headers[i].0, headers[i].1) {
            dropped_names(headers.take(i)).push(headers[i].0)
        } else {
            dropped_names(headers.take(i))
        },
{
    reveal(Seq::filter);
    assert(headers.take(i + 1).drop_last() =~= headers.take(i));
    if dropped_header(headers[i].0, headers[i].1) {
        assert(dropped_names(headers.take(i + 1)) =~= dropped_names(headers.take(i)).push(
            headers[i].0,
        ));
    }
}

proof fn lemma_forwarded_headers_step(headers: Seq<(Seq<char>, Seq<char>)>, i: int)
    requires
        0 <= i < headers.len(),
    ensures
        forwarded_headers(headers.take(i + 1)) == if forwarded_header(headers[i].0, headers[i].1) {
            forwarded_headers(headers.take(i)).push(
                (lowercase(headers[i].0), encode_utf8(headers[i].1)),
            )
        } else {
            forwarded_headers(headers.take(i))
        },
{
    reveal(Seq::filter);
    assert(headers.take(i + 1).drop_last() =~= headers.take(i));
    if forwarded_header(headers[i].0, headers[i].1) {
        assert(forwarded_headers(headers.take(i + 1)) =~= forwarded_headers(headers.take(i)).push(
            (lowercase(headers[i].0), encode_utf8(headers[i].1)),
        ));
    }
}

/// Turns the values of response headers into text.
pub fn response_texts(headers: &Vec<(String, Vec<u8>)>) -> (r: Vec<(String, String)>)
    ensures
        header_texts(r@) == text_headers(raw_headers(headers@)),
        forall|i: int|
            0 <= i < headers@.len() && !valid_utf8(headers@[i].1@) ==> (#[trigger]
            r@[i]).1@.contains('\u{fffd}'),
{
    let mut texts: Vec<(String, String)> = Vec::new();
    let mut i: usize = 0;
    while i < headers.len()
        invariant
            i <= headers@.len(),
            texts@.len() == i,
            forall|j: int|
                0 <= j < i ==> (#[trigger] texts@[j]).0@ == headers@[j].0@ && texts@[j].1@
                    == value_text(headers@[j].1@),
            forall|j: int|
                0 <= j < i && !valid_utf8(headers@[j].1@) ==> (#[trigger]
                texts@[j]).1@.contains('\u{fffd}'),
        decreases headers@.len() - i,
    {
        let value = from_utf8_lossy(headers[i].1.as_slice());
        texts.push((headers[i].0.clone(), value));
        i += 1;
    }
    assert(header_texts(texts@) =~= text_headers(raw_headers(headers@)));
    texts
}

/// Leaves out the response headers that an answer does not keep.
pub fn keep_headers(headers: &Vec<(String, String)>) -> (r: Vec<(String, String)>)
    ensures
        header_texts(r@) == kept_headers(header_texts(headers@)),
{
    let ghost texts = header_texts(headers@);
    let ghost keep = |h: (Seq<char>, Seq<char>)| !stripped_response_header(h.0);
    let mut kept: Vec<(String, String)> = Vec::new();
    let mut i: usize = 0;
    reveal(Seq::filter);
    assert(texts.take(0) =~= Seq::empty());
    assert(header_texts(kept@) =~= texts.take(0).filter(keep));
    while i < headers.len()
        invariant
            i <= headers@.len(),
            texts == header_texts(headers@),
            keep == (|h: (Seq<char>, Seq<char>)| !stripped_response_header(h.0)),
            header_texts(kept@) == texts.take(i as int).filter(keep),
        decreases headers@.len() - i,
    {
        proof {
            reveal(Seq::filter);
            assert(texts.take(i + 1).drop_last() =~= texts.take(i as int));
        }
        if !is_stripped_response_header(headers[i].0.as_str()) {
            let ghost before = kept@;
            kept.push((headers[i].0.clone(), headers[i].1.clone()));
            assert(header_texts(kept@) =~= header_texts(
                before,
            ).push(texts[i as int]));
        }
        i += 1;
    }
    assert(texts.take(i as int) =~= texts);
    kept
}

} // verus!
