//! The proxy messages: what a request and a response hold, and how they are laid out.
//!
//! ```text
//! HttpProxyRequest  { string method = 1; string path = 2; repeated HeaderEntry headers = 3; bytes body = 4; }
//! HttpProxyResponse { int32 status = 1; repeated HeaderEntry headers = 2; bytes body = 3; string error = 4; }
//! HeaderEntry       { string name = 1; string value = 2; }
//! ```
//!
//! Both travel inside a rendezvous message, the request as its field 27 and the response as its
//! field 28.

use crate::text::{decode_text, lemma_encoding_empty};
use crate::wire::{
    bytes_field, field_tag, lemma_read_field_len, lemma_read_varint_len, read_field, read_fields,
    read_varint, u64_range, varint_field, write_bytes_field, write_varint, Field, Reader,
};
use vstd::prelude::*;
use vstd::slice::slice_to_vec;
use vstd::utf8::{decode_utf8, encode_utf8, valid_utf8};

verus! {

/// The field of the rendezvous message that carries a request.
pub const HTTP_PROXY_REQUEST_FIELD: u64 = 27;

/// The field of the rendezvous message that carries a response.
pub const HTTP_PROXY_RESPONSE_FIELD: u64 = 28;

/// The longest message in which a request is looked for.
pub const MAX_REQUEST_FRAME: usize = 2 * 1024 * 1024;

/// The most headers that a request may carry.
pub const MAX_HEADERS: usize = 64;

/// An HTTP request that a client wants forwarded.
pub struct ProxyRequest {
    pub method: String,
    pub path: String,
    pub headers: Vec<(String, String)>,
    pub body: Vec<u8>,
}

/// The answer to a request: an HTTP response, or the reason why there is none.
pub struct ProxyResponse {
    pub status: i32,
    pub headers: Vec<(String, String)>,
    pub body: Vec<u8>,
    pub error: String,
}

/// What a request says.
#[verifier::ext_equal]
pub struct RequestView {
    pub method: Seq<char>,
    pub path: Seq<char>,
    pub headers: Seq<(Seq<char>, Seq<char>)>,
    pub body: Seq<u8>,
}

/// What a response says.
#[verifier::ext_equal]
pub struct ResponseView {
    pub status: i32,
    pub headers: Seq<(Seq<char>, Seq<char>)>,
    pub body: Seq<u8>,
    pub error: Seq<char>,
}

/// The names and values of a list of headers.
pub open spec fn header_texts(headers: Seq<(String, String)>) -> Seq<(Seq<char>, Seq<char>)> {
    headers.map_values(|h: (String, String)| (h.0@, h.1@))
}

impl View for ProxyRequest {
    type V = RequestView;

    open spec fn view(&self) -> RequestView {
        RequestView {
            method: self.method@,
            path: self.path@,
            headers: header_texts(self.headers@),
            body: self.body@,
        }
    }
}

impl View for ProxyResponse {
    type V = ResponseView;

    open spec fn view(&self) -> ResponseView {
        ResponseView {
            status: self.status,
            headers: header_texts(self.headers@),
            body: self.body@,
            error: self.error@,
        }
    }
}

/// The response that says nothing but why there is no other.
pub open spec fn failure(error: Seq<char>) -> ResponseView {
    ResponseView { status: 0, headers: Seq::empty(), body: Seq::empty(), error }
}

impl Default for ProxyResponse {
    fn default() -> (r: Self)
        ensures
            r@ == failure(Seq::empty()),
    {
        let r = ProxyResponse {
            status: 0,
            headers: Vec::new(),
            body: Vec::new(),
            error: String::new(),
        };
        assert(r@ =~= failure(Seq::empty()));
        r
    }
}

impl ProxyResponse {
    /// The response that carries only an error.
    pub fn failed(err: &str) -> (r: Self)
        ensures
            r@ == failure(err@),
    {
        let r = ProxyResponse {
            status: 0,
            headers: Vec::new(),
            body: Vec::new(),
            error: err.to_owned(),
        };
        assert(r@ =~= failure(err@));
        r
    }
}

/// Whether `field` is the given length-delimited field.
pub open spec fn is_bytes_field(field: Field, number: u64) -> bool {
    field.number == number && field.value is Bytes
}

/// The values of the length-delimited fields with the given number, in order.
pub open spec fn bytes_values(fields: Seq<Field>, number: u64) -> Seq<Seq<u8>>
    decreases fields.len(),
{
    if fields.len() == 0 {
        Seq::empty()
    } else if is_bytes_field(fields.last(), number) {
        bytes_values(fields.drop_last(), number).push(fields.last().value->Bytes_0)
    } else {
        bytes_values(fields.drop_last(), number)
    }
}

/// The last of `values`, or no bytes when there is none. A field that is not repeated takes the
/// last value given for it.
pub open spec fn last_value(values: Seq<Seq<u8>>) -> Seq<u8> {
    if values.len() == 0 {
        Seq::empty()
    } else {
        values.last()
    }
}

pub open spec fn all_utf8(values: Seq<Seq<u8>>) -> bool {
    forall|i: int| 0 <= i < values.len() ==> #[trigger] valid_utf8(values[i])
}

/// The header entry that `payload` holds. Its texts must be UTF-8.
pub open spec fn read_header_entry(payload: Seq<u8>) -> Option<(Seq<char>, Seq<char>)> {
    match read_fields(payload) {
        Some(fields) => {
            let names = bytes_values(fields, 1);
            let values = bytes_values(fields, 2);
            if all_utf8(names) && all_utf8(values) {
                Some((decode_utf8(last_value(names)), decode_utf8(last_value(values))))
            } else {
                None
            }
        },
        None => None,
    }
}

pub open spec fn all_header_entries(entries: Seq<Seq<u8>>) -> bool {
    forall|i: int| 0 <= i < entries.len() ==> #[trigger] read_header_entry(entries[i]) is Some
}

/// The headers that a list of header entries holds.
pub open spec fn entry_texts(entries: Seq<Seq<u8>>) -> Seq<(Seq<char>, Seq<char>)> {
    entries.map_values(|entry: Seq<u8>| read_header_entry(entry)->0)
}

/// The request that `payload` holds. Its texts must be UTF-8, each header entry must be one, and
/// there may be no more than `MAX_HEADERS` of them.
pub open spec fn read_request(payload: Seq<u8>) -> Option<RequestView> {
    match read_fields(payload) {
        Some(fields) => {
            let methods = bytes_values(fields, 1);
            let paths = bytes_values(fields, 2);
            let entries = bytes_values(fields, 3);
            let bodies = bytes_values(fields, 4);
            if all_utf8(methods) && all_utf8(paths) && all_header_entries(entries) && entries.len()
                <= MAX_HEADERS {
                Some(
                    RequestView {
                        method: decode_utf8(last_value(methods)),
                        path: decode_utf8(last_value(paths)),
                        headers: entry_texts(entries),
                        body: last_value(bodies),
                    },
                )
            } else {
                None
            }
        },
        None => None,
    }
}

/// The payload of the first request field in `s`. Every field before it must be whole and have
/// a number other than zero; what follows it does not matter.
pub open spec fn request_payload(s: Seq<u8>) -> Option<Seq<u8>>
    decreases s.len(),
{
    if s.len() == 0 {
        None
    } else {
        proof {
            lemma_read_field_len(s);
        }
        match read_field(s) {
            Some((field, n)) => if field.number == 0 {
                None
            } else if is_bytes_field(field, HTTP_PROXY_REQUEST_FIELD) {
                Some(field.value->Bytes_0)
            } else {
                request_payload(s.skip(n))
            },
            None => None,
        }
    }
}

/// The request that a rendezvous message carries.
pub open spec fn read_request_frame(bytes: Seq<u8>) -> Option<RequestView> {
    if bytes.len() > MAX_REQUEST_FRAME {
        None
    } else {
        match request_payload(bytes) {
            Some(payload) => read_request(payload),
            None => None,
        }
    }
}

/// `fields` put in front of the fields that `rest` consists of.
spec fn followed_by(fields: Seq<Field>, rest: Seq<u8>) -> Option<Seq<Field>> {
    match read_fields(rest) {
        Some(tail) => Some(fields + tail),
        None => None,
    }
}

proof fn lemma_followed_by_step(fields: Seq<Field>, rest: Seq<u8>)
    requires
        rest.len() > 0,
    ensures
        match read_field(rest) {
            Some((field, n)) => followed_by(fields, rest) == followed_by(
                fields.push(field),
                rest.skip(n),
            ),
            None => followed_by(fields, rest) is None,
        },
{
    if let Some((field, n)) = read_field(rest) {
        if let Some(tail) = read_fields(rest.skip(n)) {
            assert(fields + (seq![field] + tail) =~= fields.push(field) + tail);
        }
    }
}

/// The values in a run of fields are those of its two parts, one after the other.
pub proof fn lemma_bytes_values_concat(a: Seq<Field>, b: Seq<Field>, number: u64)
    ensures
        bytes_values(a + b, number) == bytes_values(a, number) + bytes_values(b, number),
    decreases b.len(),
{
    if b.len() == 0 {
        assert(a + b =~= a);
        assert(bytes_values(a, number) + bytes_values(b, number) =~= bytes_values(a, number));
    } else {
        lemma_bytes_values_concat(a, b.drop_last(), number);
        assert((a + b).drop_last() =~= a + b.drop_last());
        assert(bytes_values(a + b, number) =~= bytes_values(a, number) + bytes_values(b, number));
    }
}

/// The values in a run of fields that grows by one.
pub proof fn lemma_bytes_values_push(fields: Seq<Field>, field: Field, number: u64)
    ensures
        bytes_values(fields.push(field), number) == if is_bytes_field(field, number) {
            bytes_values(fields, number).push(field.value->Bytes_0)
        } else {
            bytes_values(fields, number)
        },
{
    assert(fields.push(field).drop_last() =~= fields);
}

/// What a value in the first part of a run breaks stays broken.
proof fn lemma_followed_by_keeps(fields: Seq<Field>, rest: Seq<u8>, number: u64)
    ensures
        followed_by(fields, rest) matches Some(all) ==> {
            let values = bytes_values(fields, number);
            &&& values.len() <= bytes_values(all, number).len()
            &&& !all_utf8(values) ==> !all_utf8(bytes_values(all, number))
            &&& !all_header_entries(values) ==> !all_header_entries(bytes_values(all, number))
        },
{
    if let Some(tail) = read_fields(rest) {
        lemma_bytes_values_concat(fields, tail, number);
        let values = bytes_values(fields, number);
        let all = bytes_values(fields + tail, number);
        assert forall|i: int| 0 <= i < values.len() implies values[i] == all[i] by {}
        if !all_utf8(values) {
            let i = choose|i: int|
                0 <= i < values.len() && !(#[trigger] valid_utf8(values[i]));
            assert(!valid_utf8(all[i]));
        }
        if !all_header_entries(values) {
            let i = choose|i: int|
                0 <= i < values.len() && !(#[trigger] read_header_entry(values[i]) is Some);
            assert(!(read_header_entry(all[i]) is Some));
        }
    }
}

/// Reads a header entry.
pub fn parse_header_entry(payload: &[u8]) -> (r: Option<(String, String)>)
    ensures
        match read_header_entry(payload@) {
            Some(entry) => r matches Some(h) && (h.0@, h.1@) == entry,
            None => r is None,
        },
{
    let mut name = String::new();
    let mut value = String::new();
    let mut r = Reader::new(payload);
    let ghost mut done = Seq::<Field>::empty();
    proof {
        if let Some(tail) = read_fields(payload@) {
            assert(done + tail =~= tail);
        }
        assert(decode_utf8(Seq::empty()) =~= Seq::<char>::empty());
    }
    while r.pos < r.buf.len()
        invariant
            r.buf@ == payload@,
            r.pos <= r.buf@.len(),
            read_fields(payload@) == followed_by(done, r.rest()),
            all_utf8(bytes_values(done, 1)),
            all_utf8(bytes_values(done, 2)),
            name@ == decode_utf8(last_value(bytes_values(done, 1))),
            value@ == decode_utf8(last_value(bytes_values(done, 2))),
        decreases r.buf@.len() - r.pos,
    {
        let ghost s = r.rest();
        proof {
            lemma_followed_by_step(done, s);
            lemma_read_field_len(s);
            lemma_read_varint_len(s);
        }
        let tag: u64 = r.varint()?;
        assert(tag & 7 == tag % 8) by (bit_vector);
        assert(tag >> 3 == tag / 8) by (bit_vector);
        let ghost n = (read_varint(s)->0).1;
        assert(r.rest() =~= s.skip(n));
        let wire_type: u64 = tag & 7;
        let ghost field = (read_field(s)->0).0;
        proof {
            lemma_bytes_values_push(done, field, 1);
            lemma_bytes_values_push(done, field, 2);
            lemma_followed_by_keeps(done.push(field), s.skip((read_field(s)->0).1), 1);
            lemma_followed_by_keeps(done.push(field), s.skip((read_field(s)->0).1), 2);
        }
        match tag >> 3 {
            1 if wire_type == 2 => {
                let data = r.length_delimited()?;
                assert(bytes_values(done.push(field), 1).last() == data@);
                name = decode_text(data)?;
            },
            2 if wire_type == 2 => {
                let data = r.length_delimited()?;
                assert(bytes_values(done.push(field), 2).last() == data@);
                value = decode_text(data)?;
            },
            _ => r.skip(wire_type)?,
        }
        proof {
            assert(r.rest() =~= s.skip((read_field(s)->0).1));
            done = done.push(field);
        }
    }
    proof {
        assert(read_fields(r.rest()) == Some(Seq::<Field>::empty()));
        assert(done + Seq::<Field>::empty() =~= done);
    }
    Some((name, value))
}

/// Reads the payload of a request field.
pub fn parse_http_proxy_request(payload: &[u8]) -> (r: Option<ProxyRequest>)
    ensures
        match read_request(payload@) {
            Some(request) => r matches Some(req) && req@ == request,
            None => r is None,
        },
{
    let mut req = ProxyRequest {
        method: String::new(),
        path: String::new(),
        headers: Vec::new(),
        body: Vec::new(),
    };
    let mut r = Reader::new(payload);
    let ghost mut done = Seq::<Field>::empty();
    proof {
        if let Some(tail) = read_fields(payload@) {
            assert(done + tail =~= tail);
        }
        assert(decode_utf8(Seq::empty()) =~= Seq::<char>::empty());
        assert(header_texts(req.headers@) =~= entry_texts(bytes_values(done, 3)));
    }
    while r.pos < r.buf.len()
        invariant
            r.buf@ == payload@,
            r.pos <= r.buf@.len(),
            read_fields(payload@) == followed_by(done, r.rest()),
            all_utf8(bytes_values(done, 1)),
            all_utf8(bytes_values(done, 2)),
            all_header_entries(bytes_values(done, 3)),
            bytes_values(done, 3).len() <= MAX_HEADERS,
            req.method@ == decode_utf8(last_value(bytes_values(done, 1))),
            req.path@ == decode_utf8(last_value(bytes_values(done, 2))),
            header_texts(req.headers@) == entry_texts(bytes_values(done, 3)),
            req.body@ == last_value(bytes_values(done, 4)),
        decreases r.buf@.len() - r.pos,
    {
        let ghost s = r.rest();
        proof {
            lemma_followed_by_step(done, s);
            lemma_read_field_len(s);
            lemma_read_varint_len(s);
        }
        let tag: u64 = r.varint()?;
        assert(tag & 7 == tag % 8) by (bit_vector);
        assert(tag >> 3 == tag / 8) by (bit_vector);
        let ghost n = (read_varint(s)->0).1;
        assert(r.rest() =~= s.skip(n));
        let wire_type: u64 = tag & 7;
        let ghost field = (read_field(s)->0).0;
        let ghost after = s.skip((read_field(s)->0).1);
        proof {
            lemma_bytes_values_push(done, field, 1);
            lemma_bytes_values_push(done, field, 2);
            lemma_bytes_values_push(done, field, 3);
            lemma_bytes_values_push(done, field, 4);
            lemma_followed_by_keeps(done.push(field), after, 1);
            lemma_followed_by_keeps(done.push(field), after, 2);
            lemma_followed_by_keeps(done.push(field), after, 3);
            assert(req.headers@.len() == header_texts(req.headers@).len());
        }
        match tag >> 3 {
            1 if wire_type == 2 => {
                let data = r.length_delimited()?;
                assert(bytes_values(done.push(field), 1).last() == data@);
                req.method = decode_text(data)?;
            },
            2 if wire_type == 2 => {
                let data = r.length_delimited()?;
                assert(bytes_values(done.push(field), 2).last() == data@);
                req.path = decode_text(data)?;
            },
            3 if wire_type == 2 => {
                if req.headers.len() >= MAX_HEADERS {
                    return None;
                }
                let data = r.length_delimited()?;
                assert(bytes_values(done.push(field), 3).last() == data@);
                let entry = parse_header_entry(data)?;
                let ghost before = req.headers@;
                req.headers.push(entry);
                assert(header_texts(req.headers@) =~= header_texts(before).push(
                    (entry.0@, entry.1@),
                ));
                assert(entry_texts(bytes_values(done.push(field), 3)) =~= entry_texts(
                    bytes_values(done, 3),
                ).push((entry.0@, entry.1@)));
            },
            4 if wire_type == 2 => {
                let data = r.length_delimited()?;
                req.body = slice_to_vec(data);
            },
            _ => r.skip(wire_type)?,
        }
        proof {
            assert(r.rest() =~= after);
            done = done.push(field);
        }
    }
    proof {
        assert(read_fields(r.rest()) == Some(Seq::<Field>::empty()));
        assert(done + Seq::<Field>::empty() =~= done);
    }
    Some(req)
}

/// Extracts the request from the bytes of a rendezvous message.
/// There is none in any other message, so other messages are handled as before.
pub fn parse_request_frame(bytes: &[u8]) -> (r: Option<ProxyRequest>)
    ensures
        match read_request_frame(bytes@) {
            Some(request) => r matches Some(req) && req@ == request,
            None => r is None,
        },
{
    if bytes.is_empty() || bytes.len() > MAX_REQUEST_FRAME {
        return None;
    }
    let mut r = Reader::new(bytes);
    while r.pos < r.buf.len()
        invariant
            r.buf@ == bytes@,
            r.pos <= r.buf@.len(),
            bytes@.len() <= MAX_REQUEST_FRAME,
            request_payload(bytes@) == request_payload(r.rest()),
        decreases r.buf@.len() - r.pos,
    {
        let ghost s = r.rest();
        proof {
            lemma_read_field_len(s);
            lemma_read_varint_len(s);
        }
        let tag: u64 = r.varint()?;
        assert(tag & 7 == tag % 8) by (bit_vector);
        assert(tag >> 3 == tag / 8) by (bit_vector);
        let ghost n = (read_varint(s)->0).1;
        assert(r.rest() =~= s.skip(n));
        let wire_type: u64 = tag & 7;
        let field: u64 = tag >> 3;
        if field == 0 {
            return None;
        }
        if field == HTTP_PROXY_REQUEST_FIELD && wire_type == 2 {
            let payload = r.length_delimited()?;
            return parse_http_proxy_request(payload);
        }
        r.skip(wire_type)?;
        assert(r.rest() =~= s.skip((read_field(s)->0).1));
    }
    None
}

/// A text field that is left out when empty.
pub open spec fn text_field(number: u64, text: Seq<char>) -> Seq<u8> {
    nonempty_field(number, encode_utf8(text))
}

/// A length-delimited field that is left out when empty.
pub open spec fn nonempty_field(number: u64, data: Seq<u8>) -> Seq<u8> {
    if data.len() == 0 {
        Seq::empty()
    } else {
        bytes_field(number, data)
    }
}

/// The bytes of a header entry.
pub open spec fn header_entry_bytes(name: Seq<char>, value: Seq<char>) -> Seq<u8> {
    text_field(1, name) + text_field(2, value)
}

/// A field with the given number for each header.
pub open spec fn header_fields(
    number: u64,
    headers: Seq<(Seq<char>, Seq<char>)>,
) -> Seq<u8>
    decreases headers.len(),
{
    if headers.len() == 0 {
        Seq::empty()
    } else {
        header_fields(number, headers.drop_last()) + bytes_field(
            number,
            header_entry_bytes(headers.last().0, headers.last().1),
        )
    }
}

/// The number that a status is written as: its sign fills the upper bits.
pub open spec fn status_value(status: i32) -> u64 {
    if status >= 0 {
        status as u64
    } else {
        (u64_range() + status) as u64
    }
}

/// The status field, left out when the status is zero.
pub open spec fn status_field(status: i32) -> Seq<u8> {
    if status == 0 {
        Seq::empty()
    } else {
        varint_field(1, status_value(status))
    }
}

/// The bytes of a response.
pub open spec fn response_bytes(response: ResponseView) -> Seq<u8> {
    status_field(response.status) + header_fields(2, response.headers) + nonempty_field(
        3,
        response.body,
    ) + text_field(4, response.error)
}

/// The rendezvous message that carries a response.
pub open spec fn response_frame(response: ResponseView) -> Seq<u8> {
    bytes_field(HTTP_PROXY_RESPONSE_FIELD, response_bytes(response))
}

/// Lays out a header entry.
pub fn encode_header_entry(name: &str, value: &str) -> (r: Vec<u8>)
    ensures
        r@ == header_entry_bytes(name@, value@),
{
    proof {
        lemma_encoding_empty(name@);
        lemma_encoding_empty(value@);
    }
    let mut out: Vec<u8> = Vec::new();
    if !name.is_empty() {
        write_bytes_field(&mut out, 1, name.as_bytes());
    }
    assert(out@ =~= text_field(1, name@));
    if !value.is_empty() {
        write_bytes_field(&mut out, 2, value.as_bytes());
    }
    assert(out@ =~= header_entry_bytes(name@, value@));
    out
}

/// Wraps a response as a rendezvous message.
pub fn encode_response_frame(resp: &ProxyResponse) -> (r: Vec<u8>)
    ensures
        r@ == response_frame(resp@),
{
    let mut payload: Vec<u8> = Vec::new();
    let ghost view = resp@;
    if resp.status != 0 {
        assert(field_tag(1, 0) == 8);
        write_varint(&mut payload, 8);
        let status: i32 = resp.status;
        assert(status >= 0 ==> status as i64 as u64 == status) by (bit_vector);
        assert(status < 0 ==> status as i64 as u64 == 0x1_0000_0000_0000_0000 + status)
            by (bit_vector);
        write_varint(&mut payload, status as i64 as u64);
    }
    assert(payload@ =~= status_field(resp.status));
    let ghost start = payload@;
    let mut i: usize = 0;
    assert(view.headers.take(0) =~= Seq::empty());
    assert(payload@ =~= start + header_fields(2, view.headers.take(0)));
    while i < resp.headers.len()
        invariant
            i <= resp.headers@.len(),
            view.headers == header_texts(resp.headers@),
            payload@ == start + header_fields(2, view.headers.take(i as int)),
        decreases resp.headers@.len() - i,
    {
        let entry = encode_header_entry(resp.headers[i].0.as_str(), resp.headers[i].1.as_str());
        write_bytes_field(&mut payload, 2, entry.as_slice());
        let ghost grown = view.headers.take(i + 1);
        assert(grown.drop_last() =~= view.headers.take(i as int));
        assert(payload@ =~= start + header_fields(2, grown));
        i += 1;
    }
    assert(view.headers.take(i as int) =~= view.headers);
    if !resp.body.is_empty() {
        write_bytes_field(&mut payload, 3, resp.body.as_slice());
    }
    assert(payload@ =~= start + header_fields(2, view.headers) + nonempty_field(3, view.body));
    proof {
        lemma_encoding_empty(view.error);
    }
    if !resp.error.as_str().is_empty() {
        write_bytes_field(&mut payload, 4, resp.error.as_str().as_bytes());
    }
    assert(payload@ =~= response_bytes(view));
    let mut out: Vec<u8> = Vec::new();
    write_bytes_field(&mut out, HTTP_PROXY_RESPONSE_FIELD, payload.as_slice());
    assert(out@ =~= response_frame(view));
    out
}

} // verus!
