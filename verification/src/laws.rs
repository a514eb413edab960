//! What holds of the library as a whole.

use crate::forward::target_url;
use crate::headers::{
    dropped_header, dropped_names, forwarded_header, forwarded_headers, is_token_char,
    kept_headers, valid_header_name, valid_header_value,
};
use crate::message::{
    all_header_entries, all_utf8, bytes_values, entry_texts, failure, header_entry_bytes, header_fields,
    is_bytes_field, last_value, lemma_bytes_values_concat, nonempty_field, read_header_entry,
    read_request, read_request_frame, request_payload, response_bytes, response_frame,
    status_field, status_value, text_field, RequestView, ResponseView, HTTP_PROXY_REQUEST_FIELD,
    HTTP_PROXY_RESPONSE_FIELD, MAX_HEADERS, MAX_REQUEST_FRAME,
};
use crate::policy::{allowed_path, stripped_request_header, stripped_response_header};
use crate::text::{lowercase, trim_slashes};
use crate::wire::{
    base128, bytes_field, field_tag, lemma_pow128_values, lemma_read_field_len,
    lemma_read_value_len, lemma_read_varint_len, pow128, read_field, read_fields,
    read_value, read_varint, u64_range, varint_bytes, varint_field, varint_len, Field, FieldValue,
};
use vstd::prelude::*;
use vstd::utf8::{decode_utf8, encode_utf8, encode_utf8_decode_utf8, encode_utf8_valid_utf8};

verus! {

proof fn lemma_varint_len_prefix(a: Seq<u8>, b: Seq<u8>)
    requires
        varint_len(a) <= a.len(),
    ensures
        varint_len(a + b) == varint_len(a),
    decreases a.len(),
{
    if a.len() > 0 && a[0] >= 0x80 {
        assert((a + b).drop_first() =~= a.drop_first() + b);
        lemma_varint_len_prefix(a.drop_first(), b);
    }
}

/// Bytes that follow a varint do not change it.
pub proof fn law_varint_prefix(a: Seq<u8>, b: Seq<u8>)
    requires
        read_varint(a) is Some,
    ensures
        read_varint(a + b) == read_varint(a),
{
    lemma_varint_len_prefix(a, b);
    let n = varint_len(a) as int;
    assert((a + b).take(n) =~= a.take(n));
}

proof fn lemma_read_value_prefix(a: Seq<u8>, b: Seq<u8>, wire_type: u64)
    requires
        read_value(a, wire_type) is Some,
    ensures
        read_value(a + b, wire_type) == read_value(a, wire_type),
{
    lemma_read_varint_len(a);
    lemma_read_value_len(a, wire_type);
    if wire_type == 0 || wire_type == 2 {
        law_varint_prefix(a, b);
    }
    if wire_type == 1 {
        assert((a + b).take(8) =~= a.take(8));
    } else if wire_type == 2 {
        let (len, n) = read_varint(a)->0;
        let end = n + (len as usize);
        assert((a + b).subrange(n, end) =~= a.subrange(n, end));
    } else if wire_type == 5 {
        assert((a + b).take(4) =~= a.take(4));
    }
}

/// Bytes that follow a field do not change it.
pub proof fn law_field_prefix(a: Seq<u8>, b: Seq<u8>)
    requires
        read_field(a) is Some,
    ensures
        read_field(a + b) == read_field(a),
{
    let (tag, n) = read_varint(a)->0;
    lemma_read_varint_len(a);
    law_varint_prefix(a, b);
    assert((a + b).skip(n) =~= a.skip(n) + b);
    lemma_read_value_prefix(a.skip(n), b, tag % 8);
}

/// A run of whole fields followed by other bytes reads as those fields, followed by what the
/// other bytes read as.
pub proof fn law_fields_concat(a: Seq<u8>, b: Seq<u8>)
    requires
        read_fields(a) is Some,
    ensures
        read_fields(a + b) == match read_fields(b) {
            Some(fields) => Some(read_fields(a)->0 + fields),
            None => None,
        },
    decreases a.len(),
{
    if a.len() == 0 {
        assert(a + b =~= b);
        if let Some(fields) = read_fields(b) {
            assert(read_fields(a)->0 + fields =~= fields);
        }
    } else {
        let (field, n) = read_field(a)->0;
        lemma_read_field_len(a);
        law_field_prefix(a, b);
        assert((a + b).skip(n) =~= a.skip(n) + b);
        law_fields_concat(a.skip(n), b);
        if let Some(fields) = read_fields(b) {
            let tail = read_fields(a.skip(n))->0;
            assert(seq![field] + (tail + fields) =~= (seq![field] + tail) + fields);
        }
    }
}

proof fn lemma_varint_bytes_len(value: u64, digits: nat)
    requires
        digits >= 1,
        value < pow128(digits),
    ensures
        1 <= varint_bytes(value).len() <= digits,
    decreases digits,
{
    if value >= 0x80 {
        if digits == 1 {
            assert(pow128(0) == 1);
            assert(false);
        }
        lemma_varint_bytes_len(value / 128, (digits - 1) as nat);
    }
}

proof fn lemma_varint_bytes_digits(value: u64)
    ensures
        varint_len(varint_bytes(value)) == varint_bytes(value).len(),
        base128(varint_bytes(value)) == value,
    decreases value,
{
    let bytes = varint_bytes(value);
    if value < 0x80 {
        assert(bytes.drop_first() =~= Seq::empty());
        assert(base128(bytes.drop_first()) == 0);
    } else {
        assert(bytes.drop_first() =~= varint_bytes(value / 128));
        lemma_varint_bytes_digits(value / 128);
    }
}

/// A varint that was written reads back as the same number, takes up between one and ten bytes,
/// and leaves what follows it alone.
pub proof fn law_varint_roundtrip(value: u64, rest: Seq<u8>)
    ensures
        read_varint(varint_bytes(value) + rest) == Some((value, varint_bytes(value).len() as int)),
        1 <= varint_bytes(value).len() <= 10,
{
    let bytes = varint_bytes(value);
    lemma_pow128_values();
    lemma_varint_bytes_len(value, 10);
    lemma_varint_bytes_digits(value);
    assert(bytes.take(bytes.len() as int) =~= bytes);
    law_varint_prefix(bytes, rest);
}

/// A varint field that was written reads back as itself, whatever follows it.
pub proof fn law_varint_field_roundtrip(number: u64, value: u64, rest: Seq<u8>)
    requires
        number < 0x2000_0000_0000_0000,
    ensures
        read_field(varint_field(number, value) + rest) == Some(
            (
                Field { number, value: FieldValue::Varint(value) },
                varint_field(number, value).len() as int,
            ),
        ),
{
    let tag = varint_bytes(field_tag(number, 0));
    let tail = varint_bytes(value) + rest;
    assert(varint_field(number, value) + rest =~= tag + tail);
    law_varint_roundtrip(field_tag(number, 0), tail);
    assert((tag + tail).skip(tag.len() as int) =~= tail);
    law_varint_roundtrip(value, rest);
}

/// A length-delimited field that was written reads back as itself, whatever follows it.
pub proof fn law_bytes_field_roundtrip(number: u64, data: Seq<u8>, rest: Seq<u8>)
    requires
        number < 0x2000_0000_0000_0000,
        data.len() <= usize::MAX,
    ensures
        read_field(bytes_field(number, data) + rest) == Some(
            (
                Field { number, value: FieldValue::Bytes(data) },
                bytes_field(number, data).len() as int,
            ),
        ),
{
    let tag = varint_bytes(field_tag(number, 2));
    let len = varint_bytes(data.len() as u64);
    let tail = len + (data + rest);
    assert(bytes_field(number, data) + rest =~= tag + tail);
    law_varint_roundtrip(field_tag(number, 2), tail);
    assert((tag + tail).skip(tag.len() as int) =~= tail);
    law_varint_roundtrip(data.len() as u64, data + rest);
    let n = len.len() as int;
    assert(tail.subrange(n, n + data.len()) =~= data);
}

/// The values of the varint fields with the given number, in order.
pub open spec fn varint_values(fields: Seq<Field>, number: u64) -> Seq<u64>
    decreases fields.len(),
{
    if fields.len() == 0 {
        Seq::empty()
    } else if fields.last().number == number && fields.last().value is Varint {
        varint_values(fields.drop_last(), number).push(fields.last().value->Varint_0)
    } else {
        varint_values(fields.drop_last(), number)
    }
}

/// Whether `s` is a run of whole fields that are all length-delimited, have the given number and
/// hold the given values.
spec fn holds_only(s: Seq<u8>, number: u64, values: Seq<Seq<u8>>) -> bool {
    &&& read_fields(s) is Some
    &&& forall|m: u64|
        #![trigger bytes_values(read_fields(s)->0, m)]
        bytes_values(read_fields(s)->0, m) == if m == number {
            values
        } else {
            Seq::empty()
        }
    &&& forall|m: u64|
        #![trigger varint_values(read_fields(s)->0, m)]
        varint_values(read_fields(s)->0, m) == Seq::<u64>::empty()
}

proof fn lemma_varint_values_concat(a: Seq<Field>, b: Seq<Field>, number: u64)
    ensures
        varint_values(a + b, number) == varint_values(a, number) + varint_values(b, number),
    decreases b.len(),
{
    if b.len() == 0 {
        assert(a + b =~= a);
        assert(varint_values(a, number) + varint_values(b, number) =~= varint_values(a, number));
    } else {
        lemma_varint_values_concat(a, b.drop_last(), number);
        assert((a + b).drop_last() =~= a + b.drop_last());
        assert(varint_values(a + b, number) =~= varint_values(a, number) + varint_values(
            b,
            number,
        ));
    }
}

proof fn lemma_empty_holds_only(number: u64)
    ensures
        holds_only(Seq::empty(), number, Seq::empty()),
{
    assert(read_fields(Seq::empty()) == Some(Seq::<Field>::empty()));
}

/// The fields of a single field.
pub proof fn lemma_single_field(s: Seq<u8>, field: Field)
    requires
        read_field(s) == Some((field, s.len() as int)),
    ensures
        read_fields(s) == Some(seq![field]),
{
    lemma_read_field_len(s);
    assert(s.skip(s.len() as int) =~= Seq::empty());
    assert(read_fields(Seq::empty()) == Some(Seq::<Field>::empty()));
    assert(seq![field] + Seq::<Field>::empty() =~= seq![field]);
}

proof fn lemma_bytes_field_holds_only(number: u64, data: Seq<u8>)
    requires
        number < 0x2000_0000_0000_0000,
        data.len() <= usize::MAX,
    ensures
        holds_only(bytes_field(number, data), number, seq![data]),
{
    let s = bytes_field(number, data);
    let field = Field { number, value: FieldValue::Bytes(data) };
    law_bytes_field_roundtrip(number, data, Seq::empty());
    assert(s + Seq::<u8>::empty() =~= s);
    lemma_single_field(s, field);
    let fields = seq![field];
    assert(fields.drop_last() =~= Seq::empty());
    assert forall|m: u64| #[trigger] bytes_values(fields, m) == if m == number {
        seq![data]
    } else {
        Seq::empty()
    } by {
        assert(bytes_values(fields.drop_last(), m) =~= Seq::empty());
        assert(Seq::<Seq<u8>>::empty().push(data) =~= seq![data]);
    }
    assert forall|m: u64| #[trigger] varint_values(fields, m) == Seq::<u64>::empty() by {
        assert(varint_values(fields.drop_last(), m) =~= Seq::empty());
    }
}

/// The values of a field that is left out when empty.
spec fn nonempty_values(data: Seq<u8>) -> Seq<Seq<u8>> {
    if data.len() == 0 {
        Seq::empty()
    } else {
        seq![data]
    }
}

proof fn lemma_nonempty_last(data: Seq<u8>)
    ensures
        last_value(nonempty_values(data)) == data,
{
    if data.len() == 0 {
        assert(data =~= Seq::empty());
    }
}

proof fn lemma_nonempty_field_holds_only(number: u64, data: Seq<u8>)
    requires
        number < 0x2000_0000_0000_0000,
        data.len() <= usize::MAX,
    ensures
        holds_only(nonempty_field(number, data), number, nonempty_values(data)),
        last_value(nonempty_values(data)) == data,
{
    lemma_nonempty_last(data);
    if data.len() == 0 {
        lemma_empty_holds_only(number);
    } else {
        lemma_bytes_field_holds_only(number, data);
    }
}

/// The entries of a list of headers.
spec fn entries_of(headers: Seq<(Seq<char>, Seq<char>)>) -> Seq<Seq<u8>> {
    headers.map_values(|h: (Seq<char>, Seq<char>)| header_entry_bytes(h.0, h.1))
}

proof fn lemma_header_fields_holds_only(number: u64, headers: Seq<(Seq<char>, Seq<char>)>)
    requires
        number < 0x2000_0000_0000_0000,
        header_fields(number, headers).len() <= usize::MAX,
    ensures
        holds_only(header_fields(number, headers), number, entries_of(headers)),
        forall|i: int|
            0 <= i < headers.len() ==> (#[trigger] entries_of(headers)[i]).len() <= usize::MAX,
    decreases headers.len(),
{
    if headers.len() == 0 {
        lemma_empty_holds_only(number);
        assert(entries_of(headers) =~= Seq::empty());
    } else {
        let before = headers.drop_last();
        let entry = header_entry_bytes(headers.last().0, headers.last().1);
        let a = header_fields(number, before);
        let b = bytes_field(number, entry);
        lemma_header_fields_holds_only(number, before);
        lemma_bytes_field_holds_only(number, entry);
        lemma_holds_only_concat(a, b, number, entries_of(before), seq![entry]);
        assert(entries_of(headers) =~= entries_of(before) + seq![entry]);
    }
}

proof fn lemma_holds_only_concat(
    a: Seq<u8>,
    b: Seq<u8>,
    number: u64,
    va: Seq<Seq<u8>>,
    vb: Seq<Seq<u8>>,
)
    requires
        holds_only(a, number, va),
        holds_only(b, number, vb),
    ensures
        holds_only(a + b, number, va + vb),
{
    law_fields_concat(a, b);
    let fa = read_fields(a)->0;
    let fb = read_fields(b)->0;
    assert forall|m: u64| #[trigger] bytes_values(fa + fb, m) == if m == number {
        va + vb
    } else {
        Seq::empty()
    } by {
        lemma_bytes_values_concat(fa, fb, m);
        assert(Seq::<Seq<u8>>::empty() + Seq::<Seq<u8>>::empty() =~= Seq::empty());
    }
    assert forall|m: u64| #[trigger] varint_values(fa + fb, m) == Seq::<u64>::empty() by {
        lemma_varint_values_concat(fa, fb, m);
        assert(Seq::<u64>::empty() + Seq::<u64>::empty() =~= Seq::empty());
    }
}

/// A header entry that was written reads back as the same name and value.
pub proof fn law_header_entry_roundtrip(name: Seq<char>, value: Seq<char>)
    requires
        header_entry_bytes(name, value).len() <= usize::MAX,
    ensures
        read_header_entry(header_entry_bytes(name, value)) == Some((name, value)),
{
    let n = encode_utf8(name);
    let v = encode_utf8(value);
    let a = text_field(1, name);
    let b = text_field(2, value);
    lemma_nonempty_field_holds_only(1, n);
    lemma_nonempty_field_holds_only(2, v);
    law_fields_concat(a, b);
    let fa = read_fields(a)->0;
    let fb = read_fields(b)->0;
    lemma_bytes_values_concat(fa, fb, 1);
    lemma_bytes_values_concat(fa, fb, 2);
    assert(bytes_values(fa + fb, 1) =~= nonempty_values(n));
    assert(bytes_values(fa + fb, 2) =~= nonempty_values(v));
    encode_utf8_valid_utf8(name);
    encode_utf8_valid_utf8(value);
    encode_utf8_decode_utf8(name);
    encode_utf8_decode_utf8(value);
}

proof fn lemma_entries_roundtrip(headers: Seq<(Seq<char>, Seq<char>)>)
    requires
        forall|i: int|
            0 <= i < headers.len() ==> (#[trigger] entries_of(headers)[i]).len() <= usize::MAX,
    ensures
        all_header_entries(entries_of(headers)),
        entry_texts(entries_of(headers)) == headers,
{
    let entries = entries_of(headers);
    assert forall|i: int| 0 <= i < headers.len() implies #[trigger] read_header_entry(entries[i])
        == Some(headers[i]) by {
        law_header_entry_roundtrip(headers[i].0, headers[i].1);
    }
    assert(entry_texts(entries) =~= headers);
}

/// The bytes of a request, as a client writes them.
pub open spec fn request_bytes(request: RequestView) -> Seq<u8> {
    text_field(1, request.method) + text_field(2, request.path) + header_fields(3, request.headers)
        + nonempty_field(4, request.body)
}

/// The rendezvous message that carries a request, as a client writes it.
pub open spec fn request_frame(request: RequestView) -> Seq<u8> {
    bytes_field(HTTP_PROXY_REQUEST_FIELD, request_bytes(request))
}

proof fn lemma_request_entries(request: RequestView)
    requires
        request_bytes(request).len() <= usize::MAX,
    ensures
        read_fields(request_bytes(request)) matches Some(fields) && bytes_values(fields, 1)
            == nonempty_values(encode_utf8(request.method)) && bytes_values(fields, 2)
            == nonempty_values(encode_utf8(request.path)) && bytes_values(fields, 3) == entries_of(
            request.headers,
        ) && bytes_values(fields, 4) == nonempty_values(request.body),
        forall|i: int|
            0 <= i < request.headers.len() ==> (#[trigger] entries_of(request.headers)[i]).len()
                <= usize::MAX,
{
    let method = encode_utf8(request.method);
    let path = encode_utf8(request.path);
    let a = text_field(1, request.method);
    let b = text_field(2, request.path);
    let c = header_fields(3, request.headers);
    let d = nonempty_field(4, request.body);
    lemma_nonempty_field_holds_only(1, method);
    lemma_nonempty_field_holds_only(2, path);
    lemma_header_fields_holds_only(3, request.headers);
    lemma_nonempty_field_holds_only(4, request.body);
    let fa = read_fields(a)->0;
    let fb = read_fields(b)->0;
    let fc = read_fields(c)->0;
    let fd = read_fields(d)->0;
    law_fields_concat(a, b);
    law_fields_concat(a + b, c);
    law_fields_concat(a + b + c, d);
    let fields = fa + fb + fc + fd;
    assert forall|m: u64| #[trigger] bytes_values(fields, m) == bytes_values(fa, m) + bytes_values(
        fb,
        m,
    ) + bytes_values(fc, m) + bytes_values(fd, m) by {
        lemma_bytes_values_concat(fa, fb, m);
        lemma_bytes_values_concat(fa + fb, fc, m);
        lemma_bytes_values_concat(fa + fb + fc, fd, m);
    }
    assert(bytes_values(fields, 1) =~= nonempty_values(method));
    assert(bytes_values(fields, 2) =~= nonempty_values(path));
    assert(bytes_values(fields, 3) =~= entries_of(request.headers));
    assert(bytes_values(fields, 4) =~= nonempty_values(request.body));
}

proof fn lemma_request_bytes_roundtrip(request: RequestView)
    requires
        request_bytes(request).len() <= usize::MAX,
        request.headers.len() <= MAX_HEADERS,
    ensures
        read_request(request_bytes(request)) == Some(request),
{
    lemma_request_entries(request);
    lemma_nonempty_last(encode_utf8(request.method));
    lemma_nonempty_last(encode_utf8(request.path));
    lemma_nonempty_last(request.body);
    encode_utf8_valid_utf8(request.method);
    encode_utf8_valid_utf8(request.path);
    encode_utf8_decode_utf8(request.method);
    encode_utf8_decode_utf8(request.path);
    lemma_entries_roundtrip(request.headers);
}

/// A request that a client wrote is the one that is read from the message, whatever follows it
/// there, as long as it keeps to the limits on headers and on the message's length.
pub proof fn law_request_roundtrip(request: RequestView, rest: Seq<u8>)
    requires
        request.headers.len() <= MAX_HEADERS,
        (request_frame(request) + rest).len() <= MAX_REQUEST_FRAME,
    ensures
        read_request_frame(request_frame(request) + rest) == Some(request),
{
    let payload = request_bytes(request);
    law_bytes_field_roundtrip(HTTP_PROXY_REQUEST_FIELD, payload, rest);
    lemma_request_bytes_roundtrip(request);
}

/// A request with too many headers is not read, however short it is.
pub proof fn law_too_many_headers(request: RequestView, rest: Seq<u8>)
    requires
        request.headers.len() > MAX_HEADERS,
        (request_frame(request) + rest).len() <= MAX_REQUEST_FRAME,
    ensures
        read_request_frame(request_frame(request) + rest) is None,
{
    let payload = request_bytes(request);
    law_bytes_field_roundtrip(HTTP_PROXY_REQUEST_FIELD, payload, rest);
    lemma_request_entries(request);
}

/// A request that was read keeps to the limit on headers.
pub proof fn law_accepted_headers(bytes: Seq<u8>)
    ensures
        read_request_frame(bytes) matches Some(request) ==> request.headers.len() <= MAX_HEADERS,
{
}

/// Whether a field is one that a message may hold besides the request.
pub open spec fn is_other_field(field: Field) -> bool {
    field.number != 0 && !is_bytes_field(field, HTTP_PROXY_REQUEST_FIELD)
}

proof fn lemma_other_fields_skipped(others: Seq<u8>, rest: Seq<u8>)
    requires
        read_fields(others) is Some,
        forall|i: int|
            0 <= i < (read_fields(others)->0).len() ==> is_other_field(
                #[trigger] (read_fields(others)->0)[i],
            ),
    ensures
        request_payload(others + rest) == request_payload(rest),
    decreases others.len(),
{
    if others.len() == 0 {
        assert(others + rest =~= rest);
    } else {
        let fields = read_fields(others)->0;
        let (field, n) = read_field(others)->0;
        let next = others.skip(n);
        lemma_read_field_len(others);
        law_field_prefix(others, rest);
        assert((others + rest).skip(n) =~= next + rest);
        assert(fields[0] == field);
        let tail = read_fields(next)->0;
        assert forall|i: int| 0 <= i < tail.len() implies is_other_field(#[trigger] tail[i]) by {
            assert(tail[i] == fields[i + 1]);
        }
        lemma_other_fields_skipped(next, rest);
    }
}

/// Other fields in front of a request do not change what is read.
pub proof fn law_other_fields_skipped(others: Seq<u8>, rest: Seq<u8>)
    requires
        read_fields(others) is Some,
        forall|i: int|
            0 <= i < (read_fields(others)->0).len() ==> is_other_field(
                #[trigger] (read_fields(others)->0)[i],
            ),
        (others + rest).len() <= MAX_REQUEST_FRAME,
    ensures
        read_request_frame(others + rest) == read_request_frame(rest),
{
    lemma_other_fields_skipped(others, rest);
}

/// Nothing is read from a message that holds only other fields.
pub proof fn law_other_message(bytes: Seq<u8>)
    requires
        read_fields(bytes) is Some,
        forall|i: int|
            0 <= i < (read_fields(bytes)->0).len() ==> !is_bytes_field(
                #[trigger] (read_fields(bytes)->0)[i],
                HTTP_PROXY_REQUEST_FIELD,
            ),
    ensures
        read_request_frame(bytes) is None,
{
    lemma_no_request_payload(bytes);
}

proof fn lemma_no_request_payload(bytes: Seq<u8>)
    requires
        read_fields(bytes) is Some,
        forall|i: int|
            0 <= i < (read_fields(bytes)->0).len() ==> !is_bytes_field(
                #[trigger] (read_fields(bytes)->0)[i],
                HTTP_PROXY_REQUEST_FIELD,
            ),
    ensures
        request_payload(bytes) is None,
    decreases bytes.len(),
{
    if bytes.len() > 0 {
        let fields = read_fields(bytes)->0;
        let (field, n) = read_field(bytes)->0;
        lemma_read_field_len(bytes);
        assert(fields[0] == field);
        let tail = read_fields(bytes.skip(n))->0;
        assert forall|i: int| 0 <= i < tail.len() implies !is_bytes_field(
            #[trigger] tail[i],
            HTTP_PROXY_REQUEST_FIELD,
        ) by {
            assert(tail[i] == fields[i + 1]);
        }
        lemma_no_request_payload(bytes.skip(n));
    }
}

/// Nothing is read from a message that starts with a field numbered zero.
pub proof fn law_field_zero(bytes: Seq<u8>)
    requires
        read_varint(bytes) matches Some((tag, _)) && tag < 8,
    ensures
        read_request_frame(bytes) is None,
{
}

/// Nothing is read from a message that ends before its request does.
pub proof fn law_truncated_request(declared: u64, data: Seq<u8>)
    requires
        data.len() < declared <= usize::MAX,
    ensures
        read_request_frame(
            varint_bytes(field_tag(HTTP_PROXY_REQUEST_FIELD, 2)) + varint_bytes(declared) + data,
        ) is None,
{
    let tag = varint_bytes(field_tag(HTTP_PROXY_REQUEST_FIELD, 2));
    let tail = varint_bytes(declared) + data;
    let bytes = tag + varint_bytes(declared) + data;
    assert(bytes =~= tag + tail);
    law_varint_roundtrip(field_tag(HTTP_PROXY_REQUEST_FIELD, 2), tail);
    assert((tag + tail).skip(tag.len() as int) =~= tail);
    law_varint_roundtrip(declared, data);
}

/// What a client reads from a response.
pub struct ReceivedView {
    pub status: int,
    pub headers: Seq<(Seq<char>, Seq<char>)>,
    pub body: Seq<u8>,
    pub error: Seq<char>,
}

/// The number that a varint stands for when its top bit is a sign.
pub open spec fn signed_value(value: u64) -> int {
    if value < 0x8000_0000_0000_0000 {
        value as int
    } else {
        value - u64_range()
    }
}

/// The response that `payload` holds, as a client reads it.
pub open spec fn read_response(payload: Seq<u8>) -> Option<ReceivedView> {
    match read_fields(payload) {
        Some(fields) => {
            let statuses = varint_values(fields, 1);
            let entries = bytes_values(fields, 2);
            let errors = bytes_values(fields, 4);
            if all_header_entries(entries) && all_utf8(errors) {
                Some(
                    ReceivedView {
                        status: if statuses.len() == 0 {
                            0
                        } else {
                            signed_value(statuses.last())
                        },
                        headers: entry_texts(entries),
                        body: last_value(bytes_values(fields, 3)),
                        error: decode_utf8(last_value(errors)),
                    },
                )
            } else {
                None
            }
        },
        None => None,
    }
}

/// The response that a rendezvous message starts with, as a client reads it.
pub open spec fn read_response_frame(bytes: Seq<u8>) -> Option<ReceivedView> {
    match read_field(bytes) {
        Some((field, _)) => if is_bytes_field(field, HTTP_PROXY_RESPONSE_FIELD) {
            read_response(field.value->Bytes_0)
        } else {
            None
        },
        None => None,
    }
}

/// What a client is to read from a response: all that it says.
pub open spec fn received(response: ResponseView) -> ReceivedView {
    ReceivedView {
        status: response.status as int,
        headers: response.headers,
        body: response.body,
        error: response.error,
    }
}

/// The values of the status field, which is left out when the status is zero.
spec fn status_values(status: i32) -> Seq<u64> {
    if status == 0 {
        Seq::empty()
    } else {
        seq![status_value(status)]
    }
}

proof fn lemma_status_field(status: i32)
    ensures
        read_fields(status_field(status)) matches Some(fields) && varint_values(fields, 1)
            == status_values(status) && forall|m: u64| #[trigger]
            bytes_values(fields, m) == Seq::<Seq<u8>>::empty(),
{
    let s = status_field(status);
    if status == 0 {
        lemma_empty_holds_only(1);
    } else {
        let value = status_value(status);
        let field = Field { number: 1, value: FieldValue::Varint(value) };
        law_varint_field_roundtrip(1, value, Seq::empty());
        assert(s + Seq::<u8>::empty() =~= s);
        lemma_single_field(s, field);
        let fields = seq![field];
        assert(fields.drop_last() =~= Seq::empty());
        assert(varint_values(fields.drop_last(), 1) =~= Seq::empty());
        assert(Seq::<u64>::empty().push(value) =~= seq![value]);
        assert forall|m: u64| #[trigger] bytes_values(fields, m) == Seq::<Seq<u8>>::empty() by {
            assert(bytes_values(fields.drop_last(), m) =~= Seq::empty());
        }
    }
}

proof fn lemma_response_bytes_roundtrip(response: ResponseView)
    requires
        response_bytes(response).len() <= usize::MAX,
    ensures
        read_response(response_bytes(response)) == Some(received(response)),
{
    let error = encode_utf8(response.error);
    let a = status_field(response.status);
    let b = header_fields(2, response.headers);
    let c = nonempty_field(3, response.body);
    let d = text_field(4, response.error);
    lemma_status_field(response.status);
    lemma_header_fields_holds_only(2, response.headers);
    lemma_nonempty_field_holds_only(3, response.body);
    lemma_nonempty_field_holds_only(4, error);
    let fa = read_fields(a)->0;
    let fb = read_fields(b)->0;
    let fc = read_fields(c)->0;
    let fd = read_fields(d)->0;
    law_fields_concat(a, b);
    law_fields_concat(a + b, c);
    law_fields_concat(a + b + c, d);
    let fields = fa + fb + fc + fd;
    assert forall|m: u64| #[trigger] bytes_values(fields, m) == bytes_values(fa, m) + bytes_values(
        fb,
        m,
    ) + bytes_values(fc, m) + bytes_values(fd, m) by {
        lemma_bytes_values_concat(fa, fb, m);
        lemma_bytes_values_concat(fa + fb, fc, m);
        lemma_bytes_values_concat(fa + fb + fc, fd, m);
    }
    assert(varint_values(fields, 1) =~= status_values(response.status)) by {
        lemma_varint_values_concat(fa, fb, 1);
        lemma_varint_values_concat(fa + fb, fc, 1);
        lemma_varint_values_concat(fa + fb + fc, fd, 1);
    }
    assert(bytes_values(fields, 2) =~= entries_of(response.headers));
    assert(bytes_values(fields, 3) =~= nonempty_values(response.body));
    assert(bytes_values(fields, 4) =~= nonempty_values(error));
    encode_utf8_valid_utf8(response.error);
    encode_utf8_decode_utf8(response.error);
    lemma_entries_roundtrip(response.headers);
}

/// A client reads from a response what it says, a negative status included.
pub proof fn law_response_roundtrip(response: ResponseView)
    requires
        response_bytes(response).len() <= usize::MAX,
    ensures
        read_response_frame(response_frame(response)) == Some(received(response)),
{
    let payload = response_bytes(response);
    let frame = response_frame(response);
    law_bytes_field_roundtrip(HTTP_PROXY_RESPONSE_FIELD, payload, Seq::empty());
    assert(frame + Seq::<u8>::empty() =~= frame);
    lemma_response_bytes_roundtrip(response);
}

/// Messages that carry a request start with the tag of field 27, and those that carry a response
/// with the tag of field 28.
pub proof fn law_envelope_tags(request: RequestView, response: ResponseView)
    ensures
        seq![0xDAu8, 0x01u8].is_prefix_of(request_frame(request)),
        seq![0xE2u8, 0x01u8].is_prefix_of(response_frame(response)),
{
    reveal_with_fuel(varint_bytes, 2);
    let a = request_frame(request);
    let b = response_frame(response);
    assert(varint_bytes(field_tag(HTTP_PROXY_REQUEST_FIELD, 2)) =~= seq![0xDAu8, 0x01u8]);
    assert(varint_bytes(field_tag(HTTP_PROXY_RESPONSE_FIELD, 2)) =~= seq![0xE2u8, 0x01u8]);
    assert(a.subrange(0, 2) =~= seq![0xDAu8, 0x01u8]);
    assert(b.subrange(0, 2) =~= seq![0xE2u8, 0x01u8]);
}

/// Nothing is read from an empty message or from one that is too long.
pub proof fn law_message_size(bytes: Seq<u8>)
    requires
        bytes.len() == 0 || bytes.len() > MAX_REQUEST_FRAME,
    ensures
        read_request_frame(bytes) is None,
{
}

/// A client that was refused reads why, and nothing else.
pub proof fn law_failure_roundtrip(error: Seq<char>)
    requires
        response_bytes(failure(error)).len() <= usize::MAX,
    ensures
        read_response_frame(response_frame(failure(error))) == Some(
            ReceivedView { status: 0, headers: Seq::empty(), body: Seq::empty(), error },
        ),
{
    law_response_roundtrip(failure(error));
}

/// Fields that a request does not know, anywhere among its own, do not change what it says.
pub proof fn law_unknown_request_fields(before: Seq<u8>, unknown: Seq<u8>, after: Seq<u8>)
    requires
        read_fields(before) is Some,
        read_fields(unknown) is Some,
        forall|i: int|
            0 <= i < (read_fields(unknown)->0).len() ==> {
                let field = #[trigger] (read_fields(unknown)->0)[i];
                field.value is Bytes ==> !(1 <= field.number <= 4)
            },
    ensures
        read_request(before + unknown + after) == read_request(before + after),
{
    law_fields_concat(before, unknown);
    law_fields_concat(before + unknown, after);
    law_fields_concat(before, after);
    if let Some(tail) = read_fields(after) {
        let head = read_fields(before)->0;
        let middle = read_fields(unknown)->0;
        assert forall|m: u64| 1 <= m <= 4 implies #[trigger] bytes_values(head + middle + tail, m)
            == bytes_values(head + tail, m) by {
            lemma_bytes_values_concat(head, middle, m);
            lemma_bytes_values_concat(head + middle, tail, m);
            lemma_bytes_values_concat(head, tail, m);
            lemma_no_bytes_values(middle, m);
            assert(bytes_values(head, m) + Seq::<Seq<u8>>::empty() =~= bytes_values(head, m));
        }
    }
}

/// A method, path or body that is given again takes the place of the earlier one.
pub proof fn law_last_value_wins(
    payload: Seq<u8>,
    method: Seq<char>,
    path: Seq<char>,
    body: Seq<u8>,
)
    requires
        read_request(payload) is Some,
        encode_utf8(method).len() <= usize::MAX,
        encode_utf8(path).len() <= usize::MAX,
        body.len() <= usize::MAX,
    ensures
        read_request(
            payload + bytes_field(1, encode_utf8(method)) + bytes_field(2, encode_utf8(path))
                + bytes_field(4, body),
        ) == Some(
            RequestView { method, path, headers: (read_request(payload)->0).headers, body },
        ),
{
    let a = bytes_field(1, encode_utf8(method));
    let b = bytes_field(2, encode_utf8(path));
    let c = bytes_field(4, body);
    lemma_bytes_field_holds_only(1, encode_utf8(method));
    lemma_bytes_field_holds_only(2, encode_utf8(path));
    lemma_bytes_field_holds_only(4, body);
    law_fields_concat(payload, a);
    law_fields_concat(payload + a, b);
    law_fields_concat(payload + a + b, c);
    let fields = read_fields(payload)->0;
    let fa = read_fields(a)->0;
    let fb = read_fields(b)->0;
    let fc = read_fields(c)->0;
    let all = fields + fa + fb + fc;
    assert forall|m: u64| #[trigger] bytes_values(all, m) == bytes_values(fields, m) + bytes_values(
        fa,
        m,
    ) + bytes_values(fb, m) + bytes_values(fc, m) by {
        lemma_bytes_values_concat(fields, fa, m);
        lemma_bytes_values_concat(fields + fa, fb, m);
        lemma_bytes_values_concat(fields + fa + fb, fc, m);
    }
    assert(bytes_values(all, 1) =~= bytes_values(fields, 1).push(encode_utf8(method)));
    assert(bytes_values(all, 2) =~= bytes_values(fields, 2).push(encode_utf8(path)));
    assert(bytes_values(all, 3) =~= bytes_values(fields, 3));
    assert(bytes_values(all, 4) =~= bytes_values(fields, 4).push(body));
    encode_utf8_valid_utf8(method);
    encode_utf8_valid_utf8(path);
    encode_utf8_decode_utf8(method);
    encode_utf8_decode_utf8(path);
}

proof fn lemma_no_bytes_values(fields: Seq<Field>, number: u64)
    requires
        forall|i: int| 0 <= i < fields.len() ==> !is_bytes_field(#[trigger] fields[i], number),
    ensures
        bytes_values(fields, number) == Seq::<Seq<u8>>::empty(),
    decreases fields.len(),
{
    if fields.len() > 0 {
        assert(!is_bytes_field(fields[fields.len() - 1], number));
        assert forall|i: int| 0 <= i < fields.drop_last().len() implies !is_bytes_field(
            #[trigger] fields.drop_last()[i],
            number,
        ) by {
            assert(fields.drop_last()[i] == fields[i]);
        }
        lemma_no_bytes_values(fields.drop_last(), number);
    }
}

/// Slashes at the end of the configured address make no difference.
pub proof fn law_base_slash(base: Seq<char>, path: Seq<char>)
    ensures
        target_url(base.push('/'), path) == target_url(base, path),
{
    assert(base.push('/').drop_last() =~= base);
}

/// A request is sent below `/api/` at the configured address.
pub proof fn law_url_below_api(base: Seq<char>, path: Seq<char>)
    requires
        allowed_path(path),
    ensures
        (trim_slashes(base) + "/api/"@).is_prefix_of(target_url(base, path)),
{
    let prefix = trim_slashes(base) + "/api/"@;
    assert forall|i: int| 0 <= i < "/api/"@.len() implies "/api/"@[i] == path[i] by {
        assert(path.subrange(0, "/api/"@.len() as int)[i] == path[i]);
    }
    assert(prefix =~= target_url(base, path).subrange(0, prefix.len() as int));
}

proof fn lemma_filter_contains<A>(s: Seq<A>, keep: spec_fn(A) -> bool, x: A)
    ensures
        s.filter(keep).contains(x) <==> s.contains(x) && keep(x),
    decreases s.len(),
{
    reveal(Seq::filter);
    if s.len() > 0 {
        let before = s.drop_last();
        let kept = before.filter(keep);
        lemma_filter_contains(before, keep, x);
        if s.contains(x) {
            let j = choose|j: int| 0 <= j < s.len() && s[j] == x;
            if j < before.len() {
                assert(before[j] == x);
            }
        }
        if before.contains(x) {
            let j = choose|j: int| 0 <= j < before.len() && before[j] == x;
            assert(s[j] == x);
        }
        assert(s[s.len() - 1] == s.last());
        if keep(s.last()) {
            let grown = kept.push(s.last());
            assert(grown[kept.len() as int] == s.last());
            if kept.contains(x) {
                let k = choose|k: int| 0 <= k < kept.len() && kept[k] == x;
                assert(grown[k] == x);
            }
            if grown.contains(x) && x != s.last() {
                let k = choose|k: int| 0 <= k < grown.len() && grown[k] == x;
                assert(kept[k] == x);
            }
        }
    }
}

proof fn lemma_lowercase_idempotent(s: Seq<char>)
    ensures
        lowercase(lowercase(s)) == lowercase(s),
{
    assert(lowercase(lowercase(s)) =~= lowercase(s));
}

/// Which headers are left out does not depend on the case of their names.
pub proof fn law_stripped_ignores_case(name: Seq<char>)
    ensures
        stripped_request_header(lowercase(name)) == stripped_request_header(name),
        stripped_response_header(lowercase(name)) == stripped_response_header(name),
{
    lemma_lowercase_idempotent(name);
}

/// A forwarded request holds no header that is to be left out, and only names and values that
/// HTTP allows.
pub proof fn law_forwarded_headers(headers: Seq<(Seq<char>, Seq<char>)>, i: int)
    requires
        0 <= i < forwarded_headers(headers).len(),
    ensures
        !stripped_request_header(forwarded_headers(headers)[i].0),
        valid_header_name(forwarded_headers(headers)[i].0),
        lowercase(forwarded_headers(headers)[i].0) == forwarded_headers(headers)[i].0,
        exists|j: int|
            0 <= j < headers.len() && forwarded_headers(headers)[i] == (
                lowercase((#[trigger] headers[j]).0),
                encode_utf8(headers[j].1),
            ) && valid_header_value(headers[j].1),
{
    let kept = headers.filter(|h: (Seq<char>, Seq<char>)| forwarded_header(h.0, h.1));
    let h = kept[i];
    assert(kept.contains(h));
    lemma_filter_contains(
        headers,
        |h: (Seq<char>, Seq<char>)| forwarded_header(h.0, h.1),
        h,
    );
    law_stripped_ignores_case(h.0);
    lemma_lowercase_idempotent(h.0);
    assert forall|k: int| 0 <= k < h.0.len() implies is_token_char(#[trigger] lowercase(h.0)[k]) by {
        assert(is_token_char(h.0[k]));
    }
    let j = choose|j: int| 0 <= j < headers.len() && headers[j] == h;
    assert(headers[j] == h);
}

/// A header that is not to be left out and that HTTP allows is forwarded.
pub proof fn law_header_is_forwarded(headers: Seq<(Seq<char>, Seq<char>)>, j: int)
    requires
        0 <= j < headers.len(),
        !stripped_request_header(headers[j].0),
        valid_header_name(headers[j].0),
        valid_header_value(headers[j].1),
    ensures
        forwarded_headers(headers).contains((lowercase(headers[j].0), encode_utf8(headers[j].1))),
{
    let kept = headers.filter(|h: (Seq<char>, Seq<char>)| forwarded_header(h.0, h.1));
    let h = headers[j];
    lemma_filter_contains(
        headers,
        |h: (Seq<char>, Seq<char>)| forwarded_header(h.0, h.1),
        h,
    );
    let k = choose|k: int| 0 <= k < kept.len() && kept[k] == h;
    assert(forwarded_headers(headers)[k] == (lowercase(h.0), encode_utf8(h.1)));
}

/// Every request header is left out by rule, forwarded, or reported as dropped.
pub proof fn law_no_header_lost(headers: Seq<(Seq<char>, Seq<char>)>, j: int)
    requires
        0 <= j < headers.len(),
    ensures
        stripped_request_header(headers[j].0) || forwarded_headers(headers).contains(
            (lowercase(headers[j].0), encode_utf8(headers[j].1)),
        ) || dropped_names(headers).contains(headers[j].0),
{
    let h = headers[j];
    if forwarded_header(h.0, h.1) {
        law_header_is_forwarded(headers, j);
    } else if !stripped_request_header(h.0) {
        let dropped = headers.filter(|h: (Seq<char>, Seq<char>)| dropped_header(h.0, h.1));
        lemma_filter_contains(
            headers,
            |h: (Seq<char>, Seq<char>)| dropped_header(h.0, h.1),
            h,
        );
        let k = choose|k: int| 0 <= k < dropped.len() && dropped[k] == h;
        assert(dropped_names(headers)[k] == h.0);
    }
}

/// An answer holds exactly those headers of the response that are not to be left out.
pub proof fn law_kept_headers(
    headers: Seq<(Seq<char>, Seq<char>)>,
    header: (Seq<char>, Seq<char>),
)
    ensures
        kept_headers(headers).contains(header) <==> headers.contains(header)
            && !stripped_response_header(header.0),
{
    lemma_filter_contains(
        headers,
        |h: (Seq<char>, Seq<char>)| !stripped_response_header(h.0),
        header,
    );
}

} // verus!
