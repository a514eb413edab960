//! What is written and what is read, byte by byte and field by field.
//!
//! Each law says how a longer input relates to a shorter one, so that together they settle every
//! input.

use crate::laws::{
    law_bytes_field_roundtrip, law_field_prefix, law_fields_concat, law_varint_prefix,
    law_varint_roundtrip, lemma_single_field,
};
use crate::message::{
    all_header_entries, all_utf8, bytes_values, entry_texts, failure, header_entry_bytes,
    header_fields, header_texts, lemma_bytes_values_push, read_header_entry, read_request,
    read_request_frame, response_bytes, response_frame, ProxyRequest, ProxyResponse, RequestView,
    ResponseView,
};
use crate::text::lemma_encoding_empty;
use crate::wire::{
    base128, bytes_field, field_tag, lemma_read_field_len, lemma_read_value_len,
    lemma_read_varint_len, read_field, read_fields, read_value, read_varint, skip_span, u64_range,
    varint_bytes, varint_field, varint_len, varint_span, Field, FieldValue, Reader,
};
use vstd::arithmetic::div_mod::{lemma_fundamental_div_mod, lemma_mod_multiples_vanish};
use vstd::prelude::*;
use vstd::utf8::{
    decode_utf8, encode_utf8, encode_utf8_decode_utf8, encode_utf8_valid_utf8, valid_utf8,
};

verus! {

proof fn lemma_mod_tail(low: int, whole: int, range: int)
    requires
        range > 0,
    ensures
        (low + 128 * whole) % range == (low + 128 * (whole % range)) % range,
{
    let q = whole / range;
    let v = whole % range;
    lemma_fundamental_div_mod(whole, range);
    assert(low + 128 * whole == (128 * q) * range + (low + 128 * v)) by (nonlinear_arith)
        requires
            whole == range * q + v,
    ;
    lemma_mod_multiples_vanish(128 * q, low + 128 * v, range);
    assert(range * (128 * q) == (128 * q) * range) by (nonlinear_arith);
}

/// No varint can be read from nothing. A byte below 128 is a varint of its own. Any other byte
/// puts its low seven bits below the varint that follows it, which may have nine bytes at most.
pub proof fn law_varint_read_step(first: u8, rest: Seq<u8>)
    ensures
        read_varint(Seq::empty()) is None,
        read_varint(seq![first] + rest) == if first < 128 {
            Some((first as u64, 1int))
        } else {
            match read_varint(rest) {
                Some((value, n)) => if n <= 9 {
                    Some(
                        (
                            ((first - 128 + 128 * value) % 0x1_0000_0000_0000_0000) as u64,
                            n + 1,
                        ),
                    )
                } else {
                    None
                },
                None => None,
            }
        },
{
    let s = seq![first] + rest;
    assert(s.drop_first() =~= rest);
    if first < 128 {
        let t = s.take(1);
        assert(t.drop_first() =~= Seq::empty());
        assert(base128(t.drop_first()) == 0);
    } else {
        let n = varint_len(rest) as int;
        if n <= rest.len() && n <= 9 {
            let t = s.take(n + 1);
            assert(t.drop_first() =~= rest.take(n));
            lemma_mod_tail((first % 128) as int, base128(rest.take(n)) as int, u64_range());
        }
    }
}

/// A number below 128 is written as one byte. Any other is written as its low seven bits with the
/// top bit set, followed by the rest of its bits.
pub proof fn law_varint_write_step(value: u64)
    ensures
        value < 128 ==> varint_bytes(value) == seq![value as u8],
        value >= 128 ==> varint_bytes(value) == seq![(128 + value % 128) as u8] + varint_bytes(
            value / 128,
        ),
{
}

/// A varint that can be read is moved past; an attempt that fails ends with the input or after
/// eleven bytes.
pub proof fn law_varint_span(s: Seq<u8>)
    ensures
        match read_varint(s) {
            Some((_, n)) => varint_span(s) == n && 1 <= n <= 10 && n <= s.len(),
            None => varint_span(s) == if s.len() <= 11 {
                s.len() as int
            } else {
                11
            },
        },
{
    lemma_read_varint_len(s);
}

/// What a value of each wire type is. The bytes of a length-delimited value stand right behind
/// their length.
pub proof fn law_read_value(s: Seq<u8>, wire_type: u64)
    ensures
        wire_type == 0 ==> match read_varint(s) {
            Some((value, n)) => read_value(s, wire_type) == Some((FieldValue::Varint(value), n)),
            None => read_value(s, wire_type) is None,
        },
        wire_type == 1 ==> if s.len() < 8 {
            read_value(s, wire_type) is None
        } else {
            read_value(s, wire_type) == Some((FieldValue::Fixed64(s.subrange(0, 8)), 8int))
        },
        wire_type == 2 ==> match read_varint(s) {
            Some((len, n)) => if s.len() - n < (len as usize) {
                read_value(s, wire_type) is None
            } else {
                read_value(s, wire_type) == Some(
                    (
                        FieldValue::Bytes(s.subrange(n, n + (len as usize))),
                        n + (len as usize),
                    ),
                )
            },
            None => read_value(s, wire_type) is None,
        },
        wire_type == 5 ==> if s.len() < 4 {
            read_value(s, wire_type) is None
        } else {
            read_value(s, wire_type) == Some((FieldValue::Fixed32(s.subrange(0, 4)), 4int))
        },
        wire_type != 0 && wire_type != 1 && wire_type != 2 && wire_type != 5 ==> read_value(
            s,
            wire_type,
        ) is None,
{
}

/// A length followed by at least that many bytes is read as those bytes.
pub proof fn law_bytes_value_layout(len: u64, s: Seq<u8>)
    requires
        len <= usize::MAX,
        len <= s.len(),
    ensures
        read_value(varint_bytes(len) + s, 2) == Some(
            (FieldValue::Bytes(s.take(len as int)), varint_bytes(len).len() + len),
        ),
{
    law_varint_roundtrip(len, s);
    let n = varint_bytes(len).len() as int;
    assert((varint_bytes(len) + s).subrange(n, n + len) =~= s.take(len as int));
}

/// Skipping moves past the value that would be read. Where there is none it moves past the varint
/// that a varint or a length-delimited value starts with, and else stays.
pub proof fn law_skip_span(s: Seq<u8>, wire_type: u64)
    ensures
        match read_value(s, wire_type) {
            Some((_, n)) => skip_span(s, wire_type) == n && 0 <= n <= s.len(),
            None => skip_span(s, wire_type) == if wire_type == 0 || wire_type == 2 {
                varint_span(s)
            } else {
                0
            },
        },
{
    lemma_read_value_len(s, wire_type);
}

/// A tag followed by a value of its wire type is a field with the tag's number. Without a tag or
/// without such a value there is no field.
pub proof fn law_read_field_layout(tag_bytes: Seq<u8>, tag: u64, rest: Seq<u8>)
    requires
        read_varint(tag_bytes) == Some((tag, tag_bytes.len() as int)),
    ensures
        read_field(tag_bytes + rest) == match read_value(rest, tag % 8) {
            Some((value, n)) => Some((Field { number: tag / 8, value }, tag_bytes.len() + n)),
            None => None,
        },
{
    law_varint_prefix(tag_bytes, rest);
    assert((tag_bytes + rest).skip(tag_bytes.len() as int) =~= rest);
}

/// There is no field where there is no tag.
pub proof fn law_no_tag_no_field(s: Seq<u8>)
    requires
        read_varint(s) is None,
    ensures
        read_field(s) is None,
{
}

/// Nothing is a run of no fields; a field in front of other bytes comes first among the fields
/// that they are read as; and bytes that do not start with a field are no run of fields.
pub proof fn law_read_fields_step(s: Seq<u8>)
    ensures
        read_fields(Seq::empty()) == Some(Seq::<Field>::empty()),
        s.len() > 0 ==> match read_field(s) {
            Some((field, n)) => read_fields(s) == match read_fields(
                s.subrange(n, s.len() as int),
            ) {
                Some(fields) => Some(seq![field] + fields),
                None => None,
            },
            None => read_fields(s) is None,
        },
{
    lemma_read_field_len(s);
    if let Some((_, n)) = read_field(s) {
        assert(s.skip(n) =~= s.subrange(n, s.len() as int));
    }
}

/// A reader has the bytes from its position on still to read.
pub proof fn law_reader_rest(r: Reader)
    ensures
        r.pos <= r.buf@.len() ==> r.rest() == r.buf@.subrange(r.pos as int, r.buf@.len() as int),
        r.pos > r.buf@.len() ==> r.rest() == Seq::<u8>::empty(),
{
    if r.pos <= r.buf@.len() {
        assert(r.rest() =~= r.buf@.subrange(r.pos as int, r.buf@.len() as int));
    }
}

/// A tag holds the field's number above the three bits of the wire type.
pub proof fn law_field_tag(number: u64, wire_type: u64)
    requires
        wire_type < 8,
    ensures
        field_tag(number, wire_type) == (8 * number) % 0x1_0000_0000_0000_0000 + wire_type,
        field_tag(number, wire_type) % 8 == wire_type,
        number < 0x2000_0000_0000_0000 ==> field_tag(number, wire_type) / 8 == number,
{
}

/// A varint field is its tag and the number, and a length-delimited field its tag, the number of
/// bytes and the bytes themselves, with nothing in between.
pub proof fn law_field_layout(number: u64, value: u64, data: Seq<u8>)
    ensures
        varint_field(number, value) == varint_bytes(field_tag(number, 0)) + varint_bytes(value),
        bytes_field(number, data) == varint_bytes(field_tag(number, 2)) + varint_bytes(
            data.len() as u64,
        ) + data,
        bytes_field(number, data).len() == varint_bytes(field_tag(number, 2)).len() + varint_bytes(
            data.len() as u64,
        ).len() + data.len(),
        bytes_field(number, data).subrange(
            bytes_field(number, data).len() - data.len(),
            bytes_field(number, data).len() as int,
        ) == data,
{
    let s = bytes_field(number, data);
    assert(s.subrange(s.len() - data.len(), s.len() as int) =~= data);
}

/// A request says what its fields hold.
pub proof fn law_request_view(req: ProxyRequest)
    ensures
        req@.method == req.method@,
        req@.path == req.path@,
        req@.headers.len() == req.headers@.len(),
        forall|i: int|
            0 <= i < req.headers@.len() ==> #[trigger] req@.headers[i] == (
                req.headers@[i].0@,
                req.headers@[i].1@,
            ),
        req@.body == req.body@,
{
}

/// A response says what its fields hold.
pub proof fn law_response_view(resp: ProxyResponse)
    ensures
        resp@.status == resp.status,
        resp@.headers.len() == resp.headers@.len(),
        forall|i: int|
            0 <= i < resp.headers@.len() ==> #[trigger] resp@.headers[i] == (
                resp.headers@[i].0@,
                resp.headers@[i].1@,
            ),
        resp@.body == resp.body@,
        resp@.error == resp.error@,
{
}

/// The texts of a list of headers are those of each header, in order.
pub proof fn law_header_texts(headers: Seq<(String, String)>)
    ensures
        header_texts(headers).len() == headers.len(),
        forall|i: int|
            0 <= i < headers.len() ==> #[trigger] header_texts(headers)[i] == (
                headers[i].0@,
                headers[i].1@,
            ),
{
}

/// A failure has no status, no headers and no body, and says why.
pub proof fn law_failure(error: Seq<char>)
    ensures
        failure(error).status == 0,
        failure(error).headers.len() == 0,
        failure(error).body.len() == 0,
        failure(error).error == error,
{
}

proof fn lemma_all_utf8_push(values: Seq<Seq<u8>>, data: Seq<u8>)
    ensures
        all_utf8(values.push(data)) <==> all_utf8(values) && valid_utf8(data),
{
    let grown = values.push(data);
    assert(grown[values.len() as int] == data);
    assert forall|i: int| 0 <= i < values.len() implies values[i] == #[trigger] grown[i] by {}
    if all_utf8(grown) {
        assert forall|i: int| 0 <= i < values.len() implies #[trigger] valid_utf8(values[i]) by {
            assert(valid_utf8(grown[i]));
        }
        assert(valid_utf8(grown[values.len() as int]));
    }
}

proof fn lemma_all_entries_push(entries: Seq<Seq<u8>>, data: Seq<u8>)
    ensures
        all_header_entries(entries.push(data)) <==> all_header_entries(entries)
            && read_header_entry(data) is Some,
        read_header_entry(data) is Some ==> entry_texts(entries.push(data)) == entry_texts(
            entries,
        ).push(read_header_entry(data)->0),
{
    let grown = entries.push(data);
    assert(grown[entries.len() as int] == data);
    assert forall|i: int| 0 <= i < entries.len() implies entries[i] == #[trigger] grown[i] by {}
    if all_header_entries(grown) {
        assert forall|i: int| 0 <= i < entries.len() implies #[trigger] read_header_entry(
            entries[i],
        ) is Some by {
            assert(read_header_entry(grown[i]) is Some);
        }
        assert(read_header_entry(grown[entries.len() as int]) is Some);
    }
    assert(entry_texts(grown) =~= entry_texts(entries).push(read_header_entry(data)->0));
}

/// The fields of a run that grows by one field.
proof fn lemma_fields_grow(payload: Seq<u8>, more: Seq<u8>, field: Field)
    requires
        read_fields(payload) is Some,
        read_field(more) == Some((field, more.len() as int)),
    ensures
        read_fields(payload + more) == Some((read_fields(payload)->0).push(field)),
{
    lemma_single_field(more, field);
    law_fields_concat(payload, more);
    assert(read_fields(payload)->0 + seq![field] =~= (read_fields(payload)->0).push(field));
}

/// An entry of nothing has an empty name and value. A field 1 that follows an entry gives it
/// another name and a field 2 another value, if they are text; any other field changes nothing.
pub proof fn law_header_entry_step(payload: Seq<u8>, more: Seq<u8>, field: Field)
    requires
        read_header_entry(payload) is Some,
        read_field(more) == Some((field, more.len() as int)),
    ensures
        read_header_entry(Seq::empty()) == Some((Seq::<char>::empty(), Seq::<char>::empty())),
        read_header_entry(payload + more) == match field.value {
            FieldValue::Bytes(data) => if field.number == 1 {
                if valid_utf8(data) {
                    Some((decode_utf8(data), (read_header_entry(payload)->0).1))
                } else {
                    None
                }
            } else if field.number == 2 {
                if valid_utf8(data) {
                    Some(((read_header_entry(payload)->0).0, decode_utf8(data)))
                } else {
                    None
                }
            } else {
                read_header_entry(payload)
            },
            _ => read_header_entry(payload),
        },
{
    lemma_fields_grow(payload, more, field);
    let fields = read_fields(payload)->0;
    lemma_bytes_values_push(fields, field, 1);
    lemma_bytes_values_push(fields, field, 2);
    if let FieldValue::Bytes(data) = field.value {
        lemma_all_utf8_push(bytes_values(fields, 1), data);
        lemma_all_utf8_push(bytes_values(fields, 2), data);
    }
    lemma_empty_header_entry();
}

proof fn lemma_empty_header_entry()
    ensures
        read_header_entry(Seq::empty()) == Some((Seq::<char>::empty(), Seq::<char>::empty())),
{
    assert(read_fields(Seq::empty()) == Some(Seq::<Field>::empty()));
    assert(bytes_values(Seq::empty(), 1) =~= Seq::empty());
    assert(bytes_values(Seq::empty(), 2) =~= Seq::empty());
    assert(decode_utf8(Seq::empty()) =~= Seq::<char>::empty());
}

/// Bytes that are not whole fields are no header entry, and what is none does not become one by
/// further fields.
pub proof fn law_header_entry_refused(payload: Seq<u8>, more: Seq<u8>, field: Field)
    ensures
        read_fields(payload) is None ==> read_header_entry(payload) is None,
        read_fields(payload) is Some && read_header_entry(payload) is None && read_field(more)
            == Some((field, more.len() as int)) ==> read_header_entry(payload + more) is None,
{
    if read_fields(payload) is Some && read_header_entry(payload) is None && read_field(more)
        == Some((field, more.len() as int)) {
        lemma_fields_grow(payload, more, field);
        let fields = read_fields(payload)->0;
        lemma_bytes_values_push(fields, field, 1);
        lemma_bytes_values_push(fields, field, 2);
        if let FieldValue::Bytes(data) = field.value {
            lemma_all_utf8_push(bytes_values(fields, 1), data);
            lemma_all_utf8_push(bytes_values(fields, 2), data);
        }
    }
}

/// The name of a header entry is what its field 1 holds and the value what its field 2 holds, in
/// either order.
pub proof fn law_header_entry_fields(name: Seq<char>, value: Seq<char>)
    requires
        encode_utf8(name).len() <= usize::MAX,
        encode_utf8(value).len() <= usize::MAX,
    ensures
        read_header_entry(bytes_field(1, encode_utf8(name)) + bytes_field(2, encode_utf8(value)))
            == Some((name, value)),
        read_header_entry(bytes_field(2, encode_utf8(value)) + bytes_field(1, encode_utf8(name)))
            == Some((name, value)),
{
    let n = encode_utf8(name);
    let v = encode_utf8(value);
    let a = bytes_field(1, n);
    let b = bytes_field(2, v);
    let empty = Seq::<u8>::empty();
    law_bytes_field_roundtrip(1, n, empty);
    law_bytes_field_roundtrip(2, v, empty);
    assert(a + empty =~= a);
    assert(b + empty =~= b);
    assert(empty + a =~= a);
    assert(empty + b =~= b);
    let fa = Field { number: 1, value: FieldValue::Bytes(n) };
    let fb = Field { number: 2, value: FieldValue::Bytes(v) };
    lemma_empty_header_entry();
    encode_utf8_valid_utf8(name);
    encode_utf8_valid_utf8(value);
    encode_utf8_decode_utf8(name);
    encode_utf8_decode_utf8(value);
    law_header_entry_step(empty, a, fa);
    law_header_entry_step(a, b, fb);
    law_header_entry_step(empty, b, fb);
    law_header_entry_step(b, a, fa);
}

/// A request of nothing is empty. A field 1, 2 or 4 that follows a request gives it another
/// method, path or body, and a field 3 one more header, up to 64 in all; method and path must be
/// text and the header an entry. Any other field changes nothing.
pub proof fn law_request_step(payload: Seq<u8>, more: Seq<u8>, field: Field)
    requires
        read_request(payload) is Some,
        read_field(more) == Some((field, more.len() as int)),
    ensures
        ({
            let req = read_request(payload)->0;
            read_request(payload + more) == match field.value {
                FieldValue::Bytes(data) => if field.number == 1 {
                    if valid_utf8(data) {
                        Some(
                            RequestView {
                                method: decode_utf8(data),
                                path: req.path,
                                headers: req.headers,
                                body: req.body,
                            },
                        )
                    } else {
                        None
                    }
                } else if field.number == 2 {
                    if valid_utf8(data) {
                        Some(
                            RequestView {
                                method: req.method,
                                path: decode_utf8(data),
                                headers: req.headers,
                                body: req.body,
                            },
                        )
                    } else {
                        None
                    }
                } else if field.number == 3 {
                    match read_header_entry(data) {
                        Some(header) => if req.headers.len() < 64 {
                            Some(
                                RequestView {
                                    method: req.method,
                                    path: req.path,
                                    headers: req.headers.push(header),
                                    body: req.body,
                                },
                            )
                        } else {
                            None
                        },
                        None => None,
                    }
                } else if field.number == 4 {
                    Some(
                        RequestView {
                            method: req.method,
                            path: req.path,
                            headers: req.headers,
                            body: data,
                        },
                    )
                } else {
                    Some(req)
                },
                _ => Some(req),
            }
        }),
{
    lemma_fields_grow(payload, more, field);
    let fields = read_fields(payload)->0;
    lemma_bytes_values_push(fields, field, 1);
    lemma_bytes_values_push(fields, field, 2);
    lemma_bytes_values_push(fields, field, 3);
    lemma_bytes_values_push(fields, field, 4);
    if let FieldValue::Bytes(data) = field.value {
        lemma_all_utf8_push(bytes_values(fields, 1), data);
        lemma_all_utf8_push(bytes_values(fields, 2), data);
        lemma_all_entries_push(bytes_values(fields, 3), data);
    }
}

/// A payload without fields is the empty request.
pub proof fn law_request_of_nothing()
    ensures
        read_request(Seq::empty()) == Some(
            RequestView {
                method: Seq::empty(),
                path: Seq::empty(),
                headers: Seq::empty(),
                body: Seq::empty(),
            },
        ),
{
    assert(read_fields(Seq::empty()) == Some(Seq::<Field>::empty()));
    assert(bytes_values(Seq::empty(), 1) =~= Seq::empty());
    assert(bytes_values(Seq::empty(), 2) =~= Seq::empty());
    assert(bytes_values(Seq::empty(), 3) =~= Seq::empty());
    assert(bytes_values(Seq::empty(), 4) =~= Seq::empty());
    assert(decode_utf8(Seq::empty()) =~= Seq::<char>::empty());
    assert(entry_texts(Seq::empty()) =~= Seq::empty());
}

/// Bytes that are not whole fields are no request, and what is none does not become one by
/// further fields.
pub proof fn law_request_refused(payload: Seq<u8>, more: Seq<u8>, field: Field)
    ensures
        read_fields(payload) is None ==> read_request(payload) is None,
        read_fields(payload) is Some && read_request(payload) is None && read_field(more) == Some(
            (field, more.len() as int),
        ) ==> read_request(payload + more) is None,
{
    if read_fields(payload) is Some && read_request(payload) is None && read_field(more) == Some(
        (field, more.len() as int),
    ) {
        lemma_fields_grow(payload, more, field);
        let fields = read_fields(payload)->0;
        lemma_bytes_values_push(fields, field, 1);
        lemma_bytes_values_push(fields, field, 2);
        lemma_bytes_values_push(fields, field, 3);
        if let FieldValue::Bytes(data) = field.value {
            lemma_all_utf8_push(bytes_values(fields, 1), data);
            lemma_all_utf8_push(bytes_values(fields, 2), data);
            lemma_all_entries_push(bytes_values(fields, 3), data);
        }
    }
}

/// A message of at most 2 MiB is read by its first field: number zero ends the search, a
/// length-delimited field 27 holds the request, and after any other field the search goes on.
pub proof fn law_frame_step(first: Seq<u8>, field: Field, rest: Seq<u8>)
    requires
        read_field(first) == Some((field, first.len() as int)),
        (first + rest).len() <= 2097152,
    ensures
        read_request_frame(first + rest) == if field.number == 0 {
            None
        } else if field.number == 27 && field.value is Bytes {
            read_request(field.value->Bytes_0)
        } else {
            read_request_frame(rest)
        },
{
    law_field_prefix(first, rest);
    lemma_read_field_len(first);
    assert((first + rest).skip(first.len() as int) =~= rest);
}

/// Nothing is read from a message that is longer than 2 MiB or does not start with a field.
pub proof fn law_frame_refused(bytes: Seq<u8>)
    requires
        bytes.len() > 2097152 || read_field(bytes) is None,
    ensures
        read_request_frame(bytes) is None,
{
}

/// A header entry is laid out as its name and then its value, each left out when empty.
pub proof fn law_header_entry_layout(name: Seq<char>, value: Seq<char>)
    ensures
        header_entry_bytes(Seq::empty(), Seq::empty()) == Seq::<u8>::empty(),
        name.len() > 0 ==> header_entry_bytes(name, Seq::empty()) == bytes_field(
            1,
            encode_utf8(name),
        ),
        value.len() > 0 ==> header_entry_bytes(Seq::empty(), value) == bytes_field(
            2,
            encode_utf8(value),
        ),
        header_entry_bytes(name, value) == header_entry_bytes(name, Seq::empty())
            + header_entry_bytes(Seq::empty(), value),
{
    let none = Seq::<char>::empty();
    lemma_encoding_empty(name);
    lemma_encoding_empty(value);
    lemma_encoding_empty(none);
    assert(header_entry_bytes(none, none) =~= Seq::<u8>::empty());
    if name.len() > 0 {
        assert(header_entry_bytes(name, none) =~= bytes_field(1, encode_utf8(name)));
    }
    if value.len() > 0 {
        assert(header_entry_bytes(none, value) =~= bytes_field(2, encode_utf8(value)));
    }
    assert(header_entry_bytes(name, value) =~= header_entry_bytes(name, none)
        + header_entry_bytes(none, value));
}

/// A response travels as field 28. It is laid out as its status, its headers, its body and its
/// error, each as if it stood alone.
pub proof fn law_response_parts(response: ResponseView)
    ensures
        response_frame(response) == bytes_field(28, response_bytes(response)),
        response_bytes(response) == response_bytes(
            ResponseView {
                status: response.status,
                headers: Seq::empty(),
                body: Seq::empty(),
                error: Seq::empty(),
            },
        ) + response_bytes(
            ResponseView {
                status: 0,
                headers: response.headers,
                body: Seq::empty(),
                error: Seq::empty(),
            },
        ) + response_bytes(
            ResponseView {
                status: 0,
                headers: Seq::empty(),
                body: response.body,
                error: Seq::empty(),
            },
        ) + response_bytes(
            ResponseView {
                status: 0,
                headers: Seq::empty(),
                body: Seq::empty(),
                error: response.error,
            },
        ),
{
    let none = Seq::<char>::empty();
    let no_headers = Seq::<(Seq<char>, Seq<char>)>::empty();
    let no_body = Seq::<u8>::empty();
    lemma_encoding_empty(none);
    assert(header_fields(2, no_headers) =~= no_body);
    let a = response_bytes(
        ResponseView { status: response.status, headers: no_headers, body: no_body, error: none },
    );
    let b = response_bytes(
        ResponseView { status: 0, headers: response.headers, body: no_body, error: none },
    );
    let c = response_bytes(
        ResponseView { status: 0, headers: no_headers, body: response.body, error: none },
    );
    let d = response_bytes(
        ResponseView { status: 0, headers: no_headers, body: no_body, error: response.error },
    );
    assert(response_bytes(response) =~= a + b + c + d);
}

/// A status alone is a varint field 1 with its sign in the upper bits, and nothing when it is
/// zero.
pub proof fn law_status_layout(status: i32)
    ensures
        ({
            let bytes = response_bytes(
                ResponseView {
                    status,
                    headers: Seq::empty(),
                    body: Seq::empty(),
                    error: Seq::empty(),
                },
            );
            &&& status == 0 ==> bytes == Seq::<u8>::empty()
            &&& status > 0 ==> bytes == seq![0x08u8] + varint_bytes(status as u64)
            &&& status < 0 ==> bytes == seq![0x08u8] + varint_bytes(
                (0x1_0000_0000_0000_0000 + status) as u64,
            )
        }),
{
    let none = Seq::<char>::empty();
    lemma_encoding_empty(none);
    let view = ResponseView { status, headers: Seq::empty(), body: Seq::empty(), error: none };
    assert(header_fields(2, view.headers) =~= Seq::<u8>::empty());
    assert(field_tag(1, 0) == 8);
    assert(varint_bytes(8) =~= seq![0x08u8]);
    if status == 0 {
        assert(response_bytes(view) =~= Seq::<u8>::empty());
    } else if status > 0 {
        assert(response_bytes(view) =~= seq![0x08u8] + varint_bytes(status as u64));
    } else {
        assert(response_bytes(view) =~= seq![0x08u8] + varint_bytes(
            (0x1_0000_0000_0000_0000 + status) as u64,
        ));
    }
}

/// Each header alone is a field 2 that holds its entry, in order; a body alone is a field 3 and
/// an error alone a field 4, and nothing when empty.
pub proof fn law_response_part_layout(
    headers: Seq<(Seq<char>, Seq<char>)>,
    header: (Seq<char>, Seq<char>),
    body: Seq<u8>,
    error: Seq<char>,
)
    ensures
        response_bytes(
            ResponseView {
                status: 0,
                headers: headers.push(header),
                body: Seq::empty(),
                error: Seq::empty(),
            },
        ) == response_bytes(
            ResponseView { status: 0, headers, body: Seq::empty(), error: Seq::empty() },
        ) + bytes_field(2, header_entry_bytes(header.0, header.1)),
        body.len() > 0 ==> response_bytes(
            ResponseView { status: 0, headers: Seq::empty(), body, error: Seq::empty() },
        ) == bytes_field(3, body),
        error.len() > 0 ==> response_bytes(
            ResponseView { status: 0, headers: Seq::empty(), body: Seq::empty(), error },
        ) == bytes_field(4, encode_utf8(error)),
{
    let none = Seq::<char>::empty();
    let no_headers = Seq::<(Seq<char>, Seq<char>)>::empty();
    let no_body = Seq::<u8>::empty();
    lemma_encoding_empty(none);
    lemma_encoding_empty(error);
    assert(header_fields(2, no_headers) =~= no_body);
    assert(headers.push(header).drop_last() =~= headers);
    assert(response_bytes(
        ResponseView { status: 0, headers: headers.push(header), body: no_body, error: none },
    ) =~= response_bytes(ResponseView { status: 0, headers, body: no_body, error: none })
        + bytes_field(2, header_entry_bytes(header.0, header.1)));
    if body.len() > 0 {
        assert(response_bytes(
            ResponseView { status: 0, headers: no_headers, body, error: none },
        ) =~= bytes_field(3, body));
    }
    if error.len() > 0 {
        assert(response_bytes(
            ResponseView { status: 0, headers: no_headers, body: no_body, error },
        ) =~= bytes_field(4, encode_utf8(error)));
    }
}

} // verus!
