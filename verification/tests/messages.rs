use http_proxy::message::{
    encode_header_entry, encode_response_frame, parse_header_entry, parse_request_frame,
    ProxyRequest, ProxyResponse, HTTP_PROXY_REQUEST_FIELD, HTTP_PROXY_RESPONSE_FIELD,
};
use http_proxy::wire::{write_bytes_field, write_varint, Reader};

fn encode_test_request(req: &ProxyRequest) -> Vec<u8> {
    let mut payload = Vec::new();
    if !req.method.is_empty() {
        write_bytes_field(&mut payload, 1, req.method.as_bytes());
    }
    if !req.path.is_empty() {
        write_bytes_field(&mut payload, 2, req.path.as_bytes());
    }
    for (name, value) in &req.headers {
        write_bytes_field(&mut payload, 3, &encode_header_entry(name, value));
    }
    if !req.body.is_empty() {
        write_bytes_field(&mut payload, 4, &req.body);
    }
    let mut out = Vec::new();
    write_bytes_field(&mut out, HTTP_PROXY_REQUEST_FIELD, &payload);
    out
}

fn parse_response_frame(bytes: &[u8]) -> Option<(i64, Vec<(String, String)>, Vec<u8>, String)> {
    let mut r = Reader::new(bytes);
    let tag = r.varint()?;
    if (tag >> 3, tag & 7) != (HTTP_PROXY_RESPONSE_FIELD, 2) {
        return None;
    }
    let payload = r.length_delimited()?;
    let mut status = 0i64;
    let mut headers = Vec::new();
    let mut body = Vec::new();
    let mut error = String::new();
    let mut r = Reader::new(payload);
    while r.pos < r.buf.len() {
        let tag = r.varint()?;
        let wire_type = tag & 7;
        match tag >> 3 {
            1 if wire_type == 0 => status = r.varint()? as i64,
            2 if wire_type == 2 => headers.push(parse_header_entry(r.length_delimited()?)?),
            3 if wire_type == 2 => body = r.length_delimited()?.to_vec(),
            4 if wire_type == 2 => {
                error = std::str::from_utf8(r.length_delimited()?).ok()?.to_owned()
            }
            _ => r.skip(wire_type)?,
        }
    }
    Some((status, headers, body, error))
}

#[test]
fn request_roundtrip() {
    let req = ProxyRequest {
        method: "POST".to_owned(),
        path: "/api/currentUser".to_owned(),
        headers: vec![
            ("Content-Type".to_owned(), "application/json".to_owned()),
            ("Authorization".to_owned(), "Bearer abc".to_owned()),
        ],
        body: b"{\"a\":1}".to_vec(),
    };
    let parsed = parse_request_frame(&encode_test_request(&req)).unwrap();
    assert_eq!(parsed.method, "POST");
    assert_eq!(parsed.path, "/api/currentUser");
    assert_eq!(parsed.headers, req.headers);
    assert_eq!(parsed.body, req.body);
}

fn empty_request() -> ProxyRequest {
    ProxyRequest {
        method: String::new(),
        path: String::new(),
        headers: Vec::new(),
        body: Vec::new(),
    }
}

#[test]
fn envelope_tag_bytes() {
    assert_eq!(&encode_test_request(&empty_request())[..2], &[0xDA, 0x01]);
    let frame = encode_response_frame(&ProxyResponse::default());
    assert_eq!(&frame[..2], &[0xE2, 0x01]);
}

#[test]
fn skips_unknown_envelope_fields() {
    let mut frame = Vec::new();
    // an unrelated known-ish field (register-peer style, field 1) must not match
    write_bytes_field(&mut frame, 1, b"ignored");
    // a varint unknown field, must be skipped
    write_varint(&mut frame, (99 << 3) | 0);
    write_varint(&mut frame, 7);
    frame.extend_from_slice(&encode_test_request(&ProxyRequest {
        method: "GET".to_owned(),
        path: "/api/x".to_owned(),
        headers: Vec::new(),
        body: Vec::new(),
    }));
    let parsed = parse_request_frame(&frame).unwrap();
    assert_eq!(parsed.path, "/api/x");
}

#[test]
fn rejects_malformed() {
    // no field 27 at all
    assert!(parse_request_frame(&write_bytes_field_owned(3, b"hello")).is_none());
    // truncated length-delimited payload
    let mut bad = Vec::new();
    write_varint(&mut bad, (HTTP_PROXY_REQUEST_FIELD << 3) | 2);
    write_varint(&mut bad, 100);
    bad.extend_from_slice(b"short");
    assert!(parse_request_frame(&bad).is_none());
    // garbage field number 0
    assert!(parse_request_frame(&[0x00, 0x00]).is_none());
}

fn write_bytes_field_owned(field: u64, data: &[u8]) -> Vec<u8> {
    let mut out = Vec::new();
    write_bytes_field(&mut out, field, data);
    out
}

#[test]
fn response_roundtrip() {
    let resp = ProxyResponse {
        status: 404,
        headers: vec![("content-type".to_owned(), "application/json".to_owned())],
        body: b"{\"msg\":\"not found\"}".to_vec(),
        error: String::new(),
    };
    let (status, headers, body, error) =
        parse_response_frame(&encode_response_frame(&resp)).unwrap();
    assert_eq!(status, 404);
    assert_eq!(headers, resp.headers);
    assert_eq!(body, resp.body);
    assert_eq!(error, "");
}

#[test]
fn response_failure_carries_error() {
    let resp = ProxyResponse::failed("connection refused");
    let (status, _, body, error) = parse_response_frame(&encode_response_frame(&resp)).unwrap();
    assert_eq!(status, 0);
    assert!(body.is_empty());
    assert_eq!(error, "connection refused");
}

fn frame(payload: &[u8]) -> Vec<u8> {
    write_bytes_field_owned(HTTP_PROXY_REQUEST_FIELD, payload)
}

#[test]
fn header_entries_read_back() {
    for (name, value) in [("", ""), ("Accept", ""), ("", "x"), ("X-Name", "\u{e9}\u{1f600}")] {
        let entry = encode_header_entry(name, value);
        assert_eq!(
            parse_header_entry(&entry),
            Some((name.to_owned(), value.to_owned()))
        );
    }
    assert_eq!(encode_header_entry("a", "bc"), vec![0x0a, 1, b'a', 0x12, 2, b'b', b'c']);
    assert_eq!(encode_header_entry("", ""), Vec::<u8>::new());
}

#[test]
fn header_entry_rules() {
    // the last value counts, unknown fields do not
    let mut entry = encode_header_entry("a", "b");
    write_varint(&mut entry, 3 << 3);
    write_varint(&mut entry, 5);
    write_bytes_field(&mut entry, 1, b"c");
    assert_eq!(
        parse_header_entry(&entry),
        Some(("c".to_owned(), "b".to_owned()))
    );
    // text that is not UTF-8, even where a later value takes its place
    let mut entry = write_bytes_field_owned(1, &[0xff]);
    write_bytes_field(&mut entry, 1, b"ok");
    assert_eq!(parse_header_entry(&entry), None);
    assert_eq!(parse_header_entry(&write_bytes_field_owned(2, &[0xc0, 0x80])), None);
    // a field that is cut off
    assert_eq!(parse_header_entry(&[0x0a, 5, b'a']), None);
}

#[test]
fn request_field_rules() {
    // the last value counts
    let mut payload = write_bytes_field_owned(1, b"GET");
    write_bytes_field(&mut payload, 2, b"/a");
    write_bytes_field(&mut payload, 4, b"one");
    write_bytes_field(&mut payload, 1, b"PUT");
    write_bytes_field(&mut payload, 2, b"/b");
    write_bytes_field(&mut payload, 4, b"two");
    let req = parse_request_frame(&frame(&payload)).unwrap();
    assert_eq!((req.method.as_str(), req.path.as_str()), ("PUT", "/b"));
    assert_eq!(req.body, b"two");
    // fields that are not known are skipped, also those with a known number and another type
    let mut payload = vec![0x08, 0x05, 0x15, 1, 2, 3, 4, 0x19, 1, 2, 3, 4, 5, 6, 7, 8];
    write_bytes_field(&mut payload, 9, b"unknown");
    write_bytes_field(&mut payload, 2, b"/c");
    let req = parse_request_frame(&frame(&payload)).unwrap();
    assert_eq!((req.method.as_str(), req.path.as_str()), ("", "/c"));
    assert!(req.headers.is_empty());
    // text must be UTF-8, a body need not be
    assert!(parse_request_frame(&frame(&write_bytes_field_owned(1, &[0x80]))).is_none());
    assert!(parse_request_frame(&frame(&write_bytes_field_owned(2, &[0xed, 0xa0, 0x80]))).is_none());
    let req = parse_request_frame(&frame(&write_bytes_field_owned(4, &[0x80]))).unwrap();
    assert_eq!(req.body, vec![0x80]);
    // a header entry that is none
    assert!(parse_request_frame(&frame(&write_bytes_field_owned(3, &[0x0a]))).is_none());
}

#[test]
fn header_count_limit() {
    let mut req = empty_request();
    for i in 0..64 {
        req.headers.push((format!("h{}", i), i.to_string()));
    }
    let parsed = parse_request_frame(&encode_test_request(&req)).unwrap();
    assert_eq!(parsed.headers, req.headers);
    req.headers.push(("h64".to_owned(), "64".to_owned()));
    assert!(parse_request_frame(&encode_test_request(&req)).is_none());
}

#[test]
fn frame_size_limit() {
    // tag, length and body tag take up 2 + 3 + 1 + 3 bytes
    let limit = 2 * 1024 * 1024;
    let mut req = empty_request();
    req.body = vec![7; limit - 9];
    let frame = encode_test_request(&req);
    assert_eq!(frame.len(), limit);
    assert_eq!(parse_request_frame(&frame).unwrap().body.len(), limit - 9);
    req.body.push(7);
    let frame = encode_test_request(&req);
    assert_eq!(frame.len(), limit + 1);
    assert!(parse_request_frame(&frame).is_none());
    assert!(parse_request_frame(&[]).is_none());
}

#[test]
fn only_the_first_request_counts() {
    let mut req = empty_request();
    req.path = "/api/first".to_owned();
    let mut bytes = encode_test_request(&req);
    req.path = "/api/second".to_owned();
    bytes.extend_from_slice(&encode_test_request(&req));
    // what follows the request is not looked at
    bytes.extend_from_slice(&[0x00, 0xff]);
    assert_eq!(parse_request_frame(&bytes).unwrap().path, "/api/first");
    // the request's number with another wire type is not the request
    let mut bytes = Vec::new();
    write_varint(&mut bytes, HTTP_PROXY_REQUEST_FIELD << 3);
    write_varint(&mut bytes, 1);
    assert!(parse_request_frame(&bytes).is_none());
    bytes.extend_from_slice(&encode_test_request(&req));
    assert_eq!(parse_request_frame(&bytes).unwrap().path, "/api/second");
    // field number zero in front of it
    let mut bytes = vec![0x00, 0x00];
    bytes.extend_from_slice(&encode_test_request(&req));
    assert!(parse_request_frame(&bytes).is_none());
}

#[test]
fn response_layout() {
    assert_eq!(
        encode_response_frame(&ProxyResponse::default()),
        vec![0xe2, 0x01, 0x00]
    );
    let resp = ProxyResponse {
        status: 200,
        headers: vec![("a".to_owned(), "b".to_owned()), (String::new(), String::new())],
        body: b"hi".to_vec(),
        error: "\u{e9}".to_owned(),
    };
    assert_eq!(
        encode_response_frame(&resp),
        vec![
            0xe2, 0x01, 0x15, 0x08, 0xc8, 0x01, 0x12, 0x06, 0x0a, 0x01, b'a', 0x12, 0x01, b'b',
            0x12, 0x00, 0x1a, 0x02, b'h', b'i', 0x22, 0x02, 0xc3, 0xa9,
        ]
    );
}

#[test]
fn negative_status_is_sign_extended() {
    let mut resp = ProxyResponse::default();
    resp.status = -1;
    assert_eq!(
        encode_response_frame(&resp),
        vec![
            0xe2, 0x01, 0x0b, 0x08, 0xff, 0xff, 0xff, 0xff, 0xff, 0xff, 0xff, 0xff, 0xff, 0x01,
        ]
    );
    for status in [-1, -5, i32::MIN, 1, 127, 128, i32::MAX] {
        resp.status = status;
        let frame = encode_response_frame(&resp);
        assert_eq!(parse_response_frame(&frame).unwrap().0, status as i64);
    }
}
