use http_proxy::forward::{
    find_method, forward_reply, plan_forward, prepare_request, receive_response, relay_response,
    ForwardError, ForwardPlan, HttpMethod, MAX_RESPONSE_BYTES,
};
use http_proxy::headers::{dropped_headers, keep_headers, request_headers, response_texts};
use http_proxy::{ProxyRequest, ProxyResponse};

fn request(method: &str, path: &str) -> ProxyRequest {
    ProxyRequest {
        method: method.to_owned(),
        path: path.to_owned(),
        headers: vec![("Accept".to_owned(), "*/*".to_owned())],
        body: b"body".to_vec(),
    }
}

fn refusal(plan: ForwardPlan) -> ProxyResponse {
    match plan {
        ForwardPlan::Reply(resp) => resp,
        ForwardPlan::Send { .. } => panic!("the request is sent"),
    }
}

fn sent(plan: ForwardPlan) -> (String, ProxyRequest) {
    match plan {
        ForwardPlan::Reply(resp) => panic!("{}", resp.error),
        ForwardPlan::Send { url, request } => (url, request),
    }
}

fn pairs(headers: &[(&str, &str)]) -> Vec<(String, String)> {
    headers
        .iter()
        .map(|(n, v)| (n.to_string(), v.to_string()))
        .collect()
}

#[test]
fn refused_requests_are_answered() {
    let resp = refusal(plan_forward(request("CONNECT", "/api/x"), None));
    assert_eq!(resp.error, "method not allowed: CONNECT");
    assert_eq!(resp.status, 0);
    assert!(resp.headers.is_empty() && resp.body.is_empty());
    let resp = refusal(plan_forward(request("GET", "/admin"), None));
    assert_eq!(resp.error, "path not allowed");
    // the method is looked at first
    let resp = refusal(plan_forward(request("", "/admin"), None));
    assert_eq!(resp.error, "method not allowed: ");
}

#[test]
fn allowed_requests_are_sent() {
    let (url, req) = sent(plan_forward(request("GET", "/api/x?y=1"), None));
    assert_eq!(url, "http://127.0.0.1:21114/api/x?y=1");
    assert_eq!((req.method.as_str(), req.path.as_str()), ("GET", "/api/x?y=1"));
    assert_eq!(req.headers, pairs(&[("Accept", "*/*")]));
    assert_eq!(req.body, b"body");
    for base in ["http://api:1", "http://api:1/", "http://api:1//"] {
        let (url, _) = sent(plan_forward(request("PUT", "/api/x"), Some(base.to_owned())));
        assert_eq!(url, "http://api:1/api/x");
    }
}

#[test]
fn methods_by_name() {
    assert_eq!(find_method("GET"), Some(HttpMethod::Get));
    assert_eq!(find_method("POST"), Some(HttpMethod::Post));
    assert_eq!(find_method("PUT"), Some(HttpMethod::Put));
    assert_eq!(find_method("DELETE"), Some(HttpMethod::Delete));
    assert_eq!(find_method("PATCH"), None);
}

#[test]
fn prepared_requests() {
    let out = prepare_request(request("DELETE", "/api/x")).ok().unwrap();
    assert_eq!(out.method, HttpMethod::Delete);
    assert_eq!(out.headers, vec![("accept".to_owned(), b"*/*".to_vec())]);
    assert_eq!(out.body, Some(b"body".to_vec()));
    let mut req = request("GET", "/api/x");
    req.body.clear();
    assert_eq!(prepare_request(req).ok().unwrap().body, None);
    let err = prepare_request(request("TRACE", "/api/x")).err().unwrap();
    assert!(matches!(err, ForwardError::MethodNotAllowed(_)));
    assert_eq!(err.message(), "method not allowed: TRACE");
}

#[test]
fn request_headers_that_go_along() {
    let kept = request_headers(&pairs(&[
        ("X-Name", "one"),
        ("Host", "evil"),
        ("x-name", "t\u{e9}\ttwo "),
        ("", "empty name"),
        ("bad name", "x"),
        ("bad\u{e9}", "x"),
        ("x-bad-value", "a\nb"),
        ("x-del", "\u{7f}"),
        ("X-Empty", ""),
    ]));
    assert_eq!(
        kept,
        vec![
            ("x-name".to_owned(), b"one".to_vec()),
            ("x-name".to_owned(), "t\u{e9}\ttwo ".as_bytes().to_vec()),
            ("x-empty".to_owned(), Vec::new()),
        ]
    );
}

#[test]
fn request_headers_that_are_dropped() {
    let dropped = dropped_headers(&pairs(&[
        ("X-Name", "one"),
        ("Host", "a\nb"),
        ("Bad Name", "x"),
        ("x-bad-value", "a\nb"),
        ("", "\n"),
        ("Bad Name", "y"),
    ]));
    assert_eq!(dropped, vec!["Bad Name", "x-bad-value", "", "Bad Name"]);
    assert!(dropped_headers(&Vec::new()).is_empty());
}

#[test]
fn header_names_are_tokens() {
    let allowed = "!#$%&'*+-.^_`|~0123456789abcdefghijklmnopqrstuvwxyzABCDEFGHIJKLMNOPQRSTUVWXYZ";
    for code in 0..0x180u32 {
        let c = char::from_u32(code).unwrap();
        for name in [c.to_string(), c.to_string().repeat(100)] {
            let kept = request_headers(&pairs(&[(&name, "v")]));
            assert_eq!(kept.len() == 1, allowed.contains(c));
            if kept.len() == 1 {
                assert_eq!(kept[0].0, name.to_ascii_lowercase());
            }
        }
    }
    let longest = "A".repeat(65535);
    let kept = request_headers(&pairs(&[(&longest, "v")]));
    assert_eq!(kept[0].0, "a".repeat(65535));
    assert!(request_headers(&pairs(&[(&"A".repeat(65536), "v")])).is_empty());
}

#[test]
fn header_values_have_no_control_characters() {
    for code in 0..0x180u32 {
        let c = char::from_u32(code).unwrap();
        let kept = request_headers(&pairs(&[("n", &format!("a{}b", c))]));
        let allowed = c == '\t' || (code >= 0x20 && code != 0x7f);
        assert_eq!(kept.len() == 1, allowed);
        if allowed {
            assert_eq!(kept[0].1, format!("a{}b", c).into_bytes());
        }
    }
}

#[test]
fn response_headers_that_come_back() {
    let texts = response_texts(&vec![
        ("a".to_owned(), "\u{e9}".as_bytes().to_vec()),
        ("b".to_owned(), vec![b'x', 0xff, b'y']),
    ]);
    assert_eq!(texts, pairs(&[("a", "\u{e9}"), ("b", "x\u{fffd}y")]));
    let kept = keep_headers(&pairs(&[
        ("content-type", "text/plain"),
        ("Connection", "close"),
        ("set-cookie", "1"),
        ("content-encoding", "gzip"),
        ("set-cookie", "2"),
    ]));
    assert_eq!(
        kept,
        pairs(&[("content-type", "text/plain"), ("set-cookie", "1"), ("set-cookie", "2")])
    );
}

#[test]
fn received_responses() {
    let headers = vec![
        ("content-type".to_owned(), b"text/plain".to_vec()),
        ("transfer-encoding".to_owned(), b"chunked".to_vec()),
        ("x-raw".to_owned(), vec![0xff]),
    ];
    let resp = receive_response(404, &headers, b"gone".to_vec()).ok().unwrap();
    assert_eq!(resp.status, 404);
    assert_eq!(resp.headers, pairs(&[("content-type", "text/plain"), ("x-raw", "\u{fffd}")]));
    assert_eq!(resp.body, b"gone");
    assert_eq!(resp.error, "");
}

#[test]
fn response_size_limit() {
    let limit = MAX_RESPONSE_BYTES as usize;
    assert_eq!(limit, 16 * 1024 * 1024);
    let resp = relay_response(200, &Vec::new(), vec![0; limit]).ok().unwrap();
    assert_eq!(resp.body.len(), limit);
    let err = relay_response(200, &Vec::new(), vec![0; limit + 1]).err().unwrap();
    assert!(matches!(err, ForwardError::ResponseTooLarge));
    assert_eq!(err.message(), "response too large");
    assert!(receive_response(200, &Vec::new(), vec![0; limit + 1]).is_err());
    assert_eq!(ForwardError::PathNotAllowed.message(), "path not allowed");
}

#[test]
fn outcomes_become_replies() {
    let resp = forward_reply(Err("connection refused".to_owned()));
    assert_eq!((resp.status, resp.error.as_str()), (0, "connection refused"));
    let mut ok = ProxyResponse::default();
    ok.status = 204;
    assert_eq!(forward_reply(Ok(ok)).status, 204);
}
