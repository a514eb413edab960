use http_proxy::policy::{
    is_allowed_method, is_stripped_request_header, is_stripped_response_header, path_allowed,
};
use http_proxy::text::{
    chars_of, decode_text, is_control, is_text, lowercase_chars, same_text, starts_with,
    trim_end_slashes,
};

#[test]
fn path_and_method_policy() {
    assert!(path_allowed("/api/currentUser"));
    assert!(path_allowed("/api/sysinfo?x=1"));
    assert!(!path_allowed("/admin"));
    assert!(!path_allowed("//evil.com/api/x"));
    assert!(!path_allowed("/api/../secret"));
    assert!(!path_allowed("/api/\\evil"));
    assert!(!path_allowed("/api/\ninject"));
    assert!(is_allowed_method("POST"));
    assert!(!is_allowed_method("CONNECT"));
}

#[test]
fn methods() {
    for method in ["GET", "POST", "PUT", "DELETE"] {
        assert!(is_allowed_method(method));
    }
    for method in ["", "get", "GET ", "HEAD", "PATCH", "OPTIONS", "GETS", "DELET"] {
        assert!(!is_allowed_method(method));
    }
}

#[test]
fn path_edges() {
    assert!(path_allowed("/api/"));
    assert!(!path_allowed("/api"));
    assert!(!path_allowed(""));
    assert!(!path_allowed("api/"));
    assert!(path_allowed("/api/a.b/.c./d"));
    assert!(!path_allowed("/api/.."));
    assert!(!path_allowed("/api/a..b"));
    assert!(!path_allowed("/api/\u{7f}"));
    assert!(!path_allowed("/api/\u{9f}"));
    assert!(path_allowed("/api/\u{a0}\u{e9}"));
    // the length counts in bytes
    assert!(path_allowed(&format!("/api/{}", "a".repeat(4091))));
    assert!(!path_allowed(&format!("/api/{}", "a".repeat(4092))));
    assert!(path_allowed(&format!("/api/a{}", "\u{e9}".repeat(2045))));
    assert!(!path_allowed(&format!("/api/{}", "\u{e9}".repeat(2046))));
}

#[test]
fn stripped_headers() {
    let both = [
        "connection", "keep-alive", "proxy-authenticate", "proxy-authorization", "te", "trailer",
        "trailers", "transfer-encoding", "upgrade", "content-length",
    ];
    for name in both {
        assert!(is_stripped_request_header(name));
        assert!(is_stripped_response_header(name));
        assert!(is_stripped_request_header(&name.to_uppercase()));
        assert!(is_stripped_response_header(&name.to_uppercase()));
    }
    for name in ["proxy-connection", "host", "Proxy-Connection", "HOST"] {
        assert!(is_stripped_request_header(name));
        assert!(!is_stripped_response_header(name));
    }
    for name in ["content-encoding", "Content-Encoding"] {
        assert!(!is_stripped_request_header(name));
        assert!(is_stripped_response_header(name));
    }
    for name in ["", "content-type", "authorization", "t", "hosts", "\u{212a}eep-alive"] {
        assert!(!is_stripped_request_header(name));
        assert!(!is_stripped_response_header(name));
    }
}

#[test]
fn control_characters_are_those_of_unicode() {
    for code in 0..=0x10ffff {
        if let Some(c) = char::from_u32(code) {
            assert_eq!(is_control(c), c.is_control());
        }
    }
}

#[test]
fn small_letters() {
    let text = "AZaz@[`{09-\u{c9}\u{212a}";
    let lower: String = lowercase_chars(text).into_iter().collect();
    assert_eq!(lower, text.to_ascii_lowercase());
    assert_eq!(lower, "azaz@[`{09-\u{c9}\u{212a}");
}

#[test]
fn comparing_texts() {
    assert!(same_text("", ""));
    assert!(same_text("a\u{e9}", "a\u{e9}"));
    assert!(!same_text("ab", "a"));
    assert!(!same_text("a", "ab"));
    assert!(!same_text("a", "b"));
    let chars = chars_of("/api/x");
    assert_eq!(chars, vec!['/', 'a', 'p', 'i', '/', 'x']);
    assert!(starts_with(&chars, "/api/"));
    assert!(starts_with(&chars, ""));
    assert!(!starts_with(&chars, "/api/xy"));
    assert!(!starts_with(&chars, "/apj/"));
    assert!(is_text(&chars, "/api/x"));
    assert!(!is_text(&chars, "/api/"));
}

#[test]
fn trimming_slashes() {
    assert_eq!(trim_end_slashes("http://h"), "http://h");
    assert_eq!(trim_end_slashes("http://h/"), "http://h");
    assert_eq!(trim_end_slashes("http://\u{e9}//"), "http://\u{e9}");
    assert_eq!(trim_end_slashes("///"), "");
    assert_eq!(trim_end_slashes(""), "");
}

#[test]
fn decoding_text() {
    assert_eq!(decode_text(b""), Some(String::new()));
    assert_eq!(decode_text("h\u{e9}\u{1f600}".as_bytes()), Some("h\u{e9}\u{1f600}".to_owned()));
    assert_eq!(decode_text(&[0xff]), None);
    assert_eq!(decode_text(&[0xe2, 0x82]), None);
    assert_eq!(decode_text(&[0xc0, 0xaf]), None);
    assert_eq!(decode_text(&[0xed, 0xa0, 0x80]), None);
    assert_eq!(decode_text(&[0xf4, 0x90, 0x80, 0x80]), None);
}
