use oblivion_waf::http::{find_head_end, read_text, Headers, ParseError, Request};

#[test]
fn parses_request_line_and_headers() {
    let req =
        Request::parse(b"GET /index.html HTTP/1.1\r\nHost: example.org\r\nAccept: */*\r\n\r\n")
            .unwrap();
    assert_eq!(req.method, "GET");
    assert_eq!(req.path, "/index.html");
    assert_eq!(req.version, "HTTP/1.1");
    assert_eq!(req.headers.len(), 2);
    assert_eq!(req.headers.get("Host").map(|v| v.as_str()), Some("example.org"));
    assert_eq!(req.headers.get("Accept").map(|v| v.as_str()), Some("*/*"));
    assert_eq!(req.body, "");
}

#[test]
fn parsing_twice_gives_the_same_request() {
    let raw = b"POST /a?b=c HTTP/1.1\r\nHost: h\r\nX-A: 1\r\n\r\nbody";
    let one = Request::parse(raw).unwrap();
    let two = Request::parse(raw).unwrap();
    assert_eq!(one.method, two.method);
    assert_eq!(one.path, two.path);
    assert_eq!(one.version, two.version);
    assert_eq!(one.body, two.body);
    assert_eq!(one.headers.len(), two.headers.len());
    assert_eq!(one.headers.get("Host"), two.headers.get("Host"));
    assert_eq!(one.headers.get("X-A"), two.headers.get("X-A"));
}

#[test]
fn empty_input_is_rejected() {
    assert_eq!(Request::parse(b"").err(), Some(ParseError::Empty));
    assert_eq!(Request::from_text("", String::new()).err(), Some(ParseError::Empty));
}

#[test]
fn short_request_line_is_rejected() {
    assert_eq!(Request::parse(b"GET /\r\n\r\n").err(), Some(ParseError::MalformedRequestLine));
    assert_eq!(Request::parse(b"GET\r\n\r\n").err(), Some(ParseError::MalformedRequestLine));
    assert_eq!(Request::parse(b"\r\n\r\n").err(), Some(ParseError::MalformedRequestLine));
    assert_eq!(Request::parse(b"   \t ").err(), Some(ParseError::MalformedRequestLine));
}

#[test]
fn first_three_tokens_are_taken() {
    let req = Request::parse(b"  GET \t /p   HTTP/1.0 extra tokens\r\n\r\n").unwrap();
    assert_eq!(req.method, "GET");
    assert_eq!(req.path, "/p");
    assert_eq!(req.version, "HTTP/1.0");
    assert!(req.headers.is_empty());
}

#[test]
fn duplicate_header_keeps_the_last_value() {
    let req = Request::parse(b"GET / HTTP/1.1\r\nX-A: 1\r\nHost: h\r\nX-A: 2\r\n\r\n").unwrap();
    assert_eq!(req.headers.len(), 2);
    assert_eq!(req.headers.get("X-A").map(|v| v.as_str()), Some("2"));
}

#[test]
fn header_names_are_case_sensitive() {
    let req = Request::parse(b"GET / HTTP/1.1\r\nhost: h\r\n\r\n").unwrap();
    assert!(req.headers.contains_key("host"));
    assert!(!req.headers.contains_key("Host"));
    assert_eq!(req.headers.get("Host"), None);
}

#[test]
fn header_names_and_values_are_trimmed() {
    let req = Request::parse(b"GET / HTTP/1.1\r\n  Name \t:\t a: b  \r\n: v\r\n\r\n").unwrap();
    assert_eq!(req.headers.get("Name").map(|v| v.as_str()), Some("a: b"));
    assert_eq!(req.headers.get("").map(|v| v.as_str()), Some("v"));
    assert_eq!(req.headers.len(), 2);
}

#[test]
fn lines_without_colon_are_ignored() {
    let req = Request::parse(b"GET / HTTP/1.1\r\nno colon here\r\nHost: h\r\n\r\n").unwrap();
    assert_eq!(req.headers.len(), 1);
    assert!(req.headers.contains_key("Host"));
}

#[test]
fn headers_end_at_the_first_empty_line() {
    let req = Request::parse(b"GET / HTTP/1.1\r\nHost: h\r\n\r\nX-After: 1\r\n\r\nrest").unwrap();
    assert_eq!(req.headers.len(), 1);
    assert!(!req.headers.contains_key("X-After"));
    assert_eq!(req.body, "X-After: 1\r\n\r\nrest");
}

#[test]
fn bare_line_feeds_end_lines() {
    let req = Request::parse(b"GET / HTTP/1.1\nHost: h\n\nignored: 1\n").unwrap();
    assert_eq!(req.headers.len(), 1);
    assert_eq!(req.headers.get("Host").map(|v| v.as_str()), Some("h"));
    assert_eq!(req.body, "");
}

#[test]
fn body_is_empty_without_a_blank_line() {
    let req = Request::parse(b"GET / HTTP/1.1\r\nHost: h").unwrap();
    assert_eq!(req.headers.get("Host").map(|v| v.as_str()), Some("h"));
    assert_eq!(req.body, "");
}

#[test]
fn bytes_that_are_no_utf8_are_replaced() {
    let req = Request::parse(b"GET /\xff\xfe HTTP/1.1\r\nHost: \xc3\r\n\r\n\x80ok").unwrap();
    assert_eq!(req.path, "/\u{fffd}\u{fffd}");
    assert_eq!(req.headers.get("Host").map(|v| v.as_str()), Some("\u{fffd}"));
    assert_eq!(req.body, "\u{fffd}ok");
}

#[test]
fn bytes_are_read_as_the_text_they_encode() {
    assert_eq!(read_text(b""), "");
    assert_eq!(read_text(b"GET / HTTP/1.1\r\n"), "GET / HTTP/1.1\r\n");
    let text = "h\u{e9}llo \u{20ac} \u{1F600}";
    assert_eq!(read_text(text.as_bytes()), text);
    assert_eq!(read_text(b"a\xffb"), "a\u{fffd}b");
    assert_eq!(read_text(b"\xe2\x82"), "\u{fffd}");
    assert_eq!(read_text(b"\xed\xa0\x80"), "\u{fffd}\u{fffd}\u{fffd}");
}

#[test]
fn from_text_takes_the_body_as_given() {
    let req = Request::from_text("HEAD /x HTTP/1.1\r\nHost: h\r\n\r\nnot used", "b".to_string())
        .unwrap();
    assert_eq!(req.method, "HEAD");
    assert_eq!(req.body, "b");
}

#[test]
fn head_ends_behind_the_first_blank_line() {
    assert_eq!(find_head_end(b""), None);
    assert_eq!(find_head_end(b"\r\n\r"), None);
    assert_eq!(find_head_end(b"\r\n\r\n"), Some(4));
    assert_eq!(find_head_end(b"a\r\n\r\nb\r\n\r\n"), Some(5));
    assert_eq!(find_head_end(b"a\n\nb\r\r\n\r\n"), Some(9));
}

#[test]
fn header_table_replaces_and_counts() {
    let mut table = Headers::new();
    assert!(table.is_empty());
    assert_eq!(table.len(), 0);
    table.insert("A".to_string(), "1".to_string());
    table.insert("B".to_string(), "2".to_string());
    table.insert("A".to_string(), "3".to_string());
    assert_eq!(table.len(), 2);
    assert!(!table.is_empty());
    assert_eq!(table.get("A").map(|v| v.as_str()), Some("3"));
    assert_eq!(table.get("B").map(|v| v.as_str()), Some("2"));
    assert_eq!(table.get("C"), None);
    assert!(table.contains_key("B"));
    assert!(!table.contains_key("b"));
}
