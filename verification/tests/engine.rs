use oblivion_waf::engine::{decode_once, normalize, NullByte, Verdict, WafEngine};
use oblivion_waf::http::{Headers, Request};

fn verdict_on(raw: &[u8]) -> Verdict {
    let req = Request::parse(raw).unwrap();
    WafEngine::new().inspect(&req)
}

fn block(reason: &str) -> Verdict {
    Verdict::Block(reason.to_string())
}

fn request(method: &str, path: &str, body: &str) -> Request {
    let mut headers = Headers::new();
    headers.insert("Host".to_string(), "x".to_string());
    Request {
        method: method.to_string(),
        path: path.to_string(),
        version: "HTTP/1.1".to_string(),
        headers,
        body: body.to_string(),
    }
}

#[test]
fn sqli_in_path_is_blocked() {
    let v = verdict_on(b"GET /login?user=admin'--+ HTTP/1.1\r\nHost: x\r\n\r\n");
    assert_eq!(v, block("SQL Injection: '--'"));
}

#[test]
fn double_encoded_traversal_is_blocked() {
    let v = verdict_on(b"GET /%252e%252e%252fetc/passwd HTTP/1.1\r\nHost: x\r\n\r\n");
    assert_eq!(v, block("Path Traversal: '../'"));
    assert_eq!(normalize("/%252e%252e%252fetc/passwd"), Ok("/../etc/passwd".to_string()));
    assert_eq!(
        WafEngine::new().inspect(&request("GET", "/x/%252fetc/passwd", "")),
        block("Path Traversal: '/etc/passwd'")
    );
}

#[test]
fn missing_host_is_blocked() {
    let v = verdict_on(b"GET / HTTP/1.1\r\n\r\n");
    assert_eq!(v, block("Protocol Anomaly: Missing Host Header"));
}

#[test]
fn disallowed_method_is_blocked() {
    let v = verdict_on(b"TRACE / HTTP/1.1\r\nHost: x\r\n\r\n");
    assert_eq!(v, block("Method Not Allowed: TRACE"));
    assert_eq!(verdict_on(b"get / HTTP/1.1\r\nHost: x\r\n\r\n"), block("Method Not Allowed: get"));
}

#[test]
fn smuggling_is_blocked() {
    let v = verdict_on(
        b"POST / HTTP/1.1\r\nHost: x\r\nContent-Length: 0\r\nTransfer-Encoding: chunked\r\n\r\n",
    );
    assert_eq!(v, block("Smuggling Attempt: CL and TE headers present"));
}

#[test]
fn benign_requests_are_allowed() {
    assert_eq!(verdict_on(b"GET / HTTP/1.1\r\nHost: localhost\r\n\r\n"), Verdict::Allow);
    assert_eq!(verdict_on(b"HEAD /a/b?c=d%20e HTTP/1.1\r\nHost: h\r\n\r\n"), Verdict::Allow);
    assert_eq!(
        verdict_on(b"POST /f HTTP/1.1\r\nHost: h\r\nContent-Length: 3\r\n\r\na=b"),
        Verdict::Allow
    );
    assert_eq!(
        verdict_on(b"POST /f HTTP/1.1\r\nHost: h\r\nTransfer-Encoding: chunked\r\n\r\n"),
        Verdict::Allow
    );
}

#[test]
fn checks_come_in_order() {
    let both = b"TRACE /../ HTTP/1.1\r\nContent-Length: 0\r\nTransfer-Encoding: chunked\r\n\r\n";
    assert_eq!(verdict_on(both), block("Method Not Allowed: TRACE"));
    let no_host = b"GET /../ HTTP/1.1\r\nContent-Length: 0\r\nTransfer-Encoding: chunked\r\n\r\n";
    assert_eq!(verdict_on(no_host), block("Smuggling Attempt: CL and TE headers present"));
    assert_eq!(
        verdict_on(b"GET /%00 HTTP/1.1\r\n\r\n"),
        block("Protocol Anomaly: Missing Host Header")
    );
    let engine = WafEngine::new();
    assert_eq!(
        engine.inspect(&request("GET", "/%0d--", "a\0")),
        block("Null Byte Injection Detected")
    );
    assert_eq!(engine.inspect(&request("GET", "/%0d--", "")), block("CRLF Injection Detected"));
    assert_eq!(
        engine.inspect(&request("GET", "/<script>../", "union select")),
        block("SQL Injection: 'union select'")
    );
    assert_eq!(engine.inspect(&request("GET", "/<script>../", "")), block("XSS: '<script>'"));
    assert_eq!(
        engine.inspect(&request("GET", "/sleep(--", "")),
        block("SQL Injection: '--'")
    );
}

#[test]
fn every_signature_has_its_reason() {
    let engine = WafEngine::new();
    let sqli = [
        "drop table",
        "or 1=1",
        "union select",
        "--",
        "sleep(",
        "pg_sleep",
        "waitfor delay",
        "select * from",
    ];
    for sig in sqli {
        let v = engine.scan(&format!("/q={}", sig), "");
        assert_eq!(v, block(&format!("SQL Injection: '{}'", sig)));
    }
    let xss = [
        "<script>",
        "javascript:",
        "onerror=",
        "onload=",
        "alert(",
        "document.cookie",
        "vbscript:",
    ];
    for sig in xss {
        let v = engine.scan("/", sig);
        assert_eq!(v, block(&format!("XSS: '{}'", sig)));
    }
    let traversal =
        ["../", "..\\", "/etc/passwd", "c:\\windows", "%2e%2e%2f", ".env", "config.php"];
    for sig in traversal {
        let v = engine.scan(&format!("/x{}", sig), "");
        assert_eq!(v, block(&format!("Path Traversal: '{}'", sig)));
    }
}

#[test]
fn null_byte_is_blocked() {
    let engine = WafEngine::new();
    let null = block("Null Byte Injection Detected");
    assert_eq!(engine.inspect(&request("GET", "/a%00b", "")), null);
    assert_eq!(engine.inspect(&request("GET", "/", "%2500")), null);
    assert_eq!(engine.inspect(&request("GET", "/\0", "")), null);
}

#[test]
fn line_break_in_path_is_blocked() {
    let engine = WafEngine::new();
    assert_eq!(engine.inspect(&request("GET", "/a%0D%0Ab", "")), block("CRLF Injection Detected"));
    assert_eq!(engine.inspect(&request("GET", "/a%0ab", "")), block("CRLF Injection Detected"));
    assert_eq!(engine.inspect(&request("POST", "/a", "b%0d%0ac")), Verdict::Allow);
    assert_eq!(engine.scan("/a\rb", ""), block("CRLF Injection Detected"));
    assert_eq!(engine.scan("/a", "b\nc"), Verdict::Allow);
}

#[test]
fn matching_ignores_case_and_encoding() {
    let engine = WafEngine::new();
    assert_eq!(
        engine.inspect(&request("GET", "/?q=1+UNION+SELECT+2", "")),
        block("SQL Injection: 'union select'")
    );
    assert_eq!(
        engine.inspect(&request("GET", "/?q=%3CScRiPt%3E", "")),
        block("XSS: '<script>'")
    );
    assert_eq!(
        engine.inspect(&request("POST", "/", "x=DOCUMENT.COOKIE")),
        block("XSS: 'document.cookie'")
    );
    assert_eq!(
        engine.inspect(&request("POST", "/", "x=document.coo\u{212a}ie")),
        block("XSS: 'document.cookie'")
    );
}

#[test]
fn signature_may_straddle_path_and_body() {
    let engine = WafEngine::new();
    assert_eq!(
        engine.inspect(&request("POST", "/drop", "table users")),
        block("SQL Injection: 'drop table'")
    );
    assert_eq!(engine.inspect(&request("POST", "/drop", "xtable")), Verdict::Allow);
}

#[test]
fn one_round_of_decoding() {
    assert_eq!(decode_once("a+b"), Some("a b".to_string()));
    assert_eq!(decode_once("%41%4a%4A%6b"), Some("AJJk".to_string()));
    assert_eq!(decode_once("%2B"), Some("+".to_string()));
    assert_eq!(decode_once("%"), Some("%".to_string()));
    assert_eq!(decode_once("%4"), Some("%4".to_string()));
    assert_eq!(decode_once("%zz%4g"), Some("%zz%4g".to_string()));
    assert_eq!(decode_once("%%41"), Some("%A".to_string()));
    assert_eq!(decode_once("%2541"), Some("%41".to_string()));
    assert_eq!(decode_once("%C3%A9"), Some("é".to_string()));
    assert_eq!(decode_once("é%e2%82%ac"), Some("é€".to_string()));
    assert_eq!(decode_once("%FF"), None);
    assert_eq!(decode_once("%C3"), None);
    assert_eq!(decode_once("%ED%A0%80"), None);
    assert_eq!(decode_once(""), Some(String::new()));
}

#[test]
fn normalize_decodes_and_lowercases() {
    assert_eq!(normalize("A+B%41"), Ok("a ba".to_string()));
    assert_eq!(normalize("%2541"), Ok("a".to_string()));
    assert_eq!(normalize("%2B"), Ok(" ".to_string()));
    assert_eq!(normalize("a%00b"), Err(NullByte));
    assert_eq!(normalize("a\0b"), Err(NullByte));
    assert_eq!(normalize("%FF"), Ok("%ff".to_string()));
    assert_eq!(normalize("+%FF"), Ok("+%ff".to_string()));
    assert_eq!(normalize("%41%FF"), Ok("%41%ff".to_string()));
    assert_eq!(normalize(""), Ok(String::new()));
}

fn encoded(levels: usize) -> String {
    format!("%{}41", "25".repeat(levels - 1))
}

#[test]
fn decoding_stops_after_five_rounds() {
    assert_eq!(encoded(1), "%41");
    for levels in 1..=5 {
        assert_eq!(normalize(&encoded(levels)), Ok("a".to_string()));
    }
    assert_eq!(encoded(6), "%252525252541");
    assert_eq!(normalize(&encoded(6)), Ok("%41".to_string()));
    assert_eq!(normalize(&encoded(7)), Ok("%2541".to_string()));
    let nul = format!("%{}00", "25".repeat(5));
    assert_eq!(normalize(&nul), Ok("%00".to_string()));
    let nul = format!("%{}00", "25".repeat(4));
    assert_eq!(normalize(&nul), Err(NullByte));
}

#[test]
fn sixth_round_is_not_applied_before_matching() {
    let engine = WafEngine::new();
    let five = format!("/%{}3Cscript%{}3E", "25".repeat(4), "25".repeat(4));
    assert_eq!(engine.inspect(&request("GET", &five, "")), block("XSS: '<script>'"));
    let six = format!("/%{}3Cscript%{}3E", "25".repeat(5), "25".repeat(5));
    assert_eq!(normalize(&six), Ok("/%3cscript%3e".to_string()));
    assert_eq!(engine.inspect(&request("GET", &six, "")), Verdict::Allow);
}

#[test]
fn normal_form_is_a_fixed_point() {
    for text in ["/a b", "a ba", "/../etc/passwd", "%ff", "x=1&y=%zz", ""] {
        assert_eq!(normalize(text), Ok(text.to_string()));
    }
    for text in ["A+B%41", "/%252e%252e", "ÀB%C3%89"] {
        let once = normalize(text).unwrap();
        assert_eq!(normalize(&once), Ok(once.clone()));
    }
}

#[test]
fn block_carries_over_to_a_larger_payload() {
    let engine = WafEngine::new();
    let inner = request("GET", "/q=alert(1)", "x");
    assert_eq!(engine.inspect(&inner), block("XSS: 'alert('"));
    let outer = request("POST", "/before/q=ALERT(1)+x/after", "more");
    assert!(matches!(engine.inspect(&outer), Verdict::Block(_)));
    let outer = request("GET", "/pre/../q=alert(1)", "x and more");
    assert_eq!(engine.inspect(&outer), block("XSS: 'alert('"));
}

#[test]
fn verdict_is_the_same_every_time() {
    let engine = WafEngine::new();
    let other = WafEngine::new();
    let req = request("GET", "/?q=%3Cscript%3E", "");
    let first = engine.inspect(&req);
    assert_eq!(engine.inspect(&req), first);
    assert_eq!(other.inspect(&req), first);
    assert_eq!(req.path, "/?q=%3Cscript%3E");
}
