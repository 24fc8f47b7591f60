use oblivion_waf::engine::WafEngine;
use oblivion_waf::limiter::{Shard, Tokens};
use oblivion_waf::pipeline::{
    bad_gateway, bad_request, blocked, gateway_timeout, rate_limited, Action, Config, Connection,
    Event, Stage,
};

fn data(bytes: &[u8], now: u64) -> Event {
    Event::Data { bytes: bytes.to_vec(), now }
}

#[test]
fn fragmented_benign_request_is_forwarded_as_sent() {
    let engine = WafEngine::new();
    let config = Config::default();
    let (mut conn, first) = Connection::accept(config, true, 0);
    assert_eq!(first, Action::Read { timeout: 5_000_000_000 });
    let next = conn.step(data(b"GET / HTTP/1.1\r\nHost: loc", 1_000), &engine);
    assert_eq!(next, Action::Read { timeout: 4_999_999_000 });
    let next = conn.step(data(b"alhost\r\n\r\n", 50_000_000), &engine);
    assert_eq!(next, Action::Connect { timeout: 3_000_000_000 });
    assert_eq!(conn.stage(), Stage::ConnectUpstream);
    let next = conn.step(Event::Connected, &engine);
    assert_eq!(next, Action::Forward(b"GET / HTTP/1.1\r\nHost: localhost\r\n\r\n".to_vec()));
    let next = conn.step(Event::Forwarded, &engine);
    assert_eq!(next, Action::Tunnel { client_limit: 10 * 1024 * 1024 });
    assert_eq!(conn.step(Event::TunnelClosed, &engine), Action::Close);
    assert_eq!(conn.stage(), Stage::Done);
}

#[test]
fn slow_client_is_dropped_without_an_answer() {
    let engine = WafEngine::new();
    let (mut conn, _) = Connection::accept(Config::default(), true, 0);
    let next = conn.step(data(b"G", 2_000_000_000), &engine);
    assert_eq!(next, Action::Read { timeout: 3_000_000_000 });
    let next = conn.step(data(b"E", 4_000_000_000), &engine);
    assert_eq!(next, Action::Read { timeout: 1_000_000_000 });
    assert_eq!(conn.step(Event::TimedOut, &engine), Action::Close);
    assert_eq!(conn.stage(), Stage::Done);

    let (mut conn, _) = Connection::accept(Config::default(), true, 0);
    assert_eq!(conn.step(data(b"G", 5_000_000_000), &engine), Action::Close);

    let request = b"GET / HTTP/1.1\r\nHost: x\r\n\r\n";
    let (mut conn, _) = Connection::accept(Config::default(), true, 7);
    assert_eq!(conn.step(data(request, 5_000_000_008), &engine), Action::Close);
    assert_eq!(conn.stage(), Stage::Done);
    let (mut conn, _) = Connection::accept(Config::default(), true, 7);
    assert_eq!(
        conn.step(data(request, 5_000_000_007), &engine),
        Action::Connect { timeout: 3_000_000_000 }
    );
}

#[test]
fn rate_limited_client_gets_429() {
    let (conn, action) = Connection::accept(Config::default(), false, 0);
    assert_eq!(conn.stage(), Stage::Done);
    assert_eq!(
        action,
        Action::Respond(
            b"HTTP/1.1 429 Too Many Requests\r\nRetry-After: 1\r\n\r\nRate Limit Exceeded".to_vec()
        )
    );
}

#[test]
fn connection_opens_on_the_rate_check() {
    let mut shard = Shard::new(Tokens::whole(1), Tokens::whole(1));
    let (conn, action) = Connection::open(&mut shard, 9, Config::default(), 0);
    assert_eq!(conn.stage(), Stage::ReadHeaders);
    assert_eq!(action, Action::Read { timeout: 5_000_000_000 });
    assert_eq!(shard.tokens(9), Some(0));
    let (conn, action) = Connection::open(&mut shard, 9, Config::default(), 0);
    assert_eq!(conn.stage(), Stage::Done);
    assert_eq!(action, Action::Respond(rate_limited()));
    let (conn, _) = Connection::open(&mut shard, 9, Config::default(), 1_000_000_000);
    assert_eq!(conn.stage(), Stage::ReadHeaders);
}

#[test]
fn oversized_head_is_dropped() {
    let engine = WafEngine::new();
    let (mut conn, _) = Connection::accept(Config::default(), true, 0);
    let chunk = vec![b'a'; 1024];
    for _ in 0..8 {
        assert!(matches!(conn.step(data(&chunk, 1), &engine), Action::Read { .. }));
    }
    assert_eq!(conn.buffered().len(), 8192);
    assert_eq!(conn.step(data(b"b", 1), &engine), Action::Close);
    assert_eq!(conn.buffered().len(), 8192);
    assert_eq!(conn.stage(), Stage::Done);
}

#[test]
fn eof_and_read_errors_close_silently() {
    let engine = WafEngine::new();
    let (mut conn, _) = Connection::accept(Config::default(), true, 0);
    assert_eq!(conn.step(Event::Eof, &engine), Action::Close);
    let (mut conn, _) = Connection::accept(Config::default(), true, 0);
    assert_eq!(conn.step(Event::ReadFailed, &engine), Action::Close);
    let (mut conn, _) = Connection::accept(Config::default(), true, 0);
    assert_eq!(conn.step(data(b"", 1), &engine), Action::Close);
}

#[test]
fn malformed_request_gets_400() {
    let engine = WafEngine::new();
    let (mut conn, _) = Connection::accept(Config::default(), true, 0);
    let action = conn.step(data(b"GET /\r\n\r\n", 1), &engine);
    assert_eq!(action, Action::Respond(b"HTTP/1.1 400 Bad Request\r\n\r\nInvalid HTTP".to_vec()));
    assert_eq!(action, Action::Respond(bad_request()));
}

#[test]
fn blocked_request_gets_403_with_length() {
    let engine = WafEngine::new();
    let (mut conn, _) = Connection::accept(Config::default(), true, 0);
    let raw = b"GET /login?user=admin'--+ HTTP/1.1\r\nHost: x\r\n\r\n";
    let action = conn.step(data(raw, 1), &engine);
    assert_eq!(
        action,
        Action::Respond(
            b"HTTP/1.1 403 Forbidden\r\nContent-Length: 26\r\n\r\nBLOCK: SQL Injection: '--'"
                .to_vec()
        )
    );
    assert_eq!(conn.stage(), Stage::Done);
}

#[test]
fn buffered_body_is_inspected() {
    let engine = WafEngine::new();
    let (mut conn, _) = Connection::accept(Config::default(), true, 0);
    let action = conn.step(
        data(b"POST /form HTTP/1.1\r\nHost: x\r\n\r\nq=1+UNION+SELECT+2", 1),
        &engine,
    );
    assert_eq!(action, Action::Respond(blocked("SQL Injection: 'union select'")));
}

#[test]
fn upstream_failures_are_answered() {
    let engine = WafEngine::new();
    let request = b"GET / HTTP/1.1\r\nHost: x\r\n\r\n";
    let (mut conn, _) = Connection::accept(Config::default(), true, 0);
    conn.step(data(request, 1), &engine);
    assert_eq!(
        conn.step(Event::ConnectFailed, &engine),
        Action::Respond(b"HTTP/1.1 502 Bad Gateway\r\n\r\nUpstream Error".to_vec())
    );
    let (mut conn, _) = Connection::accept(Config::default(), true, 0);
    conn.step(data(request, 1), &engine);
    assert_eq!(
        conn.step(Event::ConnectTimedOut, &engine),
        Action::Respond(b"HTTP/1.1 504 Gateway Timeout\r\n\r\nUpstream Timeout".to_vec())
    );
    let (mut conn, _) = Connection::accept(Config::default(), true, 0);
    conn.step(data(request, 1), &engine);
    conn.step(Event::Connected, &engine);
    assert_eq!(conn.step(Event::ForwardFailed, &engine), Action::Close);
    assert_eq!(bad_gateway(), b"HTTP/1.1 502 Bad Gateway\r\n\r\nUpstream Error".to_vec());
    assert_eq!(gateway_timeout(), b"HTTP/1.1 504 Gateway Timeout\r\n\r\nUpstream Timeout".to_vec());
    assert_eq!(
        rate_limited(),
        b"HTTP/1.1 429 Too Many Requests\r\nRetry-After: 1\r\n\r\nRate Limit Exceeded".to_vec()
    );
}

#[test]
fn content_length_counts_bytes() {
    assert_eq!(
        blocked("é"),
        "HTTP/1.1 403 Forbidden\r\nContent-Length: 9\r\n\r\nBLOCK: é".as_bytes().to_vec()
    );
    let long = "x".repeat(100);
    let text = String::from_utf8(blocked(&long)).unwrap();
    assert!(text.starts_with("HTTP/1.1 403 Forbidden\r\nContent-Length: 107\r\n\r\nBLOCK: xxx"));
}

#[test]
fn unexpected_events_close() {
    let engine = WafEngine::new();
    let (mut conn, _) = Connection::accept(Config::default(), true, 0);
    assert_eq!(conn.step(Event::Connected, &engine), Action::Close);
    assert_eq!(conn.stage(), Stage::Done);
    assert_eq!(conn.step(data(b"GET / HTTP/1.1\r\nHost: x\r\n\r\n", 1), &engine), Action::Close);
}
