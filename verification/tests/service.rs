use rinha_rust::http::{
    early_rejection, find_header_end, parse_first_line, parse_request, Method, Request,
    RESPONSE_BAD_REQUEST, RESPONSE_FRAUD_0, RESPONSE_FRAUD_3, RESPONSE_FRAUD_5, RESPONSE_NOT_FOUND,
    RESPONSE_NOT_READY, RESPONSE_READY,
};
use rinha_rust::index::SearchMode;
use rinha_rust::service::{
    connection_step, dispatch, fraud_response, warmup_query, warmup_request, Action, Step,
};

fn request<'a>(method: Method, path: &'a [u8], body: &'a [u8]) -> Request<'a> {
    Request { method, path, body, keep_alive: true }
}

fn reply(action: Action) -> &'static [u8] {
    match action {
        Action::Reply(bytes) => bytes,
        Action::Score(_) => panic!("expected a reply"),
    }
}

#[test]
fn ready_probe_follows_readiness() {
    let req = request(Method::Get, b"/ready", b"");
    assert_eq!(reply(dispatch(&req, true)), RESPONSE_READY.as_bytes());
    assert_eq!(reply(dispatch(&req, false)), RESPONSE_NOT_READY.as_bytes());
}

#[test]
fn fraud_score_is_scored_only_when_ready() {
    let req = request(Method::Post, b"/fraud-score", b"{\"a\":1}");
    match dispatch(&req, true) {
        Action::Score(body) => assert_eq!(body, b"{\"a\":1}"),
        Action::Reply(_) => panic!("a ready service scores the payload"),
    }
    assert_eq!(reply(dispatch(&req, false)), RESPONSE_NOT_READY.as_bytes());
}

#[test]
fn other_routes_are_not_found() {
    for (method, path) in [
        (Method::Post, &b"/ready"[..]),
        (Method::Get, &b"/fraud-score"[..]),
        (Method::Get, &b"/"[..]),
        (Method::Post, &b"/fraud-scores"[..]),
    ] {
        let req = request(method, path, b"");
        assert_eq!(reply(dispatch(&req, true)), RESPONSE_NOT_FOUND.as_bytes());
    }
}

#[test]
fn fraud_counts_map_to_fixed_responses() {
    assert_eq!(fraud_response(0), RESPONSE_FRAUD_0.as_bytes());
    assert_eq!(fraud_response(3), RESPONSE_FRAUD_3.as_bytes());
    assert_eq!(fraud_response(5), RESPONSE_FRAUD_5.as_bytes());
    assert_eq!(fraud_response(9), RESPONSE_FRAUD_5.as_bytes());
    assert!(std::str::from_utf8(fraud_response(3)).unwrap().ends_with("{\"approved\":false,\"fraud_score\":0.6}"));
}

#[test]
fn connection_serves_back_to_back_requests_in_order() {
    let first = b"POST /fraud-score HTTP/1.1\r\nContent-Length: 2\r\n\r\n{}";
    let second = b"GET /ready HTTP/1.1\r\nConnection: close\r\n\r\n";
    let mut both = first.to_vec();
    both.extend_from_slice(second);
    match connection_step(&both, false) {
        Step::Serve(req, consumed) => {
            assert_eq!(req.method, Method::Post);
            assert_eq!(req.body, b"{}");
            assert!(req.keep_alive);
            assert_eq!(consumed, first.len());
            match connection_step(&both[consumed..], false) {
                Step::ServeThenClose(next) => {
                    assert_eq!(next.method, Method::Get);
                    assert_eq!(next.path, b"/ready");
                    assert!(!next.keep_alive);
                }
                _ => panic!("second request should be served, then the connection closed"),
            }
        }
        _ => panic!("first request should be served"),
    }
}

#[test]
fn connection_waits_or_closes_on_incomplete_requests() {
    let partial = b"POST /fraud-score HTTP/1.1\r\nContent-Length: 10\r\n\r\n{}";
    assert!(matches!(connection_step(partial, false), Step::Read));
    match connection_step(partial, true) {
        Step::Close(bytes) => assert_eq!(bytes, RESPONSE_BAD_REQUEST.as_bytes()),
        _ => panic!("a full buffer without a request closes"),
    }
    let garbage = b"BREW /pot HTTP/1.1\r\n\r\n";
    match connection_step(garbage, false) {
        Step::Close(bytes) => assert_eq!(bytes, RESPONSE_BAD_REQUEST.as_bytes()),
        _ => panic!("an unknown method is refused"),
    }
}

#[test]
fn header_scanning_helpers() {
    assert_eq!(find_header_end(b"GET / HTTP/1.1\r\n\r\nrest"), Some(18));
    assert_eq!(find_header_end(b"GET / HTTP/1.1\r\n"), None);
    let (method, (path_start, path_end), headers) =
        parse_first_line(b"GET /ready HTTP/1.1\r\nHost: x\r\n\r\n").unwrap();
    assert_eq!(method, Method::Get);
    assert_eq!((path_start, path_end, headers), (4, 10, 21));
    assert!(parse_first_line(b"GET  HTTP/1.1\r\n\r\n").is_none());
    assert_eq!(early_rejection(Method::Get, b"/ready", 99999), None);
    assert_eq!(early_rejection(Method::Post, b"/fraud-score", 8192), None);
    assert_eq!(early_rejection(Method::Post, b"/fraud-score", 8193), Some(RESPONSE_BAD_REQUEST.as_bytes()));
    assert_eq!(early_rejection(Method::Get, b"/x", 0), Some(RESPONSE_NOT_FOUND.as_bytes()));
}

#[test]
fn body_must_arrive_in_full() {
    assert!(parse_request(b"POST /fraud-score HTTP/1.1\r\nContent-Length: 3\r\n\r\n{}").is_none());
    let (req, consumed) =
        parse_request(b"POST /fraud-score HTTP/1.1\r\nContent-Length: 3\r\n\r\n{} extra").unwrap();
    assert_eq!(req.body, b"{} ");
    assert_eq!(consumed, 52);
}

#[test]
fn warmup_queries_spread_over_the_scale() {
    let q0 = warmup_query(0);
    assert_eq!(q0[0], 0);
    assert_eq!(q0[1], 1009);
    assert_eq!(q0[5], -10000);
    assert_eq!(q0[6], -10000);
    assert_eq!(q0[10], 10090 % 10001);
    let q1 = warmup_query(1);
    assert_eq!(q1[0], 313);
    assert_eq!(q1[5], (313 + 5 * 1009) as i16);
    let q40 = warmup_query(40);
    assert_eq!(q40[0], (40 * 313 % 10001) as i16);
    assert_eq!(q40[5], -10000);
}

#[test]
fn warmup_request_is_a_complete_fraud_score_request() {
    let body = br#"{"id":"warmup"}"#;
    let request = warmup_request(body);
    assert_eq!(
        request,
        b"POST /fraud-score HTTP/1.1\r\nHost: localhost\r\nContent-Length: 15\r\n\r\n{\"id\":\"warmup\"}".to_vec()
    );
    let (req, consumed) = parse_request(&request).unwrap();
    assert_eq!(req.method, Method::Post);
    assert_eq!(req.path, b"/fraud-score");
    assert_eq!(req.body, body);
    assert_eq!(consumed, request.len());
    assert!(warmup_request(b"").ends_with(b"Content-Length: 0\r\n\r\n"));
}

#[test]
fn search_mode_names() {
    assert_eq!(SearchMode::from_name(b"exact"), SearchMode::Exact);
    assert_eq!(SearchMode::from_name(b"key-first"), SearchMode::KeyFirst);
    assert_eq!(SearchMode::from_name(b"key_first"), SearchMode::KeyFirst);
    assert_eq!(SearchMode::from_name(b"specialist"), SearchMode::Specialist);
    assert_eq!(SearchMode::from_name(b"EXACT"), SearchMode::Specialist);
}
