use rinha_rust::http::{
    find_content_length, parse_request, parse_request_result, Method, ParseResult,
    RESPONSE_BAD_REQUEST, RESPONSE_NOT_FOUND,
};

#[test]
fn parses_first_line_without_allocating_parts() {
    let request = b"POST /fraud-score HTTP/1.1\r\nHost: localhost\r\nContent-Length: 2\r\n\r\n{}";
    let (parsed, consumed) = parse_request(request).expect("request should parse");

    assert_eq!(parsed.method, Method::Post);
    assert_eq!(parsed.path, b"/fraud-score");
    assert_eq!(parsed.body, b"{}");
    assert_eq!(consumed, request.len());
}

#[test]
fn parses_content_length_digits_directly() {
    assert_eq!(
        find_content_length(b"Host: x\r\nContent-Length: 123\r\n"),
        123
    );
    assert_eq!(find_content_length(b"content-length:\t42\r\n"), 42);
    assert_eq!(find_content_length(b"Content-Length: nope\r\n"), 0);
}

#[test]
fn rejects_unknown_path_after_headers_without_waiting_for_body() {
    let request = b"POST /missing HTTP/1.1\r\nHost: localhost\r\nContent-Length: 64000\r\n\r\n";

    match parse_request_result(request) {
        ParseResult::Reject(response, consumed) => {
            assert_eq!(response, RESPONSE_NOT_FOUND.as_bytes());
            assert_eq!(consumed, request.len());
        }
        _ => panic!("unknown path should be rejected after headers"),
    }
}

#[test]
fn rejects_oversized_fraud_body_after_headers_without_waiting_for_body() {
    let request =
        b"POST /fraud-score HTTP/1.1\r\nHost: localhost\r\nContent-Length: 64000\r\n\r\n";

    match parse_request_result(request) {
        ParseResult::Reject(response, consumed) => {
            assert_eq!(response, RESPONSE_BAD_REQUEST.as_bytes());
            assert_eq!(consumed, request.len());
        }
        _ => panic!("oversized fraud body should be rejected after headers"),
    }
}
