//! HTTP/1.1 request framing for the two endpoints the service answers.

use vstd::prelude::*;
use vstd::string::StringSliceAdditionalSpecFns;
use crate::scan::{
    ascii_lower, byte_is, eq_ignore_case_at, find_byte, first_index, lemma_first_index,
    lemma_first_index_found, lemma_first_index_none, lower, matches_ignore_case_at, opt_int,
};

verus! {

pub const RESPONSE_READY: &'static str = "HTTP/1.1 200 OK\r\nContent-Length: 2\r\n\r\nok";
pub const RESPONSE_NOT_READY: &'static str =
    "HTTP/1.1 503 Service Unavailable\r\nContent-Length: 0\r\n\r\n";
pub const RESPONSE_FRAUD_0: &'static str =
    "HTTP/1.1 200 OK\r\nContent-Length: 35\r\n\r\n{\"approved\":true,\"fraud_score\":0.0}";
pub const RESPONSE_FRAUD_1: &'static str =
    "HTTP/1.1 200 OK\r\nContent-Length: 35\r\n\r\n{\"approved\":true,\"fraud_score\":0.2}";
pub const RESPONSE_FRAUD_2: &'static str =
    "HTTP/1.1 200 OK\r\nContent-Length: 35\r\n\r\n{\"approved\":true,\"fraud_score\":0.4}";
pub const RESPONSE_FRAUD_3: &'static str =
    "HTTP/1.1 200 OK\r\nContent-Length: 36\r\n\r\n{\"approved\":false,\"fraud_score\":0.6}";
pub const RESPONSE_FRAUD_4: &'static str =
    "HTTP/1.1 200 OK\r\nContent-Length: 36\r\n\r\n{\"approved\":false,\"fraud_score\":0.8}";
pub const RESPONSE_FRAUD_5: &'static str =
    "HTTP/1.1 200 OK\r\nContent-Length: 36\r\n\r\n{\"approved\":false,\"fraud_score\":1.0}";
pub const RESPONSE_BAD_REQUEST: &'static str =
    "HTTP/1.1 400 Bad Request\r\nContent-Length: 0\r\nConnection: close\r\n\r\n";
pub const RESPONSE_NOT_FOUND: &'static str =
    "HTTP/1.1 404 Not Found\r\nContent-Length: 0\r\nConnection: close\r\n\r\n";

/// Largest body the fraud-score endpoint accepts.
pub const MAX_BODY_LEN: usize = 8192;

pub const CR: u8 = 13;
pub const LF: u8 = 10;
pub const SPACE: u8 = 32;
pub const TAB: u8 = 9;

#[derive(Debug, Clone, Copy, PartialEq, Eq, Structural)]
pub enum Method {
    Get,
    Post,
}

pub struct Request<'a> {
    pub method: Method,
    pub path: &'a [u8],
    pub body: &'a [u8],
    pub keep_alive: bool,
}

/// The bytes a response constant puts on the wire.
pub open spec fn wire(s: &str) -> Seq<u8> {
    s.spec_bytes()
}

// ---------------------------------------------------------------------------
// Specification of the request grammar

pub open spec fn crlf_crlf_ends_at(buf: Seq<u8>) -> spec_fn(int) -> bool {
    |i: int|
        3 <= i < buf.len() && buf[i] == LF && buf[i - 1] == CR && buf[i - 2] == LF && buf[i - 3]
            == CR
}

/// Offset just past the first blank line (`\r\n\r\n`), if the buffer holds one.
pub open spec fn header_end(buf: Seq<u8>) -> Option<int> {
    match first_index(3, buf.len() as int, crlf_crlf_ends_at(buf)) {
        Some(i) => Some(i + 1),
        None => None,
    }
}

pub open spec fn get_bytes() -> Seq<u8> {
    seq![71u8, 69u8, 84u8]
}

pub open spec fn post_bytes() -> Seq<u8> {
    seq![80u8, 79u8, 83u8, 84u8]
}

pub open spec fn ready_path() -> Seq<u8> {
    seq![47u8, 114u8, 101u8, 97u8, 100u8, 121u8]
}

pub open spec fn fraud_score_path() -> Seq<u8> {
    seq![47u8, 102u8, 114u8, 97u8, 117u8, 100u8, 45u8, 115u8, 99u8, 111u8, 114u8, 101u8]
}

/// `content-length:`
pub open spec fn content_length_name() -> Seq<u8> {
    seq![
        99u8, 111u8, 110u8, 116u8, 101u8, 110u8, 116u8, 45u8, 108u8, 101u8, 110u8, 103u8, 116u8,
        104u8, 58u8
    ]
}

/// `Connection: close`
pub open spec fn connection_close() -> Seq<u8> {
    seq![
        67u8, 111u8, 110u8, 110u8, 101u8, 99u8, 116u8, 105u8, 111u8, 110u8, 58u8, 32u8, 99u8,
        108u8, 111u8, 115u8, 101u8
    ]
}

pub open spec fn method_of(token: Seq<u8>) -> Option<Method> {
    if token == get_bytes() {
        Some(Method::Get)
    } else if token == post_bytes() {
        Some(Method::Post)
    } else {
        None
    }
}

/// The request line: method, path span and the offset where the header lines start.
pub open spec fn first_line(buf: Seq<u8>) -> Option<(Method, int, int, int)> {
    match first_index(0, buf.len() as int, byte_is(buf, CR)) {
        None => None,
        Some(end) => match first_index(0, end, byte_is(buf, SPACE)) {
            None => None,
            Some(method_end) => match method_of(buf.subrange(0, method_end)) {
                None => None,
                Some(m) => {
                    let path_start = method_end + 1;
                    if path_start >= end {
                        None
                    } else {
                        match first_index(path_start, end, byte_is(buf, SPACE)) {
                            None => None,
                            Some(path_end) => if path_end == path_start {
                                None
                            } else {
                                Some((m, path_start, path_end, end + 2))
                            },
                        }
                    }
                },
            },
        },
    }
}

pub open spec fn is_blank(b: u8) -> bool {
    b == SPACE || b == TAB
}

pub open spec fn is_digit(b: u8) -> bool {
    48 <= b <= 57
}

pub open spec fn not_blank(s: Seq<u8>) -> spec_fn(int) -> bool {
    |i: int| !is_blank(s[i])
}

pub open spec fn ends_value(s: Seq<u8>) -> spec_fn(int) -> bool {
    |i: int| s[i] == CR || is_blank(s[i])
}

pub open spec fn names_content_length(s: Seq<u8>) -> spec_fn(int) -> bool {
    |i: int| matches_ignore_case_at(s, i, content_length_name())
}

/// Decimal value of a digit string, saturating at `usize::MAX` as each digit is taken in.
pub open spec fn saturating_decimal(digits: Seq<u8>) -> int
    decreases digits.len(),
{
    if digits.len() == 0 {
        0
    } else {
        let v = saturating_decimal(digits.drop_last()) * 10 + (digits.last() - 48);
        if v > usize::MAX {
            usize::MAX as int
        } else {
            v
        }
    }
}

/// Start of a header value: the first non-blank byte at or after `rest`, or `rest` itself
/// when only blanks follow.
pub open spec fn value_start(h: Seq<u8>, rest: int) -> int {
    match first_index(rest, h.len() as int, not_blank(h)) {
        Some(v) => v,
        None => rest,
    }
}

/// End of a header value: the first CR or blank at or after `vs`, or the end of the block.
pub open spec fn value_end(h: Seq<u8>, vs: int) -> int {
    match first_index(vs, h.len() as int, ends_value(h)) {
        Some(v) => v,
        None => h.len() as int,
    }
}

/// A value made only of digits read as a saturating decimal; anything else reads as 0.
pub open spec fn digits_value(digits: Seq<u8>) -> int {
    if forall|k: int| 0 <= k < digits.len() ==> is_digit(#[trigger] digits[k]) {
        saturating_decimal(digits)
    } else {
        0
    }
}

pub open spec fn value_at(h: Seq<u8>, rest: int) -> int {
    let vs = value_start(h, rest);
    digits_value(h.subrange(vs, value_end(h, vs)))
}

/// The Content-Length announced in a header block: the value after the first
/// `content-length:` (any case), or 0 when there is none or it is not all digits.
pub open spec fn content_length(h: Seq<u8>) -> int {
    match first_index(0, h.len() - 14, names_content_length(h)) {
        None => 0,
        Some(at) => value_at(h, at + 15),
    }
}

/// Some request header region `buf[..end]` holds `Connection: close` (any case).
pub open spec fn asks_close(buf: Seq<u8>, end: int) -> bool {
    exists|i: int| 0 <= i && i + 17 <= end && matches_ignore_case_at(buf, i, connection_close())
}

/// Which response, if any, a request is refused with as soon as its headers are in.
pub open spec fn early_rejection_of(method: Method, path: Seq<u8>, content_length: int) -> Option<
    Seq<u8>,
> {
    if method == Method::Get && path == ready_path() {
        None
    } else if method == Method::Post && path == fraud_score_path() {
        if content_length <= MAX_BODY_LEN {
            None
        } else {
            Some(wire(RESPONSE_BAD_REQUEST))
        }
    } else {
        Some(wire(RESPONSE_NOT_FOUND))
    }
}

/// What a buffer holding the start of a request amounts to.
pub enum Framing {
    Complete {
        method: Method,
        path_start: int,
        path_end: int,
        body_start: int,
        body_end: int,
        keep_alive: bool,
    },
    Reject { response: Seq<u8>, consumed: int },
    NeedMore,
}

pub open spec fn framing(buf: Seq<u8>) -> Framing {
    match header_end(buf) {
        None => Framing::NeedMore,
        Some(he) => match first_line(buf) {
            None => Framing::Reject { response: wire(RESPONSE_BAD_REQUEST), consumed: he },
            Some((m, ps, pe, hl)) => {
                let cl = content_length(buf.subrange(hl, he));
                match early_rejection_of(m, buf.subrange(ps, pe), cl) {
                    Some(r) => Framing::Reject { response: r, consumed: he },
                    None => if buf.len() < he + cl {
                        Framing::NeedMore
                    } else {
                        Framing::Complete {
                            method: m,
                            path_start: ps,
                            path_end: pe,
                            body_start: he,
                            body_end: he + cl,
                            keep_alive: !asks_close(buf, he),
                        }
                    },
                }
            },
        },
    }
}

proof fn lemma_saturating_decimal_nonneg(digits: Seq<u8>)
    requires
        forall|k: int| 0 <= k < digits.len() ==> is_digit(#[trigger] digits[k]),
    ensures
        saturating_decimal(digits) >= 0,
    decreases digits.len(),
{
    if digits.len() > 0 {
        assert forall|k: int| 0 <= k < digits.drop_last().len() implies is_digit(
            #[trigger] digits.drop_last()[k],
        ) by {
            assert(digits.drop_last()[k] == digits[k]);
        }
        lemma_saturating_decimal_nonneg(digits.drop_last());
        assert(is_digit(digits[digits.len() - 1]));
    }
}

/// A complete request covers its header block and body, and no more than the buffer.
pub proof fn lemma_complete_bounds(buf: Seq<u8>)
    ensures
        framing(buf) matches Framing::Complete { body_end, .. } ==> 4 <= body_end <= buf.len(),
{
    lemma_first_index(3, buf.len() as int, crlf_crlf_ends_at(buf));
    if let Some(he) = header_end(buf) {
        if let Some((m, ps, pe, hl)) = first_line(buf) {
            let h = buf.subrange(hl, he);
            match first_index(0, h.len() - 14, names_content_length(h)) {
                None => {},
                Some(at) => {
                    let vs = value_start(h, at + 15);
                    let d = h.subrange(vs, value_end(h, vs));
                    if forall|k: int| 0 <= k < d.len() ==> is_digit(#[trigger] d[k]) {
                        lemma_saturating_decimal_nonneg(d);
                    }
                },
            }
        }
    }
}

/// Only the two routes are ever served: a request that frames complete is `GET /ready`, or
/// `POST /fraud-score` with a body of at most `MAX_BODY_LEN` bytes; a request for any
/// other route, once its headers are in, is refused with 404.
pub proof fn lemma_only_known_routes_served(buf: Seq<u8>)
    ensures
        framing(buf) matches Framing::Complete { method, path_start, path_end, body_start, body_end, .. }
            ==> (method == Method::Get && buf.subrange(path_start, path_end) == ready_path()) || (
        method == Method::Post && buf.subrange(path_start, path_end) == fraud_score_path()
            && body_end - body_start <= MAX_BODY_LEN),
        header_end(buf) is Some ==> (first_line(buf) matches Some((m, ps, pe, hl)) ==> (!(m
            == Method::Get && buf.subrange(ps, pe) == ready_path()) && !(m == Method::Post
            && buf.subrange(ps, pe) == fraud_score_path()) ==> framing(buf)
            == (Framing::Reject { response: wire(RESPONSE_NOT_FOUND), consumed: header_end(buf)->0 }))),
{
}

/// A complete request keeps the connection open exactly when its header block holds no
/// `Connection: close` (in any letter case), whatever its method, path or body.
pub proof fn lemma_keep_alive_unless_close(buf: Seq<u8>)
    ensures
        framing(buf) matches Framing::Complete { keep_alive, body_start, .. } ==> (keep_alive
            <==> !exists|i: int|
            0 <= i && i + 17 <= body_start && #[trigger] matches_ignore_case_at(
                buf,
                i,
                connection_close(),
            )),
{
}

/// Once its headers are in, a request frames the same way whatever bytes follow it in the
/// buffer: a complete one is served and a refused one refused alike, so requests sent back
/// to back on one connection are handled one after the other.
pub proof fn lemma_framing_ignores_what_follows(buf: Seq<u8>, extra: Seq<u8>)
    requires
        !(framing(buf) is NeedMore),
    ensures
        framing(buf + extra) == framing(buf),
{
    let b2 = buf + extra;
    assert forall|k: int| 0 <= k < buf.len() implies #[trigger] b2[k] == buf[k] by {}
    lemma_first_index(3, buf.len() as int, crlf_crlf_ends_at(buf));
    assert forall|k: int| 3 <= k < buf.len() implies #[trigger] crlf_crlf_ends_at(buf)(k)
        == crlf_crlf_ends_at(b2)(k) by {
        assert(b2[k] == buf[k] && b2[k - 1] == buf[k - 1] && b2[k - 2] == buf[k - 2] && b2[k - 3]
            == buf[k - 3]);
    }
    crate::scan::lemma_first_index_extend(
        3,
        buf.len() as int,
        b2.len() as int,
        crlf_crlf_ends_at(buf),
        crlf_crlf_ends_at(b2),
    );
    let he = header_end(buf)->0;
    assert(header_end(b2) == header_end(buf));
    assert(crlf_crlf_ends_at(buf)(he - 1));
    assert(byte_is(buf, CR)(he - 4));
    lemma_first_index(0, buf.len() as int, byte_is(buf, CR));
    assert forall|k: int| 0 <= k < buf.len() implies #[trigger] byte_is(buf, CR)(k) == byte_is(
        b2,
        CR,
    )(k) by {}
    crate::scan::lemma_first_index_extend(
        0,
        buf.len() as int,
        b2.len() as int,
        byte_is(buf, CR),
        byte_is(b2, CR),
    );
    let end = first_index(0, buf.len() as int, byte_is(buf, CR))->0;
    assert(end <= he - 4);
    assert forall|k: int| 0 <= k < end implies #[trigger] byte_is(buf, SPACE)(k) == byte_is(
        b2,
        SPACE,
    )(k) by {}
    crate::scan::lemma_first_index_same(0, end, byte_is(buf, SPACE), byte_is(b2, SPACE));
    lemma_first_index(0, end, byte_is(buf, SPACE));
    if let Some(method_end) = first_index(0, end, byte_is(buf, SPACE)) {
        assert(b2.subrange(0, method_end) =~= buf.subrange(0, method_end));
        let path_start = method_end + 1;
        assert forall|k: int| path_start <= k < end implies #[trigger] byte_is(buf, SPACE)(k)
            == byte_is(b2, SPACE)(k) by {}
        crate::scan::lemma_first_index_same(path_start, end, byte_is(buf, SPACE), byte_is(b2, SPACE));
        lemma_first_index(path_start, end, byte_is(buf, SPACE));
    }
    assert(first_line(b2) == first_line(buf));
    if let Some((m, ps, pe, hl)) = first_line(buf) {
        assert(b2.subrange(hl, he) =~= buf.subrange(hl, he));
        assert(b2.subrange(ps, pe) =~= buf.subrange(ps, pe));
        assert(asks_close(b2, he) == asks_close(buf, he)) by {
            if asks_close(buf, he) {
                let i = choose|i: int|
                    0 <= i && i + 17 <= he && matches_ignore_case_at(buf, i, connection_close());
                assert(matches_ignore_case_at(b2, i, connection_close()));
            }
            if asks_close(b2, he) {
                let i = choose|i: int|
                    0 <= i && i + 17 <= he && matches_ignore_case_at(b2, i, connection_close());
                assert(he <= buf.len());
                assert forall|j: int| 0 <= j < connection_close().len() implies lower(
                    #[trigger] buf[i + j],
                ) == lower(connection_close()[j]) by {
                    assert(b2[i + j] == buf[i + j]);
                }
                assert(matches_ignore_case_at(buf, i, connection_close()));
            }
        }
    }
}

// ---------------------------------------------------------------------------
// Implementation

pub enum ParseResult<'a> {
    Complete(Request<'a>, usize),
    Reject(&'static [u8], usize),
    NeedMore,
}

/// The parse of `buf` agrees with the framing of `buf@`.
pub open spec fn parse_result_matches(buf: Seq<u8>, r: &ParseResult) -> bool {
    match *r {
        ParseResult::Complete(req, consumed) => framing(buf) matches Framing::Complete {
            method,
            path_start,
            path_end,
            body_start,
            body_end,
            keep_alive,
        } && req.method == method && req.path@ == buf.subrange(path_start, path_end) && req.body@
            == buf.subrange(body_start, body_end) && req.keep_alive == keep_alive && consumed
            == body_end,
        ParseResult::Reject(resp, consumed) => framing(buf) matches Framing::Reject {
            response,
            consumed: c,
        } && resp@ == response && consumed == c,
        ParseResult::NeedMore => framing(buf) is NeedMore,
    }
}

fn literal_bytes(s: &'static str) -> (r: &'static [u8])
    ensures
        r@ == wire(s),
{
    s.as_bytes()
}

fn bad_request() -> (r: &'static [u8])
    ensures
        r@ == wire(RESPONSE_BAD_REQUEST),
{
    literal_bytes(RESPONSE_BAD_REQUEST)
}

fn not_found() -> (r: &'static [u8])
    ensures
        r@ == wire(RESPONSE_NOT_FOUND),
{
    literal_bytes(RESPONSE_NOT_FOUND)
}

/// Parses one request from the front of `buf`: `Some((request, consumed))` exactly when
/// the buffer holds a complete request that is not refused.
pub fn parse_request<'a>(buf: &'a [u8]) -> (r: Option<(Request<'a>, usize)>)
    ensures
        match r {
            Some((req, consumed)) => parse_result_matches(
                buf@,
                &ParseResult::Complete(req, consumed),
            ),
            None => !(framing(buf@) is Complete),
        },
{
    match parse_request_result(buf) {
        ParseResult::Complete(req, consumed) => Some((req, consumed)),
        ParseResult::NeedMore => None,
        ParseResult::Reject(_, _) => None,
    }
}

/// Frames one request at the front of `buf`.
pub fn parse_request_result<'a>(buf: &'a [u8]) -> (r: ParseResult<'a>)
    ensures
        parse_result_matches(buf@, &r),
{
    let header_end = match find_header_end(buf) {
        Some(header_end) => header_end,
        None => return ParseResult::NeedMore,
    };
    let (method, path, headers_len) = match parse_first_line(buf) {
        Some(parts) => parts,
        None => return ParseResult::Reject(bad_request(), header_end),
    };
    proof {
        lemma_first_line_within_headers(buf@);
    }
    let headers = &buf[headers_len..header_end];
    let content_length = find_content_length(headers);

    let path_bytes = &buf[path.0..path.1];
    if let Some(response) = early_rejection(method, path_bytes, content_length) {
        return ParseResult::Reject(response, header_end);
    }
    let body_start = header_end;
    if content_length > buf.len() - body_start {
        return ParseResult::NeedMore;
    }
    let body_end = body_start + content_length;
    let keep_alive = !contains_connection_close(buf, header_end);

    ParseResult::Complete(
        Request { method, path: &buf[path.0..path.1], body: &buf[body_start..body_end], keep_alive },
        body_end,
    )
}

/// The request line ends before the blank line that closes the headers.
proof fn lemma_first_line_within_headers(buf: Seq<u8>)
    ensures
        header_end(buf) matches Some(he) ==> (first_line(buf) matches Some((m, ps, pe, hl)) ==> 0
            <= ps <= pe <= hl <= he <= buf.len()),
{
    lemma_first_index(3, buf.len() as int, crlf_crlf_ends_at(buf));
    lemma_first_index(0, buf.len() as int, byte_is(buf, CR));
    if let Some(he) = header_end(buf) {
        if let Some(end) = first_index(0, buf.len() as int, byte_is(buf, CR)) {
            assert(byte_is(buf, CR)(he - 4));
            lemma_first_index(0, end, byte_is(buf, SPACE));
            if let Some(method_end) = first_index(0, end, byte_is(buf, SPACE)) {
                lemma_first_index(method_end + 1, end, byte_is(buf, SPACE));
            }
        }
    }
}

/// Which response, if any, refuses a request right after its headers.
pub fn early_rejection(method: Method, path: &[u8], content_length: usize) -> (r: Option<
    &'static [u8],
>)
    ensures
        match early_rejection_of(method, path@, content_length as int) {
            Some(resp) => r matches Some(b) && b@ == resp,
            None => r is None,
        },
{
    let is_ready = path.len() == 6 && path[0] == 47 && path[1] == 114 && path[2] == 101 && path[3]
        == 97 && path[4] == 100 && path[5] == 121;
    let is_fraud = path.len() == 12 && path[0] == 47 && path[1] == 102 && path[2] == 114 && path[3]
        == 97 && path[4] == 117 && path[5] == 100 && path[6] == 45 && path[7] == 115 && path[8]
        == 99 && path[9] == 111 && path[10] == 114 && path[11] == 101;
    proof {
        if path@.len() == 6 {
            assert(is_ready <==> path@ =~= ready_path());
        } else {
            assert(path@ != ready_path());
        }
        if path@.len() == 12 {
            assert(is_fraud <==> path@ =~= fraud_score_path());
        } else {
            assert(path@ != fraud_score_path());
        }
    }
    match method {
        Method::Get => {
            if is_ready {
                None
            } else {
                Some(not_found())
            }
        },
        Method::Post => {
            if is_fraud {
                if content_length <= MAX_BODY_LEN {
                    None
                } else {
                    Some(bad_request())
                }
            } else {
                Some(not_found())
            }
        },
    }
}

/// Offset just past the first `\r\n\r\n` in `buf`.
pub fn find_header_end(buf: &[u8]) -> (r: Option<usize>)
    ensures
        opt_int(r) == header_end(buf@),
{
    let n = buf.len();
    let mut i: usize = 3;
    while i < n
        invariant
            3 <= i,
            n == buf@.len(),
            forall|k: int| 3 <= k < i ==> !#[trigger] crlf_crlf_ends_at(buf@)(k),
        decreases n - i,
    {
        if buf[i] == LF && buf[i - 1] == CR && buf[i - 2] == LF && buf[i - 3] == CR {
            proof {
                lemma_first_index_found(3, n as int, i as int, crlf_crlf_ends_at(buf@));
            }
            return Some(i + 1);
        }
        i += 1;
    }
    proof {
        lemma_first_index_none(3, n as int, crlf_crlf_ends_at(buf@));
    }
    None
}

/// Splits the request line into method, path span and the start of the header lines.
/// Any buffer a slice can hold qualifies; one with a blank line also at the size limit.
pub fn parse_first_line(buf: &[u8]) -> (r: Option<(Method, (usize, usize), usize)>)
    requires
        header_end(buf@) is Some || buf@.len() <= isize::MAX,
    ensures
        match r {
            Some((m, (ps, pe), hl)) => first_line(buf@) == Some((m, ps as int, pe as int, hl as int)),
            None => first_line(buf@) is None,
        },
{
    let end = match find_byte(buf, 0, buf.len(), CR) {
        Some(e) => e,
        None => return None,
    };
    proof {
        lemma_first_index(0, buf@.len() as int, byte_is(buf@, CR));
        lemma_first_index(3, buf@.len() as int, crlf_crlf_ends_at(buf@));
        if header_end(buf@) is Some {
            let he = header_end(buf@)->0;
            assert(byte_is(buf@, CR)(he - 4));
        }
    }
    let method_end = match find_byte(buf, 0, end, SPACE) {
        Some(e) => e,
        None => return None,
    };
    proof {
        lemma_first_index(0, end as int, byte_is(buf@, SPACE));
    }
    let is_get = method_end == 3 && buf[0] == 71 && buf[1] == 69 && buf[2] == 84;
    let is_post = method_end == 4 && buf[0] == 80 && buf[1] == 79 && buf[2] == 83 && buf[3] == 84;
    proof {
        let tok = buf@.subrange(0, method_end as int);
        if method_end == 3 {
            assert(is_get <==> tok =~= get_bytes());
        } else {
            assert(tok.len() != get_bytes().len());
        }
        if method_end == 4 {
            assert(is_post <==> tok =~= post_bytes());
        } else {
            assert(tok.len() != post_bytes().len());
        }
    }
    let method = if is_get {
        Method::Get
    } else if is_post {
        Method::Post
    } else {
        return None;
    };
    let path_start = method_end + 1;
    if path_start >= end {
        return None;
    }
    let path_end = match find_byte(buf, path_start, end, SPACE) {
        Some(e) => e,
        None => return None,
    };
    if path_end == path_start {
        return None;
    }
    Some((method, (path_start, path_end), end + 2))
}

fn is_ws(b: u8) -> (r: bool)
    ensures
        r == is_blank(b),
{
    b == SPACE || b == TAB
}

fn content_length_name_bytes() -> (r: &'static [u8])
    ensures
        r@ == content_length_name(),
{
    proof {
        reveal_strlit("content-length:");
        vstd::string::is_ascii_spec_bytes("content-length:");
    }
    let r = "content-length:".as_bytes();
    assert(r@ =~= content_length_name());
    r
}

fn connection_close_bytes() -> (r: &'static [u8])
    ensures
        r@ == connection_close(),
{
    proof {
        reveal_strlit("Connection: close");
        vstd::string::is_ascii_spec_bytes("Connection: close");
    }
    let r = "Connection: close".as_bytes();
    assert(r@ =~= connection_close());
    r
}

/// `buf[..end]` holds `Connection: close` in any case.
fn contains_connection_close(buf: &[u8], end: usize) -> (r: bool)
    requires
        end <= buf@.len(),
    ensures
        r == asks_close(buf@, end as int),
{
    let pat = connection_close_bytes();
    if end < 17 {
        return false;
    }
    let mut i: usize = 0;
    while i <= end - 17
        invariant
            end <= buf@.len(),
            17 <= end,
            pat@ == connection_close(),
            forall|k: int|
                0 <= k < i ==> !#[trigger] matches_ignore_case_at(buf@, k, connection_close()),
        decreases end - i,
    {
        if eq_ignore_case_at(buf, i, pat) {
            return true;
        }
        i += 1;
    }
    false
}

/// Content-Length announced in a header block (see `content_length`).
pub fn find_content_length(headers: &[u8]) -> (r: usize)
    ensures
        r == content_length(headers@),
{
    let n = headers.len();
    let needle = content_length_name_bytes();
    if n < 15 {
        proof {
            lemma_first_index_none(0, n - 14, names_content_length(headers@));
        }
        return 0;
    }
    let mut i: usize = 0;
    while i <= n - 15
        invariant
            n == headers@.len(),
            15 <= n,
            needle@ == content_length_name(),
            forall|k: int| 0 <= k < i ==> !#[trigger] names_content_length(headers@)(k),
        decreases n - i,
    {
        if ascii_lower(headers[i]) == 99 {
            if eq_ignore_case_at(headers, i, needle) {
                proof {
                    lemma_first_index_found(0, n - 14, i as int, names_content_length(headers@));
                }
                return read_content_length_value(headers, i + 15);
            }
        } else {
            assert(!names_content_length(headers@)(i as int)) by {
                assert(lower(headers@[i + 0]) != lower(content_length_name()[0]));
            }
        }
        i += 1;
    }
    proof {
        lemma_first_index_none(0, n - 14, names_content_length(headers@));
    }
    0
}

/// The digits after `content-length:` that starts the value region at `rest`.
fn read_content_length_value(h: &[u8], rest: usize) -> (r: usize)
    requires
        rest <= h@.len(),
    ensures
        r == value_at(h@, rest as int),
{
    let n = h.len();
    let mut vs: usize = rest;
    while vs < n && is_ws(h[vs])
        invariant
            rest <= vs <= n,
            n == h@.len(),
            forall|k: int| rest <= k < vs ==> !#[trigger] not_blank(h@)(k),
        decreases n - vs,
    {
        vs += 1;
    }
    proof {
        if vs < n {
            lemma_first_index_found(rest as int, n as int, vs as int, not_blank(h@));
        } else {
            lemma_first_index_none(rest as int, n as int, not_blank(h@));
        }
    }
    let vs: usize = if vs < n {
        vs
    } else {
        rest
    };
    let mut ve: usize = vs;
    while ve < n && !(h[ve] == CR || is_ws(h[ve]))
        invariant
            vs <= ve <= n,
            n == h@.len(),
            forall|k: int| vs <= k < ve ==> !#[trigger] ends_value(h@)(k),
        decreases n - ve,
    {
        ve += 1;
    }
    proof {
        if ve < n {
            lemma_first_index_found(vs as int, n as int, ve as int, ends_value(h@));
        } else {
            lemma_first_index_none(vs as int, n as int, ends_value(h@));
        }
    }
    assert(value_start(h@, rest as int) == vs);
    assert(value_end(h@, vs as int) == ve);
    let ghost digits = h@.subrange(vs as int, ve as int);
    let mut num: usize = 0;
    let mut k: usize = vs;
    while k < ve
        invariant
            vs <= k <= ve <= n,
            n == h@.len(),
            digits == h@.subrange(vs as int, ve as int),
            value_start(h@, rest as int) == vs,
            value_end(h@, vs as int) == ve,
            forall|j: int| vs <= j < k ==> is_digit(#[trigger] h@[j]),
            num == saturating_decimal(h@.subrange(vs as int, k as int)),
        decreases ve - k,
    {
        let b = h[k];
        if !(48 <= b && b <= 57) {
            assert(!is_digit(digits[k - vs]));
            assert(!(forall|j: int| 0 <= j < digits.len() ==> is_digit(#[trigger] digits[j])));
            return 0;
        }
        let d = (b - 48) as usize;
        proof {
            assert(h@.subrange(vs as int, k + 1).drop_last() =~= h@.subrange(vs as int, k as int));
        }
        num = match num.checked_mul(10) {
            Some(t) => t.saturating_add(d),
            None => usize::MAX,
        };
        k += 1;
    }
    assert(h@.subrange(vs as int, ve as int) =~= digits);
    assert forall|j: int| 0 <= j < digits.len() implies is_digit(#[trigger] digits[j]) by {
        assert(digits[j] == h@[vs + j]);
    }
    num
}

} // verus!
