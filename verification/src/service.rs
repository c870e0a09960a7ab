//! The decisions of the request loop: which response a request gets, and what to do next
//! with the bytes a connection has delivered.

use vstd::prelude::*;
use crate::{PACKED_DIMS, SCALE};
use crate::http::{
    Framing, Method, ParseResult, RESPONSE_BAD_REQUEST, RESPONSE_FRAUD_0, RESPONSE_FRAUD_1,
    RESPONSE_FRAUD_2, RESPONSE_FRAUD_3, RESPONSE_FRAUD_4, RESPONSE_FRAUD_5, RESPONSE_NOT_FOUND,
    RESPONSE_NOT_READY, RESPONSE_READY, Request, fraud_score_path, framing, parse_request_result,
    parse_result_matches, ready_path, wire, lemma_complete_bounds, lemma_framing_ignores_what_follows, MAX_BODY_LEN, CR, SPACE, asks_close, connection_close, content_length, content_length_name, crlf_crlf_ends_at, ends_value,
    names_content_length, not_blank, post_bytes, saturating_decimal,
};
use crate::scan::{byte_is, first_index, lemma_first_index_found, lower, matches_ignore_case_at};

verus! {

/// What a request asks for.
pub enum Action<'a> {
    /// Answer with these bytes.
    Reply(&'static [u8]),
    /// Score this payload.
    Score(&'a [u8]),
}

fn bytes_of(s: &'static str) -> (r: &'static [u8])
    ensures
        r@ == wire(s),
{
    s.as_bytes()
}

/// Routes a request: `GET /ready` answers readiness, `POST /fraud-score` is scored once
/// the service is ready, anything else is not found.
pub fn dispatch<'a>(req: &Request<'a>, ready: bool) -> (a: Action<'a>)
    ensures
        if req.method == Method::Get && req.path@ == ready_path() {
            a matches Action::Reply(r) && r@ == (if ready {
                wire(RESPONSE_READY)
            } else {
                wire(RESPONSE_NOT_READY)
            })
        } else if req.method == Method::Post && req.path@ == fraud_score_path() {
            if ready {
                a matches Action::Score(b) && b@ == req.body@
            } else {
                a matches Action::Reply(r) && r@ == wire(RESPONSE_NOT_READY)
            }
        } else {
            a matches Action::Reply(r) && r@ == wire(RESPONSE_NOT_FOUND)
        },
{
    let path = req.path;
    let is_ready_path = path.len() == 6 && path[0] == 47 && path[1] == 114 && path[2] == 101
        && path[3] == 97 && path[4] == 100 && path[5] == 121;
    let is_fraud_path = path.len() == 12 && path[0] == 47 && path[1] == 102 && path[2] == 114
        && path[3] == 97 && path[4] == 117 && path[5] == 100 && path[6] == 45 && path[7] == 115
        && path[8] == 99 && path[9] == 111 && path[10] == 114 && path[11] == 101;
    proof {
        if path@.len() == 6 {
            assert(is_ready_path <==> path@ =~= ready_path());
        } else {
            assert(path@ != ready_path());
        }
        if path@.len() == 12 {
            assert(is_fraud_path <==> path@ =~= fraud_score_path());
        } else {
            assert(path@ != fraud_score_path());
        }
    }
    match req.method {
        Method::Get => {
            if is_ready_path {
                if ready {
                    Action::Reply(bytes_of(RESPONSE_READY))
                } else {
                    Action::Reply(bytes_of(RESPONSE_NOT_READY))
                }
            } else {
                Action::Reply(bytes_of(RESPONSE_NOT_FOUND))
            }
        },
        Method::Post => {
            if is_fraud_path {
                if ready {
                    Action::Score(req.body)
                } else {
                    Action::Reply(bytes_of(RESPONSE_NOT_READY))
                }
            } else {
                Action::Reply(bytes_of(RESPONSE_NOT_FOUND))
            }
        },
    }
}

/// The response for a fraud count; counts above five answer as five.
pub open spec fn fraud_wire(count: u8) -> Seq<u8> {
    if count == 0 {
        wire(RESPONSE_FRAUD_0)
    } else if count == 1 {
        wire(RESPONSE_FRAUD_1)
    } else if count == 2 {
        wire(RESPONSE_FRAUD_2)
    } else if count == 3 {
        wire(RESPONSE_FRAUD_3)
    } else if count == 4 {
        wire(RESPONSE_FRAUD_4)
    } else {
        wire(RESPONSE_FRAUD_5)
    }
}

/// The JSON body answering a fraud count `c` of at most five: the transaction is approved
/// when fewer than three of the five nearest references are fraud, and the score is `c / 5`
/// written with one decimal.
pub open spec fn score_body(c: u8) -> Seq<u8> {
    wire("{\"approved\":") + (if c < 3 {
        wire("true")
    } else {
        wire("false")
    }) + wire(",\"fraud_score\":") + (if c >= 5 {
        wire("1.0")
    } else {
        wire("0.") + seq![(48 + 2 * c) as u8]
    }) + wire("}")
}

/// The response to a fraud count of at most five is `200 OK` with a `Content-Length` that
/// announces the body, and the body approves exactly counts below three and scores the
/// count as its share of five.
pub proof fn lemma_fraud_response_body(c: u8)
    requires
        c <= 5,
    ensures
        fraud_wire(c) == wire("HTTP/1.1 200 OK\r\nContent-Length: ") + decimal_digits(
            score_body(c).len(),
        ) + wire("\r\n\r\n") + score_body(c),
{
    reveal_strlit("HTTP/1.1 200 OK\r\nContent-Length: ");
    assert(vstd::string::is_ascii("HTTP/1.1 200 OK\r\nContent-Length: "));
    vstd::string::is_ascii_spec_bytes("HTTP/1.1 200 OK\r\nContent-Length: ");
    reveal_strlit("\r\n\r\n");
    assert(vstd::string::is_ascii("\r\n\r\n"));
    vstd::string::is_ascii_spec_bytes("\r\n\r\n");
    reveal_strlit("{\"approved\":");
    assert(vstd::string::is_ascii("{\"approved\":"));
    vstd::string::is_ascii_spec_bytes("{\"approved\":");
    reveal_strlit("true");
    assert(vstd::string::is_ascii("true"));
    vstd::string::is_ascii_spec_bytes("true");
    reveal_strlit("false");
    assert(vstd::string::is_ascii("false"));
    vstd::string::is_ascii_spec_bytes("false");
    reveal_strlit(",\"fraud_score\":");
    assert(vstd::string::is_ascii(",\"fraud_score\":"));
    vstd::string::is_ascii_spec_bytes(",\"fraud_score\":");
    reveal_strlit("1.0");
    assert(vstd::string::is_ascii("1.0"));
    vstd::string::is_ascii_spec_bytes("1.0");
    reveal_strlit("0.");
    assert(vstd::string::is_ascii("0."));
    vstd::string::is_ascii_spec_bytes("0.");
    reveal_strlit("}");
    assert(vstd::string::is_ascii("}"));
    vstd::string::is_ascii_spec_bytes("}");
    reveal_with_fuel(decimal_digits, 3);
    if c == 0 {
        reveal_strlit("HTTP/1.1 200 OK\r\nContent-Length: 35\r\n\r\n{\"approved\":true,\"fraud_score\":0.0}");
        assert(vstd::string::is_ascii(RESPONSE_FRAUD_0));
        vstd::string::is_ascii_spec_bytes(RESPONSE_FRAUD_0);
    } else if c == 1 {
        reveal_strlit("HTTP/1.1 200 OK\r\nContent-Length: 35\r\n\r\n{\"approved\":true,\"fraud_score\":0.2}");
        assert(vstd::string::is_ascii(RESPONSE_FRAUD_1));
        vstd::string::is_ascii_spec_bytes(RESPONSE_FRAUD_1);
    } else if c == 2 {
        reveal_strlit("HTTP/1.1 200 OK\r\nContent-Length: 35\r\n\r\n{\"approved\":true,\"fraud_score\":0.4}");
        assert(vstd::string::is_ascii(RESPONSE_FRAUD_2));
        vstd::string::is_ascii_spec_bytes(RESPONSE_FRAUD_2);
    } else if c == 3 {
        reveal_strlit("HTTP/1.1 200 OK\r\nContent-Length: 36\r\n\r\n{\"approved\":false,\"fraud_score\":0.6}");
        assert(vstd::string::is_ascii(RESPONSE_FRAUD_3));
        vstd::string::is_ascii_spec_bytes(RESPONSE_FRAUD_3);
    } else if c == 4 {
        reveal_strlit("HTTP/1.1 200 OK\r\nContent-Length: 36\r\n\r\n{\"approved\":false,\"fraud_score\":0.8}");
        assert(vstd::string::is_ascii(RESPONSE_FRAUD_4));
        vstd::string::is_ascii_spec_bytes(RESPONSE_FRAUD_4);
    } else {
        reveal_strlit("HTTP/1.1 200 OK\r\nContent-Length: 36\r\n\r\n{\"approved\":false,\"fraud_score\":1.0}");
        assert(vstd::string::is_ascii(RESPONSE_FRAUD_5));
        vstd::string::is_ascii_spec_bytes(RESPONSE_FRAUD_5);
    }
    assert(fraud_wire(c) =~= wire("HTTP/1.1 200 OK\r\nContent-Length: ") + decimal_digits(
        score_body(c).len(),
    ) + wire("\r\n\r\n") + score_body(c));
}

pub fn fraud_response(count: u8) -> (r: &'static [u8])
    ensures
        r@ == fraud_wire(count),
{
    if count == 0 {
        bytes_of(RESPONSE_FRAUD_0)
    } else if count == 1 {
        bytes_of(RESPONSE_FRAUD_1)
    } else if count == 2 {
        bytes_of(RESPONSE_FRAUD_2)
    } else if count == 3 {
        bytes_of(RESPONSE_FRAUD_3)
    } else if count == 4 {
        bytes_of(RESPONSE_FRAUD_4)
    } else {
        bytes_of(RESPONSE_FRAUD_5)
    }
}

/// Bytes a connection keeps for requests not yet answered.
pub const CONNECTION_BUFFER: usize = 2048;

/// What to do with the bytes a connection has delivered and not yet consumed.
pub enum Step<'a> {
    /// Answer this request, drop `consumed` bytes and go on with the rest.
    Serve(Request<'a>, usize),
    /// Answer this request, which asked to close, then close the connection.
    ServeThenClose(Request<'a>),
    /// Send these bytes and close the connection.
    Close(&'static [u8]),
    /// Read more bytes.
    Read,
}

/// Decides the next step for the pending bytes: a complete request is served (and the
/// connection closed after it when it asks so), a refused one closes the connection with
/// its response, and an incomplete one waits for more bytes unless the buffer is already
/// full, which closes with 400.
pub fn connection_step<'a>(pending: &'a [u8], buffer_full: bool) -> (s: Step<'a>)
    ensures
        match framing(pending@) {
            Framing::Complete { keep_alive, body_end, .. } => if keep_alive {
                s matches Step::Serve(req, consumed) && parse_result_matches(
                    pending@,
                    &ParseResult::Complete(req, consumed),
                )
            } else {
                s matches Step::ServeThenClose(req) && parse_result_matches(
                    pending@,
                    &ParseResult::Complete(req, body_end as usize),
                )
            },
            Framing::Reject { response, .. } => s matches Step::Close(r) && r@ == response,
            Framing::NeedMore => if buffer_full {
                s matches Step::Close(r) && r@ == wire(RESPONSE_BAD_REQUEST)
            } else {
                s is Read
            },
        },
{
    match parse_request_result(pending) {
        ParseResult::Complete(req, consumed) => if req.keep_alive {
            Step::Serve(req, consumed)
        } else {
            Step::ServeThenClose(req)
        },
        ParseResult::Reject(response, _) => Step::Close(response),
        ParseResult::NeedMore => if buffer_full {
            Step::Close(bytes_of(RESPONSE_BAD_REQUEST))
        } else {
            Step::Read
        },
    }
}

/// How a run of connection steps over some bytes ends.
pub enum RunEnd {
    /// The rest is an incomplete request, kept until more bytes come.
    Waiting(Seq<u8>),
    /// A request was refused with this response, and the connection closed.
    Refused(Seq<u8>),
    /// A request that asked to close was answered, and the connection closed.
    Closed,
}

/// The steps a connection takes over the bytes `pending`, until it must read more or
/// closes: the bytes of each request answered, in order, and how the run ends. Nothing
/// after a refused request or a request that asks to close is looked at.
pub open spec fn run(pending: Seq<u8>) -> (Seq<Seq<u8>>, RunEnd)
    decreases pending.len(),
{
    match framing(pending) {
        Framing::Complete { body_end, keep_alive, .. } => {
            proof {
                lemma_complete_bounds(pending);
            }
            if keep_alive {
                let rest = run(pending.subrange(body_end, pending.len() as int));
                (seq![pending.subrange(0, body_end)] + rest.0, rest.1)
            } else {
                (seq![pending.subrange(0, body_end)], RunEnd::Closed)
            }
        },
        Framing::Reject { response, .. } => (Seq::empty(), RunEnd::Refused(response)),
        Framing::NeedMore => (Seq::empty(), RunEnd::Waiting(pending)),
    }
}

/// `r` is one whole request that keeps the connection open.
pub open spec fn keep_alive_request(r: Seq<u8>) -> bool {
    framing(r) matches Framing::Complete { body_end, keep_alive, .. } && keep_alive && body_end
        == r.len()
}

/// Requests sent back to back on one connection are answered one after the other, each
/// as it frames alone, and the connection then goes on with whatever follows them.
pub proof fn lemma_pipelined_requests(rs: Seq<Seq<u8>>, tail: Seq<u8>)
    requires
        forall|i: int| 0 <= i < rs.len() ==> keep_alive_request(#[trigger] rs[i]),
    ensures
        run(rs.flatten() + tail) == (rs + run(tail).0, run(tail).1),
    decreases rs.len(),
{
    if rs.len() == 0 {
        assert(rs.flatten() + tail =~= tail);
        assert(rs + run(tail).0 =~= run(tail).0);
    } else {
        let r = rs[0];
        let more = rs.drop_first();
        assert forall|i: int| 0 <= i < more.len() implies keep_alive_request(#[trigger] more[i]) by {
            assert(more[i] == rs[i + 1]);
        }
        lemma_pipelined_requests(more, tail);
        let all = rs.flatten() + tail;
        let after = more.flatten() + tail;
        assert(all =~= r + after);
        assert(keep_alive_request(rs[0]));
        lemma_framing_ignores_what_follows(r, after);
        assert(all.subrange(0, r.len() as int) =~= r);
        assert(all.subrange(r.len() as int, all.len() as int) =~= after);
        assert(rs =~= seq![r] + more);
        assert(rs + run(tail).0 =~= seq![r] + (more + run(tail).0));
    }
}

/// After requests that keep the connection open, a refused request, or a request that
/// asks to close, ends the run: it is answered (a refusal with its response) and nothing
/// that follows it is handled.
pub proof fn lemma_run_stops(rs: Seq<Seq<u8>>, last: Seq<u8>, rest: Seq<u8>)
    requires
        forall|i: int| 0 <= i < rs.len() ==> keep_alive_request(#[trigger] rs[i]),
        framing(last) is Reject || (framing(last) matches Framing::Complete { body_end, keep_alive, .. }
            && !keep_alive && body_end == last.len()),
    ensures
        run(rs.flatten() + last + rest) == match framing(last) {
            Framing::Reject { response, .. } => (rs, RunEnd::Refused(response)),
            _ => (rs.push(last), RunEnd::Closed),
        },
{
    lemma_pipelined_requests(rs, last + rest);
    assert(rs.flatten() + last + rest =~= rs.flatten() + (last + rest));
    lemma_framing_ignores_what_follows(last, rest);
    let tail = last + rest;
    if framing(last) is Reject {
        assert(rs + Seq::<Seq<u8>>::empty() =~= rs);
    } else {
        assert(tail.subrange(0, last.len() as int) =~= last);
        assert(rs + seq![last] =~= rs.push(last));
    }
}

/// Dimension `dim` of synthetic warm-up query `i`: a spread of values over the scale, with
/// no previous transaction for every fourth query.
pub open spec fn warmup_value(i: int, dim: int) -> i16 {
    if (dim == 5 || dim == 6) && i % 4 == 0 {
        -10000i16
    } else {
        ((i * 313 + dim * 1009) % 10001) as i16
    }
}

/// The `i`-th synthetic query run before the service reports ready.
pub fn warmup_query(i: usize) -> (q: [i16; PACKED_DIMS])
    requires
        i * 313 + 15 * 1009 <= usize::MAX,
    ensures
        forall|d: int| 0 <= d < PACKED_DIMS ==> #[trigger] q@[d] == warmup_value(i as int, d),
{
    let mut q = [0i16; PACKED_DIMS];
    let scale = SCALE as usize;
    let mut dim: usize = 0;
    while dim < PACKED_DIMS
        invariant
            dim <= PACKED_DIMS,
            scale == 10000,
            i * 313 + 15 * 1009 <= usize::MAX,
            forall|d: int| 0 <= d < dim ==> #[trigger] q@[d] == warmup_value(i as int, d),
        decreases PACKED_DIMS - dim,
    {
        let raw = ((i * 313 + dim * 1009) % (scale + 1)) as i16;
        let v = if (dim == 5 || dim == 6) && i % 4 == 0 {
            -SCALE
        } else {
            raw
        };
        q[dim] = v;
        dim += 1;
    }
    q
}

/// Decimal digits of `n`, most significant first.
pub open spec fn decimal_digits(n: nat) -> Seq<u8>
    decreases n,
{
    if n < 10 {
        seq![(48 + n) as u8]
    } else {
        decimal_digits(n / 10).push((48 + n % 10) as u8)
    }
}

fn push_decimal(out: &mut Vec<u8>, n: usize)
    ensures
        final(out)@ == old(out)@ + decimal_digits(n as nat),
    decreases n,
{
    if n >= 10 {
        push_decimal(out, n / 10);
    }
    out.push((48 + n % 10) as u8);
    proof {
        if n < 10 {
            assert(decimal_digits(n as nat) == seq![(48 + n) as u8]);
        }
        assert(out@ =~= old(out)@ + decimal_digits(n as nat));
    }
}

/// Request line and headers of a warm-up request, up to its Content-Length value.
pub const WARMUP_REQUEST_HEAD: &'static str =
    "POST /fraud-score HTTP/1.1\r\nHost: localhost\r\nContent-Length: ";

/// A `POST /fraud-score` request carrying `body`, as the service warms up its payload path
/// with.
pub fn warmup_request(body: &[u8]) -> (r: Vec<u8>)
    ensures
        r@ == warmup_bytes(body@),
{
    let head = bytes_of(WARMUP_REQUEST_HEAD);
    let mut out: Vec<u8> = Vec::new();
    let mut i: usize = 0;
    while i < head.len()
        invariant
            i <= head@.len(),
            out@ == head@.subrange(0, i as int),
        decreases head@.len() - i,
    {
        out.push(head[i]);
        i += 1;
        assert(out@ =~= head@.subrange(0, i as int));
    }
    assert(head@.subrange(0, head@.len() as int) =~= head@);
    push_decimal(&mut out, body.len());
    out.push(13);
    out.push(10);
    out.push(13);
    out.push(10);
    let ghost mid = out@;
    let mut j: usize = 0;
    while j < body.len()
        invariant
            j <= body@.len(),
            out@ == mid + body@.subrange(0, j as int),
        decreases body@.len() - j,
    {
        out.push(body[j]);
        j += 1;
        assert(out@ =~= mid + body@.subrange(0, j as int));
    }
    assert(body@.subrange(0, body@.len() as int) =~= body@);
    assert(out@ =~= wire(WARMUP_REQUEST_HEAD) + decimal_digits(body@.len()) + seq![13u8, 10u8, 13u8, 10u8]
        + body@);
    out
}

/// Bytes of `WARMUP_REQUEST_HEAD`.
pub open spec fn warmup_head() -> Seq<u8> {
    seq![
        80u8, 79u8, 83u8, 84u8, 32u8, 47u8, 102u8, 114u8, 97u8, 117u8, 100u8, 45u8, 115u8, 99u8,
        111u8, 114u8, 101u8, 32u8, 72u8, 84u8, 84u8, 80u8, 47u8, 49u8, 46u8, 49u8, 13u8, 10u8,
        72u8, 111u8, 115u8, 116u8, 58u8, 32u8, 108u8, 111u8, 99u8, 97u8, 108u8, 104u8, 111u8,
        115u8, 116u8, 13u8, 10u8, 67u8, 111u8, 110u8, 116u8, 101u8, 110u8, 116u8, 45u8, 76u8,
        101u8, 110u8, 103u8, 116u8, 104u8, 58u8, 32u8
    ]
}

proof fn lemma_warmup_head()
    ensures
        wire(WARMUP_REQUEST_HEAD) == warmup_head(),
{
    reveal_strlit("POST /fraud-score HTTP/1.1\r\nHost: localhost\r\nContent-Length: ");
    let s = WARMUP_REQUEST_HEAD;
    assert(vstd::string::is_ascii(s));
    vstd::string::is_ascii_spec_bytes(s);
    assert(wire(s) =~= warmup_head());
}

/// The warm-up request for `body`: its head, the body's length in decimal, a blank line and
/// the body.
pub open spec fn warmup_bytes(body: Seq<u8>) -> Seq<u8> {
    wire(WARMUP_REQUEST_HEAD) + decimal_digits(body.len()) + seq![13u8, 10u8, 13u8, 10u8] + body
}

proof fn lemma_decimal_digits(n: nat)
    ensures
        decimal_digits(n).len() >= 1,
        forall|k: int|
            0 <= k < decimal_digits(n).len() ==> 48 <= #[trigger] decimal_digits(n)[k] <= 57,
        n <= usize::MAX ==> saturating_decimal(decimal_digits(n)) == n,
    decreases n,
{
    let d = decimal_digits(n);
    if n >= 10 {
        lemma_decimal_digits(n / 10);
        let s = decimal_digits(n / 10);
        assert(d.drop_last() =~= s);
        vstd::arithmetic::div_mod::lemma_fundamental_div_mod(n as int, 10);
        assert(0 <= n % 10 < 10);
        assert(d.last() == 48 + n % 10);
        if n <= usize::MAX {
            assert(saturating_decimal(s) == n / 10);
            assert(saturating_decimal(d) == saturating_decimal(s) * 10 + (d.last() - 48));
            assert(saturating_decimal(d) == n);
        }
        assert forall|k: int| 0 <= k < d.len() implies 48 <= #[trigger] d[k] <= 57 by {
            if k < s.len() {
                assert(d[k] == s[k]);
            }
        }
    } else {
        assert(d.drop_last() =~= Seq::<u8>::empty());
        assert(d.last() == 48 + n);
        assert(saturating_decimal(Seq::<u8>::empty()) == 0);
        assert(saturating_decimal(d) == n);
    }
}

/// A warm-up request frames as a kept-alive `POST /fraud-score` whose body is exactly the
/// body it was built with, when that body is within what the endpoint accepts; a larger
/// one is refused with 400 as soon as its headers are in.
pub proof fn lemma_warmup_request_frames(body: Seq<u8>)
    requires
        body.len() <= usize::MAX,
    ensures
        ({
            let w = warmup_bytes(body);
            let he = w.len() - body.len();
            if body.len() <= MAX_BODY_LEN {
                framing(w) == Framing::Complete {
                    method: Method::Post,
                    path_start: 5,
                    path_end: 17,
                    body_start: he,
                    body_end: w.len() as int,
                    keep_alive: true,
                }
            } else {
                framing(w) == Framing::Reject { response: wire(RESPONSE_BAD_REQUEST), consumed: he }
            }
        }),
        warmup_bytes(body).subrange(5, 17) == fraud_score_path(),
{
    lemma_warmup_head();
    let h = warmup_head();
    let n = body.len();
    let d = decimal_digits(n);
    lemma_decimal_digits(n);
    let nd = d.len() as int;
    let w = warmup_bytes(body);
    let he = 65 + nd;
    assert(w.len() == he + n);
    assert forall|k: int| 0 <= k < 61 implies #[trigger] w[k] == h[k] by {}
    assert forall|k: int| 61 <= k < 61 + nd implies #[trigger] w[k] == d[k - 61] by {}
    assert(w[61 + nd] == 13 && w[62 + nd] == 10 && w[63 + nd] == 13 && w[64 + nd] == 10);

    // The blank line after the digits ends the headers.
    assert forall|k: int| 3 <= k < he - 1 implies !#[trigger] crlf_crlf_ends_at(w)(k) by {
        if k < 61 {
            if k == 27 {
                assert(w[24] == h[24]);
            } else if k == 44 {
                assert(w[41] == h[41]);
            } else {
                assert(w[k] == h[k]);
            }
        } else if k < 61 + nd {
            assert(48 <= d[k - 61]);
        } else if k == 62 + nd {
            assert(w[60 + nd] == d[nd - 1]);
            assert(48 <= d[nd - 1]);
        }
    }
    assert(crlf_crlf_ends_at(w)(he - 1));
    lemma_first_index_found(3, w.len() as int, he - 1, crlf_crlf_ends_at(w));

    // Request line: `POST`, then the path up to the second space, then CR at 26.
    assert forall|k: int| 0 <= k < 26 implies !#[trigger] byte_is(w, CR)(k) by {
        assert(w[k] == h[k]);
    }
    assert(byte_is(w, CR)(26));
    lemma_first_index_found(0, w.len() as int, 26, byte_is(w, CR));
    assert forall|k: int| 0 <= k < 4 implies !#[trigger] byte_is(w, SPACE)(k) by {
        assert(w[k] == h[k]);
    }
    assert(byte_is(w, SPACE)(4));
    lemma_first_index_found(0, 26, 4, byte_is(w, SPACE));
    assert(w.subrange(0, 4) =~= post_bytes());
    assert forall|k: int| 5 <= k < 17 implies !#[trigger] byte_is(w, SPACE)(k) by {
        assert(w[k] == h[k]);
    }
    assert(byte_is(w, SPACE)(17));
    lemma_first_index_found(5, 26, 17, byte_is(w, SPACE));
    assert(w.subrange(5, 17) =~= fraud_score_path());

    // Content-Length: the digits after `Content-Length: `.
    let hd = w.subrange(28, he);
    assert forall|k: int| 0 <= k < hd.len() implies #[trigger] hd[k] == w[28 + k] by {}
    let pat = content_length_name();
    assert forall|i: int| 0 <= i < 17 implies !#[trigger] names_content_length(hd)(i) by {
        if i == 8 {
            assert(hd[9] == w[37]);
            assert(lower(hd[i + 1]) != lower(pat[1]));
        } else {
            assert(hd[i] == w[28 + i]);
            assert(lower(hd[i + 0]) != lower(pat[0]));
        }
    }
    assert forall|j: int| 0 <= j < pat.len() implies lower(#[trigger] hd[17 + j]) == lower(pat[j]) by {
        assert(hd[17 + j] == w[45 + j]);
    }
    assert(names_content_length(hd)(17));
    lemma_first_index_found(0, hd.len() - 14, 17, names_content_length(hd));
    assert(!not_blank(hd)(32));
    assert(hd[33] == d[0]);
    assert(not_blank(hd)(33));
    lemma_first_index_found(32, hd.len() as int, 33, not_blank(hd));
    assert forall|k: int| 33 <= k < 33 + nd implies !#[trigger] ends_value(hd)(k) by {
        assert(hd[k] == d[k - 33]);
        assert(48 <= d[k - 33]);
    }
    assert(ends_value(hd)(33 + nd));
    lemma_first_index_found(33, hd.len() as int, 33 + nd, ends_value(hd));
    assert(hd.subrange(33, 33 + nd) =~= d);
    assert(content_length(hd) == n);

    // No `Connection: close` among the headers.
    let cc = connection_close();
    assert(!asks_close(w, he)) by {
        if asks_close(w, he) {
            let i = choose|i: int|
                0 <= i && i + 17 <= he && matches_ignore_case_at(w, i, connection_close());
            if i == 13 {
                assert(lower(w[i + 2]) == lower(cc[2]));
                assert(w[15] == h[15]);
            } else if i == 36 {
                assert(lower(w[i + 1]) == lower(cc[1]));
                assert(w[37] == h[37]);
            } else if i == 45 {
                assert(lower(w[i + 3]) == lower(cc[3]));
                assert(w[48] == h[48]);
            } else {
                assert(lower(w[i + 0]) == lower(cc[0]));
                if i < 61 {
                    assert(w[i] == h[i]);
                } else {
                    assert(w[i] == d[i - 61]);
                }
            }
        }
    }
}

} // verus!
