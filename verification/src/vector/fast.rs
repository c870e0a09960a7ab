//! Single-pass scanners that read a payload by searching for each quoted key in turn.

use vstd::prelude::*;
use vstd::string::StringSliceAdditionalSpecFns;
use crate::scan::{
    byte_is, first_index, lemma_first_index, lemma_first_index_found, lemma_first_index_none,
    matches_at, eq_at, find_byte, opt_int,
};
use super::ParseError;
use super::datetime::is_digit;
use super::hash::{hash_bytes, hash_of};

verus! {

pub const QUOTE: u8 = 34;
pub const COLON: u8 = 58;
pub const BACKSLASH: u8 = 92;
pub const MINUS: u8 = 45;
pub const PLUS: u8 = 43;
pub const DOT: u8 = 46;
pub const OPEN_BRACKET: u8 = 91;
pub const CLOSE_BRACKET: u8 = 93;
pub const LOWER_N: u8 = 110;

/// Most known merchants a payload contributes.
pub const MAX_KNOWN_MERCHANTS: usize = 64;

pub open spec fn json_ws(b: u8) -> bool {
    b == 32 || b == 10 || b == 13 || b == 9
}

pub open spec fn not_json_ws(s: Seq<u8>) -> spec_fn(int) -> bool {
    |i: int| !json_ws(s[i])
}

pub open spec fn name_at(s: Seq<u8>, name: Seq<u8>) -> spec_fn(int) -> bool {
    |i: int| matches_at(s, i, name)
}

/// First non-whitespace position at or after `from`, or the end.
pub open spec fn skip_ws(s: Seq<u8>, from: int) -> int {
    match first_index(from, s.len() as int, not_json_ws(s)) {
        Some(v) => v,
        None => s.len() as int,
    }
}

/// Start of the value of the first occurrence of `name` at or after `cursor`: past the
/// next colon and any whitespace.
pub open spec fn value_start_of(s: Seq<u8>, name: Seq<u8>, cursor: int) -> Option<int> {
    if cursor >= s.len() {
        None
    } else {
        match first_index(cursor, s.len() - name.len() + 1, name_at(s, name)) {
            None => None,
            Some(i) => match first_index(i + name.len(), s.len() as int, byte_is(s, COLON)) {
                None => None,
                Some(c) => Some(skip_ws(s, c + 1)),
            },
        }
    }
}

pub open spec fn is_digit_at(s: Seq<u8>) -> spec_fn(int) -> bool {
    |i: int| !is_digit(s[i])
}

/// End of the run of digits starting at `from`.
pub open spec fn digits_end(s: Seq<u8>, from: int) -> int {
    match first_index(from, s.len() as int, is_digit_at(s)) {
        Some(v) => v,
        None => s.len() as int,
    }
}

/// Value of a string of decimal digits.
pub open spec fn decimal(d: Seq<u8>) -> int
    decreases d.len(),
{
    if d.len() == 0 {
        0
    } else {
        10 * decimal(d.drop_last()) + (d.last() - 48)
    }
}

/// An optional minus and digits at `start`, read as an `i32`.
pub open spec fn int_at(s: Seq<u8>, start: int) -> Option<i32> {
    let neg = start < s.len() && s[start] == MINUS;
    let ds = if neg {
        start + 1
    } else {
        start
    };
    let de = digits_end(s, ds);
    if de == ds {
        None
    } else {
        let v = if neg {
            -decimal(s.subrange(ds, de))
        } else {
            decimal(s.subrange(ds, de))
        };
        if i32::MIN <= v <= i32::MAX {
            Some(v as i32)
        } else {
            None
        }
    }
}

pub open spec fn true_bytes() -> Seq<u8> {
    seq![116u8, 114u8, 117u8, 101u8]
}

pub open spec fn false_bytes() -> Seq<u8> {
    seq![102u8, 97u8, 108u8, 115u8, 101u8]
}

pub open spec fn bool_at(s: Seq<u8>, start: int) -> Option<bool> {
    if matches_at(s, start, true_bytes()) {
        Some(true)
    } else if matches_at(s, start, false_bytes()) {
        Some(false)
    } else {
        None
    }
}

/// Position of the quote closing a string whose content starts at `i`; a backslash
/// escapes the byte after it.
pub open spec fn string_end(s: Seq<u8>, i: int, escaped: bool) -> Option<int>
    decreases s.len() - i,
{
    if i >= s.len() || i < 0 {
        None
    } else if escaped {
        string_end(s, i + 1, false)
    } else if s[i] == BACKSLASH {
        string_end(s, i + 1, true)
    } else if s[i] == QUOTE {
        Some(i)
    } else {
        string_end(s, i + 1, false)
    }
}

/// Raw content of the string literal at `start`, escapes left as they are.
pub open spec fn string_at(s: Seq<u8>, start: int) -> Option<Seq<u8>> {
    if start < 0 || start >= s.len() || s[start] != QUOTE {
        None
    } else {
        match string_end(s, start + 1, false) {
            Some(e) => Some(s.subrange(start + 1, e)),
            None => None,
        }
    }
}

/// End of the mantissa of a number literal scanned from `p`, and whether it had a digit:
/// digits, a sign in first place, one dot.
pub open spec fn mantissa_end(s: Seq<u8>, start: int, p: int, seen_dot: bool, seen_digit: bool) -> (
    int,
    bool,
)
    decreases s.len() - p,
{
    if p >= s.len() || p < start {
        (p, seen_digit)
    } else if is_digit(s[p]) {
        mantissa_end(s, start, p + 1, seen_dot, true)
    } else if (s[p] == MINUS || s[p] == PLUS) && p == start {
        mantissa_end(s, start, p + 1, seen_dot, seen_digit)
    } else if s[p] == DOT && !seen_dot {
        mantissa_end(s, start, p + 1, true, seen_digit)
    } else {
        (p, seen_digit)
    }
}

pub open spec fn is_exp_mark(b: u8) -> bool {
    b == 101 || b == 69
}

/// The text of the number literal at `start`, when it reads as a decimal floating-point
/// literal: a mantissa with at least one digit and, after `e`, an exponent with at least one.
pub open spec fn number_at(s: Seq<u8>, start: int) -> Option<Seq<u8>> {
    let (p, seen_digit) = mantissa_end(s, start, start, false, false);
    if p < s.len() && is_exp_mark(s[p]) && seen_digit {
        let q = if p + 1 < s.len() && (s[p + 1] == MINUS || s[p + 1] == PLUS) {
            p + 2
        } else {
            p + 1
        };
        let e = digits_end(s, q);
        if e > q {
            Some(s.subrange(start, e))
        } else {
            None
        }
    } else if seen_digit {
        Some(s.subrange(start, p))
    } else {
        None
    }
}

/// The quoted strings between `i` and `end`; `None` when a quote is left open.
pub open spec fn strings_between(s: Seq<u8>, i: int, end: int) -> Option<Seq<Seq<u8>>>
    decreases end - i,
{
    if i >= end {
        Some(Seq::empty())
    } else {
        match first_index(i, end, byte_is(s, QUOTE)) {
            None => Some(Seq::empty()),
            Some(q) => match first_index(q + 1, end, byte_is(s, QUOTE)) {
                None => None,
                Some(e) => {
                    proof {
                        lemma_first_index(i, end, byte_is(s, QUOTE));
                        lemma_first_index(q + 1, end, byte_is(s, QUOTE));
                    }
                    match strings_between(s, e + 1, end) {
                        None => None,
                        Some(rest) => Some(seq![s.subrange(q + 1, e)] + rest),
                    }
                },
            },
        }
    }
}

/// Hashes of the first `MAX_KNOWN_MERCHANTS` strings.
pub open spec fn known_hashes(strs: Seq<Seq<u8>>) -> Seq<u64> {
    let n = if strs.len() < MAX_KNOWN_MERCHANTS {
        strs.len() as int
    } else {
        MAX_KNOWN_MERCHANTS as int
    };
    Seq::new(n as nat, |k: int| hash_of(strs[k]))
}

/// Merchant category code: four digits, anything else reads as 0.
pub open spec fn mcc_code(s: Seq<u8>) -> i32 {
    if s.len() == 4 && is_digit(s[0]) && is_digit(s[1]) && is_digit(s[2]) && is_digit(s[3]) {
        (1000 * (s[0] - 48) + 100 * (s[1] - 48) + 10 * (s[2] - 48) + (s[3] - 48)) as i32
    } else {
        0
    }
}

pub fn is_json_whitespace(b: u8) -> (r: bool)
    ensures
        r == json_ws(b),
{
    b == 32 || b == 10 || b == 13 || b == 9
}

/// Position of the first occurrence of `name` at or after `from`.
fn find_name(json: &[u8], name: &[u8], from: usize) -> (r: Option<usize>)
    ensures
        opt_int(r) == first_index(from as int, json@.len() - name@.len() + 1, name_at(json@, name@)),
{
    let n = json.len();
    let ghost hi = json@.len() - name@.len() + 1;
    if name.len() > n {
        proof {
            lemma_first_index_none(from as int, hi, name_at(json@, name@));
        }
        return None;
    }
    let last = n - name.len();
    let mut i: usize = from;
    while i <= last
        invariant
            n == json@.len(),
            last + name@.len() == n,
            hi == last + 1,
            from <= i,
            forall|k: int| from <= k < i ==> !#[trigger] name_at(json@, name@)(k),
        decreases last - i,
    {
        if eq_at(json, i, name) {
            proof {
                lemma_first_index_found(from as int, hi, i as int, name_at(json@, name@));
            }
            return Some(i);
        }
        if i == last {
            proof {
                lemma_first_index_none(from as int, hi, name_at(json@, name@));
            }
            return None;
        }
        i += 1;
    }
    proof {
        lemma_first_index_none(from as int, hi, name_at(json@, name@));
    }
    None
}

/// Moves `cursor` to the start of the value of the next `name` key.
pub fn find_value_start(json: &[u8], name: &[u8], cursor: &mut usize) -> (r: Result<usize, ParseError>)
    ensures
        match value_start_of(json@, name@, *old(cursor) as int) {
            Some(v) => r == Ok::<usize, ParseError>(v as usize) && *final(cursor) == v && v <= json@.len(),
            None => r == Err::<usize, ParseError>(ParseError::MissingField) && *final(cursor) == *old(cursor),
        },
{
    let n = json.len();
    let c = *cursor;
    if c >= n {
        return Err(ParseError::MissingField);
    }
    let found = match find_name(json, name, c) {
        Some(f) => f,
        None => return Err(ParseError::MissingField),
    };
    proof {
        lemma_first_index(c as int, json@.len() - name@.len() + 1, name_at(json@, name@));
    }
    let after_name = found + name.len();
    let colon = match find_byte(json, after_name, n, COLON) {
        Some(p) => p,
        None => return Err(ParseError::MissingField),
    };
    proof {
        lemma_first_index(after_name as int, n as int, byte_is(json@, COLON));
    }
    let mut value_start = colon + 1;
    while value_start < n && is_json_whitespace(json[value_start])
        invariant
            n == json@.len(),
            colon < value_start <= n,
            forall|k: int| colon + 1 <= k < value_start ==> !#[trigger] not_json_ws(json@)(k),
        decreases n - value_start,
    {
        value_start += 1;
    }
    proof {
        if value_start < n {
            lemma_first_index_found(colon + 1, n as int, value_start as int, not_json_ws(json@));
        } else {
            lemma_first_index_none(colon + 1, n as int, not_json_ws(json@));
        }
    }
    *cursor = value_start;
    Ok(value_start)
}

proof fn lemma_decimal_prefix_le(d: Seq<u8>, k: int)
    requires
        0 <= k <= d.len(),
        forall|i: int| 0 <= i < d.len() ==> is_digit(#[trigger] d[i]),
    ensures
        0 <= decimal(d.subrange(0, k)) <= decimal(d),
    decreases d.len() - k,
{
    if k < d.len() {
        lemma_decimal_prefix_le(d, k + 1);
        assert(d.subrange(0, k + 1).drop_last() =~= d.subrange(0, k));
    } else {
        assert(d.subrange(0, k) =~= d);
        lemma_decimal_nonneg(d);
    }
}

proof fn lemma_decimal_nonneg(d: Seq<u8>)
    requires
        forall|i: int| 0 <= i < d.len() ==> is_digit(#[trigger] d[i]),
    ensures
        decimal(d) >= 0,
    decreases d.len(),
{
    if d.len() > 0 {
        lemma_decimal_nonneg(d.drop_last());
    }
}

/// Reads the integer at `start`: an optional minus and digits that fit an `i32`.
pub fn read_int_at(json: &[u8], start: usize) -> (r: Result<i32, ParseError>)
    requires
        start <= json@.len(),
    ensures
        match int_at(json@, start as int) {
            Some(v) => r == Ok::<i32, ParseError>(v),
            None => r == Err::<i32, ParseError>(ParseError::InvalidValue),
        },
{
    let n = json.len();
    let neg = start < n && json[start] == MINUS;
    let ds = if neg {
        start + 1
    } else {
        start
    };
    let mut de = ds;
    while de < n && 48 <= json[de] && json[de] <= 57
        invariant
            n == json@.len(),
            ds <= de <= n,
            forall|k: int| ds <= k < de ==> !#[trigger] is_digit_at(json@)(k),
        decreases n - de,
    {
        de += 1;
    }
    proof {
        if de < n {
            lemma_first_index_found(ds as int, n as int, de as int, is_digit_at(json@));
        } else {
            lemma_first_index_none(ds as int, n as int, is_digit_at(json@));
        }
    }
    if de == ds {
        return Err(ParseError::InvalidValue);
    }
    let ghost digits = json@.subrange(ds as int, de as int);
    assert forall|i: int| 0 <= i < digits.len() implies is_digit(#[trigger] digits[i]) by {
        assert(!is_digit_at(json@)(ds + i));
    }
    let mut acc: i64 = 0;
    let mut k: usize = ds;
    while k < de
        invariant
            n == json@.len(),
            ds <= k <= de <= n,
            digits == json@.subrange(ds as int, de as int),
            de == digits_end(json@, ds as int),
            neg == (start < json@.len() && json@[start as int] == MINUS),
            ds == (if neg { start + 1 } else { start as int }),
            de != ds,
            forall|i: int| 0 <= i < digits.len() ==> is_digit(#[trigger] digits[i]),
            acc == decimal(json@.subrange(ds as int, k as int)),
            0 <= acc <= 2147483648,
        decreases de - k,
    {
        proof {
            assert(json@.subrange(ds as int, k + 1).drop_last() =~= json@.subrange(ds as int, k as int));
            assert(json@[k as int] == digits[k - ds]);
        }
        acc = acc * 10 + (json[k] - 48) as i64;
        k += 1;
        if acc > 2147483648 {
            proof {
                assert(json@.subrange(ds as int, k as int) =~= digits.subrange(0, k - ds));
                lemma_decimal_prefix_le(digits, k - ds);
            }
            return Err(ParseError::InvalidValue);
        }
    }
    assert(json@.subrange(ds as int, de as int) =~= digits);
    let v: i64 = if neg {
        -acc
    } else {
        acc
    };
    if v > 2147483647 {
        return Err(ParseError::InvalidValue);
    }
    Ok(v as i32)
}

pub fn read_bool_at(json: &[u8], start: usize) -> (r: Result<bool, ParseError>)
    ensures
        match bool_at(json@, start as int) {
            Some(b) => r == Ok::<bool, ParseError>(b),
            None => r == Err::<bool, ParseError>(ParseError::InvalidValue),
        },
{
    let t = [116u8, 114u8, 117u8, 101u8];
    let f = [102u8, 97u8, 108u8, 115u8, 101u8];
    assert(t@ =~= true_bytes());
    assert(f@ =~= false_bytes());
    if eq_at(json, start, t.as_slice()) {
        Ok(true)
    } else if eq_at(json, start, f.as_slice()) {
        Ok(false)
    } else {
        Err(ParseError::InvalidValue)
    }
}

/// Reads the string literal at `start`; its raw content, escapes untouched.
pub fn read_string_at<'a>(json: &'a [u8], start: usize) -> (r: Result<&'a [u8], ParseError>)
    ensures
        match string_at(json@, start as int) {
            Some(v) => r matches Ok(b) && b@ == v,
            None => r == Err::<&[u8], ParseError>(ParseError::InvalidValue),
        },
{
    let n = json.len();
    if start >= n || json[start] != QUOTE {
        return Err(ParseError::InvalidValue);
    }
    let content_start = start + 1;
    let mut escaped = false;
    let mut i: usize = content_start;
    while i < n
        invariant
            n == json@.len(),
            start < n,
            json@[start as int] == QUOTE,
            content_start == start + 1,
            content_start <= i <= n,
            string_end(json@, content_start as int, false) == string_end(json@, i as int, escaped),
        decreases n - i,
    {
        let b = json[i];
        if escaped {
            escaped = false;
        } else if b == BACKSLASH {
            escaped = true;
        } else if b == QUOTE {
            let r = &json[content_start..i];
            assert(string_end(json@, i as int, false) == Some(i as int));
            assert(r@ == json@.subrange(content_start as int, i as int));
            return Ok(r);
        }
        i += 1;
    }
    Err(ParseError::InvalidValue)
}

/// Reads the number literal at `start`; its text, when it is a valid decimal literal.
pub fn read_double_at<'a>(json: &'a [u8], start: usize) -> (r: Result<&'a [u8], ParseError>)
    requires
        start <= json@.len(),
    ensures
        match number_at(json@, start as int) {
            Some(v) => r matches Ok(b) && b@ == v,
            None => r == Err::<&[u8], ParseError>(ParseError::InvalidValue),
        },
{
    let n = json.len();
    let mut p: usize = start;
    let mut seen_dot = false;
    let mut seen_digit = false;
    while p < n
        invariant
            n == json@.len(),
            start <= p <= n,
            mantissa_end(json@, start as int, start as int, false, false) == mantissa_end(
                json@,
                start as int,
                p as int,
                seen_dot,
                seen_digit,
            ),
        ensures
            start <= p <= n,
            mantissa_end(json@, start as int, start as int, false, false) == (p as int, seen_digit),
        decreases n - p,
    {
        let b = json[p];
        if 48 <= b && b <= 57 {
            seen_digit = true;
        } else if (b == MINUS || b == PLUS) && p == start {
        } else if b == DOT && !seen_dot {
            seen_dot = true;
        } else {
            break;
        }
        p += 1;
    }
    let ghost (pe, sd) = mantissa_end(json@, start as int, start as int, false, false);
    assert(pe == p && sd == seen_digit);
    if p < n && (json[p] == 101 || json[p] == 69) && seen_digit {
        let q = if p + 1 < n && (json[p + 1] == MINUS || json[p + 1] == PLUS) {
            p + 2
        } else {
            p + 1
        };
        let mut e = q;
        while e < n && 48 <= json[e] && json[e] <= 57
            invariant
                n == json@.len(),
                q <= e <= n,
                forall|k: int| q <= k < e ==> !#[trigger] is_digit_at(json@)(k),
            decreases n - e,
        {
            e += 1;
        }
        proof {
            if e < n {
                lemma_first_index_found(q as int, n as int, e as int, is_digit_at(json@));
            } else {
                lemma_first_index_none(q as int, n as int, is_digit_at(json@));
            }
        }
        if e > q {
            Ok(&json[start..e])
        } else {
            Err(ParseError::InvalidValue)
        }
    } else if seen_digit {
        Ok(&json[start..p])
    } else {
        Err(ParseError::InvalidValue)
    }
}

pub fn parse_mcc(mcc: &[u8]) -> (r: i32)
    ensures
        r == mcc_code(mcc@),
{
    if mcc.len() != 4 {
        return 0;
    }
    let a = mcc[0].wrapping_sub(48);
    let b = mcc[1].wrapping_sub(48);
    let c = mcc[2].wrapping_sub(48);
    let d = mcc[3].wrapping_sub(48);
    if a > 9 || b > 9 || c > 9 || d > 9 {
        return 0;
    }
    (a as i32) * 1000 + (b as i32) * 100 + (c as i32) * 10 + (d as i32)
}


// ---------------------------------------------------------------------------
// Keyed reads: each searches for its key from the cursor and leaves the cursor at the
// start of the value.

pub open spec fn key(k: &str) -> Seq<u8> {
    k.spec_bytes()
}

pub const KEY_AMOUNT: &'static str = "\"amount\"";
pub const KEY_INSTALLMENTS: &'static str = "\"installments\"";
pub const KEY_REQUESTED_AT: &'static str = "\"requested_at\"";
pub const KEY_AVG_AMOUNT: &'static str = "\"avg_amount\"";
pub const KEY_TX_COUNT_24H: &'static str = "\"tx_count_24h\"";
pub const KEY_KNOWN_MERCHANTS: &'static str = "\"known_merchants\"";
pub const KEY_ID: &'static str = "\"id\"";
pub const KEY_MERCHANT: &'static str = "\"merchant\"";
pub const KEY_MCC: &'static str = "\"mcc\"";
pub const KEY_IS_ONLINE: &'static str = "\"is_online\"";
pub const KEY_CARD_PRESENT: &'static str = "\"card_present\"";
pub const KEY_KM_FROM_HOME: &'static str = "\"km_from_home\"";
pub const KEY_LAST_TRANSACTION: &'static str = "\"last_transaction\"";
pub const KEY_TIMESTAMP: &'static str = "\"timestamp\"";
pub const KEY_KM_FROM_CURRENT: &'static str = "\"km_from_current\"";

pub open spec fn number_field(s: Seq<u8>, k: Seq<u8>, c: int) -> Option<(Seq<u8>, int)> {
    match value_start_of(s, k, c) {
        None => None,
        Some(v) => match number_at(s, v) {
            None => None,
            Some(t) => Some((t, v)),
        },
    }
}

pub open spec fn int_field(s: Seq<u8>, k: Seq<u8>, c: int) -> Option<(i32, int)> {
    match value_start_of(s, k, c) {
        None => None,
        Some(v) => match int_at(s, v) {
            None => None,
            Some(x) => Some((x, v)),
        },
    }
}

pub open spec fn bool_field(s: Seq<u8>, k: Seq<u8>, c: int) -> Option<(bool, int)> {
    match value_start_of(s, k, c) {
        None => None,
        Some(v) => match bool_at(s, v) {
            None => None,
            Some(x) => Some((x, v)),
        },
    }
}

pub open spec fn string_field(s: Seq<u8>, k: Seq<u8>, c: int) -> Option<(Seq<u8>, int)> {
    match value_start_of(s, k, c) {
        None => None,
        Some(v) => match string_at(s, v) {
            None => None,
            Some(x) => Some((x, v)),
        },
    }
}

/// The merchant's id: the first `"id"` string after the `"merchant"` key that comes at or
/// after `c`, so that an `"id"` of another object placed before the merchant is passed over.
pub open spec fn merchant_id_field(s: Seq<u8>, c: int) -> Option<(Seq<u8>, int)> {
    match value_start_of(s, key(KEY_MERCHANT), c) {
        None => None,
        Some(m) => string_field(s, key(KEY_ID), m),
    }
}

/// The known-merchant strings: the quoted strings between the `[` that opens the value
/// and the first `]` after it; the cursor moves past that `]`.
pub open spec fn merchants_field(s: Seq<u8>, c: int) -> Option<(Seq<Seq<u8>>, int)> {
    match value_start_of(s, key(KEY_KNOWN_MERCHANTS), c) {
        None => None,
        Some(v) => if v >= s.len() || s[v] != OPEN_BRACKET {
            None
        } else {
            match first_index(v, s.len() as int, byte_is(s, CLOSE_BRACKET)) {
                None => None,
                Some(e) => match strings_between(s, v + 1, e) {
                    None => None,
                    Some(strs) => Some((strs, e + 1)),
                },
            }
        },
    }
}

/// The previous transaction: absent when its value starts with `n` (`null`), else its
/// timestamp and distance.
pub open spec fn last_field(s: Seq<u8>, c: int) -> Option<(Option<(Seq<u8>, Seq<u8>)>, int)> {
    match value_start_of(s, key(KEY_LAST_TRANSACTION), c) {
        None => None,
        Some(v) => if v < s.len() && s[v] == LOWER_N {
            Some((None, v))
        } else {
            match string_field(s, key(KEY_TIMESTAMP), v) {
                None => None,
                Some((ts, c2)) => match number_field(s, key(KEY_KM_FROM_CURRENT), c2) {
                    None => None,
                    Some((km, c3)) => Some((Some((ts, km)), c3)),
                },
            }
        },
    }
}

fn key_bytes(k: &'static str) -> (r: &'static [u8])
    ensures
        r@ == key(k),
{
    k.as_bytes()
}

pub fn find_and_read_double<'a>(json: &'a [u8], name: &[u8], cursor: &mut usize) -> (r: Result<
    &'a [u8],
    ParseError,
>)
    ensures
        match number_field(json@, name@, *old(cursor) as int) {
            Some((t, c)) => r matches Ok(b) && b@ == t && *final(cursor) == c,
            None => r is Err,
        },
{
    let start = find_value_start(json, name, cursor)?;
    read_double_at(json, start)
}

pub fn find_and_read_int(json: &[u8], name: &[u8], cursor: &mut usize) -> (r: Result<i32, ParseError>)
    ensures
        match int_field(json@, name@, *old(cursor) as int) {
            Some((x, c)) => r == Ok::<i32, ParseError>(x) && *final(cursor) == c,
            None => r is Err,
        },
{
    let start = find_value_start(json, name, cursor)?;
    read_int_at(json, start)
}

pub fn find_and_read_bool(json: &[u8], name: &[u8], cursor: &mut usize) -> (r: Result<bool, ParseError>)
    ensures
        match bool_field(json@, name@, *old(cursor) as int) {
            Some((x, c)) => r == Ok::<bool, ParseError>(x) && *final(cursor) == c,
            None => r is Err,
        },
{
    let start = find_value_start(json, name, cursor)?;
    read_bool_at(json, start)
}

pub fn find_and_read_string<'a>(json: &'a [u8], name: &[u8], cursor: &mut usize) -> (r: Result<
    &'a [u8],
    ParseError,
>)
    ensures
        match string_field(json@, name@, *old(cursor) as int) {
            Some((x, c)) => r matches Ok(b) && b@ == x && *final(cursor) == c,
            None => r is Err,
        },
{
    let start = find_value_start(json, name, cursor)?;
    read_string_at(json, start)
}

/// Hashes of the first `MAX_KNOWN_MERCHANTS` known merchants; the cursor moves past the list.
pub fn find_and_read_known_merchants(json: &[u8], cursor: &mut usize) -> (r: Result<
    Vec<u64>,
    ParseError,
>)
    ensures
        match merchants_field(json@, *old(cursor) as int) {
            Some((strs, c)) => r matches Ok(h) && h@ == known_hashes(strs) && *final(cursor) == c,
            None => r is Err,
        },
{
    let start = find_value_start(json, key_bytes(KEY_KNOWN_MERCHANTS), cursor)?;
    let n = json.len();
    if start >= n || json[start] != OPEN_BRACKET {
        return Err(ParseError::InvalidFormat);
    }
    let array_end = match find_byte(json, start, n, CLOSE_BRACKET) {
        Some(e) => e,
        None => return Err(ParseError::InvalidFormat),
    };
    proof {
        lemma_first_index(start as int, n as int, byte_is(json@, CLOSE_BRACKET));
    }
    let ghost total = strings_between(json@, start + 1, array_end as int);
    assert(merchants_field(json@, *old(cursor) as int) == match total {
        Some(strs) => Some((strs, array_end + 1)),
        None => None,
    });
    let ghost mut seen: Seq<Seq<u8>> = Seq::empty();
    let mut hashes: Vec<u64> = Vec::new();
    let mut i: usize = start + 1;
    while i < array_end
        invariant
            n == json@.len(),
            start < array_end < n,
            start + 1 <= i <= array_end + 1,
            total == strings_between(json@, start + 1, array_end as int),
            merchants_field(json@, *old(cursor) as int) == match total {
                Some(strs) => Some((strs, array_end + 1)),
                None => None,
            },
            match strings_between(json@, i as int, array_end as int) {
                Some(rest) => total == Some(seen + rest),
                None => total is None,
            },
            hashes@ == known_hashes(seen),
        decreases array_end - i,
    {
        match find_byte(json, i, array_end, QUOTE) {
            None => {
                proof {
                    assert(seen + Seq::<Seq<u8>>::empty() =~= seen);
                }
                i = array_end;
            },
            Some(q) => {
                proof {
                    lemma_first_index(i as int, array_end as int, byte_is(json@, QUOTE));
                }
                let content_start = q + 1;
                let e = match find_byte(json, content_start, array_end, QUOTE) {
                    Some(e) => e,
                    None => return Err(ParseError::InvalidFormat),
                };
                proof {
                    lemma_first_index(content_start as int, array_end as int, byte_is(json@, QUOTE));
                }
                let item = &json[content_start..e];
                if hashes.len() < MAX_KNOWN_MERCHANTS {
                    let h = hash_bytes(item);
                    hashes.push(h);
                }
                proof {
                    let old_seen = seen;
                    seen = seen.push(item@);
                    if let Some(rest) = strings_between(json@, e + 1, array_end as int) {
                        assert(seen + rest =~= old_seen + (seq![item@] + rest));
                    }
                    assert(known_hashes(seen) =~= hashes@);
                }
                i = e + 1;
            },
        }
    }
    proof {
        if i >= array_end {
            assert(strings_between(json@, i as int, array_end as int) == Some(Seq::<Seq<u8>>::empty()));
            assert(seen + Seq::<Seq<u8>>::empty() =~= seen);
        }
    }
    *cursor = array_end + 1;
    Ok(hashes)
}

} // verus!
