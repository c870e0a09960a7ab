//! The general reader behind the single-pass scanners: a JSON document, read field by field
//! with keys compared case-insensitively and without `_` or `-`.

use vstd::prelude::*;
use crate::scan::lower;
use super::ParseError;
use super::fast::{MAX_KNOWN_MERCHANTS, key, known_hashes};
use super::hash::{hash_bytes, hash_of};
use super::fields::{FieldsModel, QueryFields, build_fields, fields_of};

verus! {

/// A JSON value: numbers keep their text and, when they are integers that fit, their value.
#[derive(Debug)]
pub enum JsonValue {
    Null,
    Bool(bool),
    Number(Vec<u8>, Option<i64>),
    String(Vec<u8>),
    Array(Vec<JsonValue>),
    Object(Vec<(Vec<u8>, JsonValue)>),
}

#[verifier::external_type_specification]
#[verifier::external_body]
pub struct ExSerdeJsonValue(serde_json::Value);

#[verifier::external_type_specification]
#[verifier::external_body]
#[verifier::reject_recursive_types(MapKey)]
#[verifier::reject_recursive_types(MapValue)]
pub struct ExSerdeJsonMap<MapKey, MapValue>(serde_json::Map<MapKey, MapValue>);

/// The document `serde_json` reads from the bytes, if they are one JSON value.
pub uninterp spec fn json_document(bytes: Seq<u8>) -> Option<JsonValue>;

/// Parses the bytes with `serde_json::from_slice` into a `serde_json::Value` (objects in
/// document order) and converts it. Nothing is stated of the result but that it depends on
/// the bytes alone.
#[verifier::external_body]
pub(crate) fn parse_json(bytes: &[u8]) -> (r: Option<JsonValue>)
    ensures
        r == json_document(bytes@),
{
    match serde_json::from_slice::<serde_json::Value>(bytes) {
        Ok(v) => Some(json_value_from(v)),
        Err(_) => None,
    }
}

/// Moves a `serde_json::Value` into a `JsonValue`, variant by variant.
#[verifier::external_body]
fn json_value_from(v: serde_json::Value) -> JsonValue {
    match v {
        serde_json::Value::Null => JsonValue::Null,
        serde_json::Value::Bool(b) => JsonValue::Bool(b),
        serde_json::Value::Number(n) => JsonValue::Number(n.to_string().into_bytes(), n.as_i64()),
        serde_json::Value::String(s) => JsonValue::String(s.into_bytes()),
        serde_json::Value::Array(items) => JsonValue::Array(items.into_iter().map(json_value_from).collect()),
        serde_json::Value::Object(map) => JsonValue::Object(json_entries_from(map)),
    }
}

/// Moves the entries of a `serde_json` object, in its order, into key bytes and values.
#[verifier::external_body]
fn json_entries_from(map: serde_json::Map<String, serde_json::Value>) -> Vec<(Vec<u8>, JsonValue)> {
    let mut out = Vec::new();
    for (k, item) in map {
        out.push((k.into_bytes(), json_value_from(item)));
    }
    out
}

// ---------------------------------------------------------------------------
// Key comparison

pub open spec fn is_separator(b: u8) -> bool {
    b == 95 || b == 45
}

/// A key with `_` and `-` dropped and ASCII letters lower-cased.
pub open spec fn normalized(s: Seq<u8>) -> Seq<u8>
    decreases s.len(),
{
    if s.len() == 0 {
        Seq::empty()
    } else if is_separator(s.last()) {
        normalized(s.drop_last())
    } else {
        normalized(s.drop_last()).push(lower(s.last()))
    }
}

pub open spec fn keys_match(actual: Seq<u8>, expected: Seq<u8>) -> bool {
    normalized(actual) == normalized(expected)
}

fn normalize(s: &[u8]) -> (r: Vec<u8>)
    ensures
        r@ == normalized(s@),
{
    let mut out: Vec<u8> = Vec::new();
    let mut i: usize = 0;
    while i < s.len()
        invariant
            i <= s@.len(),
            out@ == normalized(s@.subrange(0, i as int)),
        decreases s@.len() - i,
    {
        proof {
            assert(s@.subrange(0, i + 1).drop_last() =~= s@.subrange(0, i as int));
        }
        let b = s[i];
        if !(b == 95 || b == 45) {
            out.push(crate::scan::ascii_lower(b));
        }
        i += 1;
    }
    assert(s@.subrange(0, s@.len() as int) =~= s@);
    out
}

/// Keys agree once `_` and `-` are dropped and case is ignored.
pub fn field_matches(actual: &[u8], expected: &[u8]) -> (r: bool)
    ensures
        r == keys_match(actual@, expected@),
{
    let a = normalize(actual);
    let e = normalize(expected);
    if a.len() != e.len() {
        assert(a@.len() != e@.len());
        return false;
    }
    let mut i: usize = 0;
    while i < a.len()
        invariant
            a@ == normalized(actual@),
            e@ == normalized(expected@),
            a@.len() == e@.len(),
            i <= a@.len(),
            forall|k: int| 0 <= k < i ==> a@[k] == e@[k],
        decreases a@.len() - i,
    {
        if a[i] != e[i] {
            assert(a@[i as int] != e@[i as int]);
            assert(a@ != e@);
            return false;
        }
        i += 1;
    }
    assert(a@ =~= e@);
    true
}

// ---------------------------------------------------------------------------
// Field lookup: every entry whose key matches must decode, and the last one counts.

pub type Entries = Seq<(Vec<u8>, JsonValue)>;

/// `None` when a matching entry does not decode; `Some(None)` when no key matches;
/// otherwise the decoding of the last matching entry.
pub open spec fn field<T>(es: Entries, name: Seq<u8>, dec: spec_fn(JsonValue) -> Option<T>) -> Option<
    Option<T>,
>
    decreases es.len(),
{
    if es.len() == 0 {
        Some(None)
    } else {
        match field(es.drop_last(), name, dec) {
            None => None,
            Some(prev) => if keys_match(es.last().0@, name) {
                match dec(es.last().1) {
                    None => None,
                    Some(t) => Some(Some(t)),
                }
            } else {
                Some(prev)
            },
        }
    }
}

/// A required field: present and decoded.
pub open spec fn required<T>(es: Entries, name: Seq<u8>, dec: spec_fn(JsonValue) -> Option<T>) -> Option<T> {
    match field(es, name, dec) {
        Some(Some(t)) => Some(t),
        _ => None,
    }
}

proof fn lemma_field_fails_on<T>(es: Entries, name: Seq<u8>, dec: spec_fn(JsonValue) -> Option<T>, i: int)
    requires
        0 <= i <= es.len(),
        field(es.subrange(0, i), name, dec) is None,
    ensures
        field(es, name, dec) is None,
    decreases es.len() - i,
{
    if i < es.len() {
        assert(es.subrange(0, i + 1).drop_last() =~= es.subrange(0, i));
        lemma_field_fails_on(es, name, dec, i + 1);
    } else {
        assert(es.subrange(0, i) =~= es);
    }
}

pub open spec fn number_of(v: JsonValue) -> Option<Seq<u8>> {
    match v {
        JsonValue::Number(t, _) => Some(t@),
        _ => None,
    }
}

pub open spec fn int32_of(v: JsonValue) -> Option<i32> {
    match v {
        JsonValue::Number(_, Some(i)) => if i32::MIN <= i <= i32::MAX {
            Some(i as i32)
        } else {
            None
        },
        _ => None,
    }
}

pub open spec fn text_of(v: JsonValue) -> Option<Seq<u8>> {
    match v {
        JsonValue::String(s) => Some(s@),
        _ => None,
    }
}

pub open spec fn flag_of(v: JsonValue) -> Option<bool> {
    match v {
        JsonValue::Bool(b) => Some(b),
        _ => None,
    }
}

/// An array of strings.
pub open spec fn texts_of(v: JsonValue) -> Option<Seq<Seq<u8>>> {
    match v {
        JsonValue::Array(items) => if forall|k: int| 0 <= k < items@.len() ==> #[trigger] items@[k] is String {
            Some(Seq::new(items@.len(), |k: int| text_of(items@[k])->0))
        } else {
            None
        },
        _ => None,
    }
}

pub open spec fn as_number() -> spec_fn(JsonValue) -> Option<Seq<u8>> {
    |v: JsonValue| number_of(v)
}

pub open spec fn as_int32() -> spec_fn(JsonValue) -> Option<i32> {
    |v: JsonValue| int32_of(v)
}

pub open spec fn as_text() -> spec_fn(JsonValue) -> Option<Seq<u8>> {
    |v: JsonValue| text_of(v)
}

pub open spec fn as_flag() -> spec_fn(JsonValue) -> Option<bool> {
    |v: JsonValue| flag_of(v)
}

pub open spec fn as_texts() -> spec_fn(JsonValue) -> Option<Seq<Seq<u8>>> {
    |v: JsonValue| texts_of(v)
}


// Field names as the payload spells them.
pub const NAME_TRANSACTION: &'static str = "transaction";
pub const NAME_CUSTOMER: &'static str = "customer";
pub const NAME_MERCHANT: &'static str = "merchant";
pub const NAME_TERMINAL: &'static str = "terminal";
pub const NAME_LAST_TRANSACTION: &'static str = "last_transaction";
pub const NAME_AMOUNT: &'static str = "amount";
pub const NAME_INSTALLMENTS: &'static str = "installments";
pub const NAME_REQUESTED_AT: &'static str = "requested_at";
pub const NAME_AVG_AMOUNT: &'static str = "avg_amount";
pub const NAME_TX_COUNT_24H: &'static str = "tx_count_24h";
pub const NAME_KNOWN_MERCHANTS: &'static str = "known_merchants";
pub const NAME_ID: &'static str = "id";
pub const NAME_MCC: &'static str = "mcc";
pub const NAME_IS_ONLINE: &'static str = "is_online";
pub const NAME_CARD_PRESENT: &'static str = "card_present";
pub const NAME_KM_FROM_HOME: &'static str = "km_from_home";
pub const NAME_TIMESTAMP: &'static str = "timestamp";
pub const NAME_KM_FROM_CURRENT: &'static str = "km_from_current";

pub type TransactionParts = (Vec<u8>, i32, Vec<u8>);
pub type CustomerParts = (Vec<u8>, i32, Vec<Vec<u8>>);
pub type MerchantParts = (Vec<u8>, Vec<u8>, Vec<u8>);
pub type TerminalParts = (bool, bool, Vec<u8>);
pub type LastParts = (Vec<u8>, Vec<u8>);

pub open spec fn texts_view(v: Vec<Vec<u8>>) -> Seq<Seq<u8>> {
    Seq::new(v@.len(), |k: int| v@[k]@)
}

/// `amount`, `installments`, `requested_at`.
pub open spec fn transaction_of(v: JsonValue) -> Option<(Seq<u8>, i32, Seq<u8>)> {
    match v {
        JsonValue::Object(es) => match (
            required(es@, key(NAME_AMOUNT), as_number()),
            required(es@, key(NAME_INSTALLMENTS), as_int32()),
            required(es@, key(NAME_REQUESTED_AT), as_text()),
        ) {
            (Some(a), Some(i), Some(r)) => Some((a, i, r)),
            _ => None,
        },
        _ => None,
    }
}

/// `avg_amount`, `tx_count_24h`, `known_merchants`.
pub open spec fn customer_of(v: JsonValue) -> Option<(Seq<u8>, i32, Seq<Seq<u8>>)> {
    match v {
        JsonValue::Object(es) => match (
            required(es@, key(NAME_AVG_AMOUNT), as_number()),
            required(es@, key(NAME_TX_COUNT_24H), as_int32()),
            required(es@, key(NAME_KNOWN_MERCHANTS), as_texts()),
        ) {
            (Some(a), Some(t), Some(k)) => Some((a, t, k)),
            _ => None,
        },
        _ => None,
    }
}

/// `id`, `mcc`, `avg_amount`.
pub open spec fn merchant_of(v: JsonValue) -> Option<(Seq<u8>, Seq<u8>, Seq<u8>)> {
    match v {
        JsonValue::Object(es) => match (
            required(es@, key(NAME_ID), as_text()),
            required(es@, key(NAME_MCC), as_text()),
            required(es@, key(NAME_AVG_AMOUNT), as_number()),
        ) {
            (Some(i), Some(m), Some(a)) => Some((i, m, a)),
            _ => None,
        },
        _ => None,
    }
}

/// `is_online`, `card_present`, `km_from_home`.
pub open spec fn terminal_of(v: JsonValue) -> Option<(bool, bool, Seq<u8>)> {
    match v {
        JsonValue::Object(es) => match (
            required(es@, key(NAME_IS_ONLINE), as_flag()),
            required(es@, key(NAME_CARD_PRESENT), as_flag()),
            required(es@, key(NAME_KM_FROM_HOME), as_number()),
        ) {
            (Some(o), Some(p), Some(k)) => Some((o, p, k)),
            _ => None,
        },
        _ => None,
    }
}

/// `null`, or `timestamp` and `km_from_current`.
pub open spec fn last_of(v: JsonValue) -> Option<Option<(Seq<u8>, Seq<u8>)>> {
    match v {
        JsonValue::Null => Some(None),
        JsonValue::Object(es) => match (
            required(es@, key(NAME_TIMESTAMP), as_text()),
            required(es@, key(NAME_KM_FROM_CURRENT), as_number()),
        ) {
            (Some(t), Some(k)) => Some(Some((t, k))),
            _ => None,
        },
        _ => None,
    }
}

pub open spec fn as_transaction() -> spec_fn(JsonValue) -> Option<(Seq<u8>, i32, Seq<u8>)> {
    |v: JsonValue| transaction_of(v)
}

pub open spec fn as_customer() -> spec_fn(JsonValue) -> Option<(Seq<u8>, i32, Seq<Seq<u8>>)> {
    |v: JsonValue| customer_of(v)
}

pub open spec fn as_merchant() -> spec_fn(JsonValue) -> Option<(Seq<u8>, Seq<u8>, Seq<u8>)> {
    |v: JsonValue| merchant_of(v)
}

pub open spec fn as_terminal() -> spec_fn(JsonValue) -> Option<(bool, bool, Seq<u8>)> {
    |v: JsonValue| terminal_of(v)
}

pub open spec fn as_last() -> spec_fn(JsonValue) -> Option<Option<(Seq<u8>, Seq<u8>)>> {
    |v: JsonValue| last_of(v)
}

/// The fields of a payload document: the four required objects and the optional previous
/// transaction (absent or `null`), then the timestamps read as in the scanners.
pub open spec fn document_fields(doc: JsonValue) -> Result<FieldsModel, ParseError> {
    match doc {
        JsonValue::Object(es) => match (
            required(es@, key(NAME_TRANSACTION), as_transaction()),
            required(es@, key(NAME_CUSTOMER), as_customer()),
            required(es@, key(NAME_MERCHANT), as_merchant()),
            required(es@, key(NAME_TERMINAL), as_terminal()),
            field(es@, key(NAME_LAST_TRANSACTION), as_last()),
        ) {
            (Some(t), Some(c), Some(m), Some(tm), Some(l)) => match fields_of(
                t.0,
                t.1,
                t.2,
                c.0,
                c.1,
                known_hashes(c.2),
                m.0,
                m.1,
                m.2,
                tm.0,
                tm.1,
                tm.2,
                match l {
                    Some(x) => x,
                    None => None,
                },
            ) {
                Some(f) => Ok(f),
                None => Err(ParseError::InvalidValue),
            },
            _ => Err(ParseError::InvalidFormat),
        },
        _ => Err(ParseError::InvalidFormat),
    }
}

fn copy_bytes(s: &Vec<u8>) -> (r: Vec<u8>)
    ensures
        r@ == s@,
{
    vstd::slice::slice_to_vec(s.as_slice())
}

fn name_bytes(k: &'static str) -> (r: &'static [u8])
    ensures
        r@ == key(k),
{
    k.as_bytes()
}

fn decode_number(v: &JsonValue) -> (r: Option<Vec<u8>>)
    ensures
        match number_of(*v) {
            Some(t) => r matches Some(x) && x@ == t,
            None => r is None,
        },
{
    match v {
        JsonValue::Number(t, _) => Some(copy_bytes(t)),
        _ => None,
    }
}

fn decode_int32(v: &JsonValue) -> (r: Option<i32>)
    ensures
        r == int32_of(*v),
{
    match v {
        JsonValue::Number(_, Some(i)) => if -2147483648 <= *i && *i <= 2147483647 {
            Some(*i as i32)
        } else {
            None
        },
        _ => None,
    }
}

fn decode_text(v: &JsonValue) -> (r: Option<Vec<u8>>)
    ensures
        match text_of(*v) {
            Some(t) => r matches Some(x) && x@ == t,
            None => r is None,
        },
{
    match v {
        JsonValue::String(s) => Some(copy_bytes(s)),
        _ => None,
    }
}

fn decode_flag(v: &JsonValue) -> (r: Option<bool>)
    ensures
        r == flag_of(*v),
{
    match v {
        JsonValue::Bool(b) => Some(*b),
        _ => None,
    }
}

fn decode_texts(v: &JsonValue) -> (r: Option<Vec<Vec<u8>>>)
    ensures
        match texts_of(*v) {
            Some(t) => r matches Some(x) && texts_view(x) == t,
            None => r is None,
        },
{
    match v {
        JsonValue::Array(items) => {
            let mut out: Vec<Vec<u8>> = Vec::new();
            let mut i: usize = 0;
            while i < items.len()
                invariant
                    *v == JsonValue::Array(*items),
                    i <= items@.len(),
                    out@.len() == i,
                    forall|k: int| 0 <= k < i ==> #[trigger] items@[k] is String,
                    forall|k: int| 0 <= k < i ==> #[trigger] out@[k]@ == text_of(items@[k])->0,
                decreases items@.len() - i,
            {
                match &items[i] {
                    JsonValue::String(s) => {
                        out.push(copy_bytes(s));
                    },
                    _ => {
                        assert(!(items@[i as int] is String));
                        return None;
                    },
                }
                i += 1;
            }
            assert(texts_view(out) =~= Seq::new(items@.len(), |k: int| text_of(items@[k])->0));
            Some(out)
        },
        _ => None,
    }
}

fn field_number(es: &Vec<(Vec<u8>, JsonValue)>, name: &[u8]) -> (r: Result<Option<Vec<u8>>, ParseError>)
    ensures
        match field(es@, name@, as_number()) {
            None => r == Err::<Option<Vec<u8>>, ParseError>(ParseError::InvalidFormat),
            Some(None) => r matches Ok(None),
            Some(Some(t)) => r matches Ok(Some(x)) && x@ == t,
        },
{
    let mut acc: Option<Vec<u8>> = None;
    let mut i: usize = 0;
    while i < es.len()
        invariant
            i <= es@.len(),
            field(es@.subrange(0, i as int), name@, as_number()) == match acc {
                Some(x) => Some(Some(x@)),
                None => Some(None),
            },
        decreases es@.len() - i,
    {
        proof {
            assert(es@.subrange(0, i + 1).drop_last() =~= es@.subrange(0, i as int));
            assert(es@.subrange(0, i + 1).last() == es@[i as int]);
        }
        if field_matches(es[i].0.as_slice(), name) {
            match decode_number(&es[i].1) {
                Some(x) => {
                    acc = Some(x);
                },
                None => {
                    proof {
                        lemma_field_fails_on(es@, name@, as_number(), i + 1);
                    }
                    return Err(ParseError::InvalidFormat);
                },
            }
        }
        i += 1;
    }
    assert(es@.subrange(0, es@.len() as int) =~= es@);
    Ok(acc)
}

fn field_int32(es: &Vec<(Vec<u8>, JsonValue)>, name: &[u8]) -> (r: Result<Option<i32>, ParseError>)
    ensures
        match field(es@, name@, as_int32()) {
            None => r == Err::<Option<i32>, ParseError>(ParseError::InvalidFormat),
            Some(None) => r matches Ok(None),
            Some(Some(t)) => r matches Ok(Some(x)) && x == t,
        },
{
    let mut acc: Option<i32> = None;
    let mut i: usize = 0;
    while i < es.len()
        invariant
            i <= es@.len(),
            field(es@.subrange(0, i as int), name@, as_int32()) == match acc {
                Some(x) => Some(Some(x)),
                None => Some(None),
            },
        decreases es@.len() - i,
    {
        proof {
            assert(es@.subrange(0, i + 1).drop_last() =~= es@.subrange(0, i as int));
            assert(es@.subrange(0, i + 1).last() == es@[i as int]);
        }
        if field_matches(es[i].0.as_slice(), name) {
            match decode_int32(&es[i].1) {
                Some(x) => {
                    acc = Some(x);
                },
                None => {
                    proof {
                        lemma_field_fails_on(es@, name@, as_int32(), i + 1);
                    }
                    return Err(ParseError::InvalidFormat);
                },
            }
        }
        i += 1;
    }
    assert(es@.subrange(0, es@.len() as int) =~= es@);
    Ok(acc)
}

fn field_text(es: &Vec<(Vec<u8>, JsonValue)>, name: &[u8]) -> (r: Result<Option<Vec<u8>>, ParseError>)
    ensures
        match field(es@, name@, as_text()) {
            None => r == Err::<Option<Vec<u8>>, ParseError>(ParseError::InvalidFormat),
            Some(None) => r matches Ok(None),
            Some(Some(t)) => r matches Ok(Some(x)) && x@ == t,
        },
{
    let mut acc: Option<Vec<u8>> = None;
    let mut i: usize = 0;
    while i < es.len()
        invariant
            i <= es@.len(),
            field(es@.subrange(0, i as int), name@, as_text()) == match acc {
                Some(x) => Some(Some(x@)),
                None => Some(None),
            },
        decreases es@.len() - i,
    {
        proof {
            assert(es@.subrange(0, i + 1).drop_last() =~= es@.subrange(0, i as int));
            assert(es@.subrange(0, i + 1).last() == es@[i as int]);
        }
        if field_matches(es[i].0.as_slice(), name) {
            match decode_text(&es[i].1) {
                Some(x) => {
                    acc = Some(x);
                },
                None => {
                    proof {
                        lemma_field_fails_on(es@, name@, as_text(), i + 1);
                    }
                    return Err(ParseError::InvalidFormat);
                },
            }
        }
        i += 1;
    }
    assert(es@.subrange(0, es@.len() as int) =~= es@);
    Ok(acc)
}

fn field_flag(es: &Vec<(Vec<u8>, JsonValue)>, name: &[u8]) -> (r: Result<Option<bool>, ParseError>)
    ensures
        match field(es@, name@, as_flag()) {
            None => r == Err::<Option<bool>, ParseError>(ParseError::InvalidFormat),
            Some(None) => r matches Ok(None),
            Some(Some(t)) => r matches Ok(Some(x)) && x == t,
        },
{
    let mut acc: Option<bool> = None;
    let mut i: usize = 0;
    while i < es.len()
        invariant
            i <= es@.len(),
            field(es@.subrange(0, i as int), name@, as_flag()) == match acc {
                Some(x) => Some(Some(x)),
                None => Some(None),
            },
        decreases es@.len() - i,
    {
        proof {
            assert(es@.subrange(0, i + 1).drop_last() =~= es@.subrange(0, i as int));
            assert(es@.subrange(0, i + 1).last() == es@[i as int]);
        }
        if field_matches(es[i].0.as_slice(), name) {
            match decode_flag(&es[i].1) {
                Some(x) => {
                    acc = Some(x);
                },
                None => {
                    proof {
                        lemma_field_fails_on(es@, name@, as_flag(), i + 1);
                    }
                    return Err(ParseError::InvalidFormat);
                },
            }
        }
        i += 1;
    }
    assert(es@.subrange(0, es@.len() as int) =~= es@);
    Ok(acc)
}

fn field_texts(es: &Vec<(Vec<u8>, JsonValue)>, name: &[u8]) -> (r: Result<Option<Vec<Vec<u8>>>, ParseError>)
    ensures
        match field(es@, name@, as_texts()) {
            None => r == Err::<Option<Vec<Vec<u8>>>, ParseError>(ParseError::InvalidFormat),
            Some(None) => r matches Ok(None),
            Some(Some(t)) => r matches Ok(Some(x)) && texts_view(x) == t,
        },
{
    let mut acc: Option<Vec<Vec<u8>>> = None;
    let mut i: usize = 0;
    while i < es.len()
        invariant
            i <= es@.len(),
            field(es@.subrange(0, i as int), name@, as_texts()) == match acc {
                Some(x) => Some(Some(texts_view(x))),
                None => Some(None),
            },
        decreases es@.len() - i,
    {
        proof {
            assert(es@.subrange(0, i + 1).drop_last() =~= es@.subrange(0, i as int));
            assert(es@.subrange(0, i + 1).last() == es@[i as int]);
        }
        if field_matches(es[i].0.as_slice(), name) {
            match decode_texts(&es[i].1) {
                Some(x) => {
                    acc = Some(x);
                },
                None => {
                    proof {
                        lemma_field_fails_on(es@, name@, as_texts(), i + 1);
                    }
                    return Err(ParseError::InvalidFormat);
                },
            }
        }
        i += 1;
    }
    assert(es@.subrange(0, es@.len() as int) =~= es@);
    Ok(acc)
}


pub open spec fn last_view(x: Option<LastParts>) -> Option<(Seq<u8>, Seq<u8>)> {
    match x {
        Some(p) => Some((p.0@, p.1@)),
        None => None,
    }
}

fn decode_transaction(v: &JsonValue) -> (r: Option<TransactionParts>)
    ensures
        match transaction_of(*v) {
            Some(t) => r matches Some(x) && (x.0@, x.1, x.2@) == t,
            None => r is None,
        },
{
    match v {
        JsonValue::Object(es) => {
            let a = match field_number(es, name_bytes(NAME_AMOUNT)) {
                Ok(Some(x)) => x,
                _ => return None,
            };
            let i = match field_int32(es, name_bytes(NAME_INSTALLMENTS)) {
                Ok(Some(x)) => x,
                _ => return None,
            };
            let r = match field_text(es, name_bytes(NAME_REQUESTED_AT)) {
                Ok(Some(x)) => x,
                _ => return None,
            };
            Some((a, i, r))
        },
        _ => None,
    }
}

fn decode_customer(v: &JsonValue) -> (r: Option<CustomerParts>)
    ensures
        match customer_of(*v) {
            Some(t) => r matches Some(x) && (x.0@, x.1, texts_view(x.2)) == t,
            None => r is None,
        },
{
    match v {
        JsonValue::Object(es) => {
            let a = match field_number(es, name_bytes(NAME_AVG_AMOUNT)) {
                Ok(Some(x)) => x,
                _ => return None,
            };
            let t = match field_int32(es, name_bytes(NAME_TX_COUNT_24H)) {
                Ok(Some(x)) => x,
                _ => return None,
            };
            let k = match field_texts(es, name_bytes(NAME_KNOWN_MERCHANTS)) {
                Ok(Some(x)) => x,
                _ => return None,
            };
            Some((a, t, k))
        },
        _ => None,
    }
}

fn decode_merchant(v: &JsonValue) -> (r: Option<MerchantParts>)
    ensures
        match merchant_of(*v) {
            Some(t) => r matches Some(x) && (x.0@, x.1@, x.2@) == t,
            None => r is None,
        },
{
    match v {
        JsonValue::Object(es) => {
            let i = match field_text(es, name_bytes(NAME_ID)) {
                Ok(Some(x)) => x,
                _ => return None,
            };
            let m = match field_text(es, name_bytes(NAME_MCC)) {
                Ok(Some(x)) => x,
                _ => return None,
            };
            let a = match field_number(es, name_bytes(NAME_AVG_AMOUNT)) {
                Ok(Some(x)) => x,
                _ => return None,
            };
            Some((i, m, a))
        },
        _ => None,
    }
}

fn decode_terminal(v: &JsonValue) -> (r: Option<TerminalParts>)
    ensures
        match terminal_of(*v) {
            Some(t) => r matches Some(x) && (x.0, x.1, x.2@) == t,
            None => r is None,
        },
{
    match v {
        JsonValue::Object(es) => {
            let o = match field_flag(es, name_bytes(NAME_IS_ONLINE)) {
                Ok(Some(x)) => x,
                _ => return None,
            };
            let p = match field_flag(es, name_bytes(NAME_CARD_PRESENT)) {
                Ok(Some(x)) => x,
                _ => return None,
            };
            let k = match field_number(es, name_bytes(NAME_KM_FROM_HOME)) {
                Ok(Some(x)) => x,
                _ => return None,
            };
            Some((o, p, k))
        },
        _ => None,
    }
}

fn decode_last(v: &JsonValue) -> (r: Option<Option<LastParts>>)
    ensures
        match last_of(*v) {
            Some(t) => r matches Some(x) && last_view(x) == t,
            None => r is None,
        },
{
    match v {
        JsonValue::Null => Some(None),
        JsonValue::Object(es) => {
            let t = match field_text(es, name_bytes(NAME_TIMESTAMP)) {
                Ok(Some(x)) => x,
                _ => return None,
            };
            let k = match field_number(es, name_bytes(NAME_KM_FROM_CURRENT)) {
                Ok(Some(x)) => x,
                _ => return None,
            };
            Some(Some((t, k)))
        },
        _ => None,
    }
}

fn field_transaction(es: &Vec<(Vec<u8>, JsonValue)>, name: &[u8]) -> (r: Result<Option<TransactionParts>, ParseError>)
    ensures
        match field(es@, name@, as_transaction()) {
            None => r == Err::<Option<TransactionParts>, ParseError>(ParseError::InvalidFormat),
            Some(None) => r matches Ok(None),
            Some(Some(t)) => r matches Ok(Some(x)) && (x.0@, x.1, x.2@) == t,
        },
{
    let mut acc: Option<TransactionParts> = None;
    let mut i: usize = 0;
    while i < es.len()
        invariant
            i <= es@.len(),
            field(es@.subrange(0, i as int), name@, as_transaction()) == match acc {
                Some(x) => Some(Some((x.0@, x.1, x.2@))),
                None => Some(None),
            },
        decreases es@.len() - i,
    {
        proof {
            assert(es@.subrange(0, i + 1).drop_last() =~= es@.subrange(0, i as int));
            assert(es@.subrange(0, i + 1).last() == es@[i as int]);
        }
        if field_matches(es[i].0.as_slice(), name) {
            match decode_transaction(&es[i].1) {
                Some(x) => {
                    acc = Some(x);
                },
                None => {
                    proof {
                        lemma_field_fails_on(es@, name@, as_transaction(), i + 1);
                    }
                    return Err(ParseError::InvalidFormat);
                },
            }
        }
        i += 1;
    }
    assert(es@.subrange(0, es@.len() as int) =~= es@);
    Ok(acc)
}

fn field_customer(es: &Vec<(Vec<u8>, JsonValue)>, name: &[u8]) -> (r: Result<Option<CustomerParts>, ParseError>)
    ensures
        match field(es@, name@, as_customer()) {
            None => r == Err::<Option<CustomerParts>, ParseError>(ParseError::InvalidFormat),
            Some(None) => r matches Ok(None),
            Some(Some(t)) => r matches Ok(Some(x)) && (x.0@, x.1, texts_view(x.2)) == t,
        },
{
    let mut acc: Option<CustomerParts> = None;
    let mut i: usize = 0;
    while i < es.len()
        invariant
            i <= es@.len(),
            field(es@.subrange(0, i as int), name@, as_customer()) == match acc {
                Some(x) => Some(Some((x.0@, x.1, texts_view(x.2)))),
                None => Some(None),
            },
        decreases es@.len() - i,
    {
        proof {
            assert(es@.subrange(0, i + 1).drop_last() =~= es@.subrange(0, i as int));
            assert(es@.subrange(0, i + 1).last() == es@[i as int]);
        }
        if field_matches(es[i].0.as_slice(), name) {
            match decode_customer(&es[i].1) {
                Some(x) => {
                    acc = Some(x);
                },
                None => {
                    proof {
                        lemma_field_fails_on(es@, name@, as_customer(), i + 1);
                    }
                    return Err(ParseError::InvalidFormat);
                },
            }
        }
        i += 1;
    }
    assert(es@.subrange(0, es@.len() as int) =~= es@);
    Ok(acc)
}

fn field_merchant(es: &Vec<(Vec<u8>, JsonValue)>, name: &[u8]) -> (r: Result<Option<MerchantParts>, ParseError>)
    ensures
        match field(es@, name@, as_merchant()) {
            None => r == Err::<Option<MerchantParts>, ParseError>(ParseError::InvalidFormat),
            Some(None) => r matches Ok(None),
            Some(Some(t)) => r matches Ok(Some(x)) && (x.0@, x.1@, x.2@) == t,
        },
{
    let mut acc: Option<MerchantParts> = None;
    let mut i: usize = 0;
    while i < es.len()
        invariant
            i <= es@.len(),
            field(es@.subrange(0, i as int), name@, as_merchant()) == match acc {
                Some(x) => Some(Some((x.0@, x.1@, x.2@))),
                None => Some(None),
            },
        decreases es@.len() - i,
    {
        proof {
            assert(es@.subrange(0, i + 1).drop_last() =~= es@.subrange(0, i as int));
            assert(es@.subrange(0, i + 1).last() == es@[i as int]);
        }
        if field_matches(es[i].0.as_slice(), name) {
            match decode_merchant(&es[i].1) {
                Some(x) => {
                    acc = Some(x);
                },
                None => {
                    proof {
                        lemma_field_fails_on(es@, name@, as_merchant(), i + 1);
                    }
                    return Err(ParseError::InvalidFormat);
                },
            }
        }
        i += 1;
    }
    assert(es@.subrange(0, es@.len() as int) =~= es@);
    Ok(acc)
}

fn field_terminal(es: &Vec<(Vec<u8>, JsonValue)>, name: &[u8]) -> (r: Result<Option<TerminalParts>, ParseError>)
    ensures
        match field(es@, name@, as_terminal()) {
            None => r == Err::<Option<TerminalParts>, ParseError>(ParseError::InvalidFormat),
            Some(None) => r matches Ok(None),
            Some(Some(t)) => r matches Ok(Some(x)) && (x.0, x.1, x.2@) == t,
        },
{
    let mut acc: Option<TerminalParts> = None;
    let mut i: usize = 0;
    while i < es.len()
        invariant
            i <= es@.len(),
            field(es@.subrange(0, i as int), name@, as_terminal()) == match acc {
                Some(x) => Some(Some((x.0, x.1, x.2@))),
                None => Some(None),
            },
        decreases es@.len() - i,
    {
        proof {
            assert(es@.subrange(0, i + 1).drop_last() =~= es@.subrange(0, i as int));
            assert(es@.subrange(0, i + 1).last() == es@[i as int]);
        }
        if field_matches(es[i].0.as_slice(), name) {
            match decode_terminal(&es[i].1) {
                Some(x) => {
                    acc = Some(x);
                },
                None => {
                    proof {
                        lemma_field_fails_on(es@, name@, as_terminal(), i + 1);
                    }
                    return Err(ParseError::InvalidFormat);
                },
            }
        }
        i += 1;
    }
    assert(es@.subrange(0, es@.len() as int) =~= es@);
    Ok(acc)
}

fn field_last(es: &Vec<(Vec<u8>, JsonValue)>, name: &[u8]) -> (r: Result<Option<Option<LastParts>>, ParseError>)
    ensures
        match field(es@, name@, as_last()) {
            None => r == Err::<Option<Option<LastParts>>, ParseError>(ParseError::InvalidFormat),
            Some(None) => r matches Ok(None),
            Some(Some(t)) => r matches Ok(Some(x)) && last_view(x) == t,
        },
{
    let mut acc: Option<Option<LastParts>> = None;
    let mut i: usize = 0;
    while i < es.len()
        invariant
            i <= es@.len(),
            field(es@.subrange(0, i as int), name@, as_last()) == match acc {
                Some(x) => Some(Some(last_view(x))),
                None => Some(None),
            },
        decreases es@.len() - i,
    {
        proof {
            assert(es@.subrange(0, i + 1).drop_last() =~= es@.subrange(0, i as int));
            assert(es@.subrange(0, i + 1).last() == es@[i as int]);
        }
        if field_matches(es[i].0.as_slice(), name) {
            match decode_last(&es[i].1) {
                Some(x) => {
                    acc = Some(x);
                },
                None => {
                    proof {
                        lemma_field_fails_on(es@, name@, as_last(), i + 1);
                    }
                    return Err(ParseError::InvalidFormat);
                },
            }
        }
        i += 1;
    }
    assert(es@.subrange(0, es@.len() as int) =~= es@);
    Ok(acc)
}

/// Hashes of the first known merchants.
fn hash_known(texts: &Vec<Vec<u8>>) -> (r: Vec<u64>)
    ensures
        r@ == known_hashes(texts_view(*texts)),
{
    let n = if texts.len() < MAX_KNOWN_MERCHANTS {
        texts.len()
    } else {
        MAX_KNOWN_MERCHANTS
    };
    let mut out: Vec<u64> = Vec::new();
    let mut i: usize = 0;
    while i < n
        invariant
            n <= texts@.len(),
            i <= n,
            out@.len() == i,
            forall|k: int| 0 <= k < i ==> #[trigger] out@[k] == hash_of(texts@[k]@),
        decreases n - i,
    {
        out.push(hash_bytes(texts[i].as_slice()));
        i += 1;
    }
    assert(out@ =~= known_hashes(texts_view(*texts)));
    out
}

/// The fields of a parsed payload document (see `document_fields`).
pub fn fields_from_json(doc: &JsonValue) -> (r: Result<QueryFields, ParseError>)
    ensures
        match document_fields(*doc) {
            Ok(f) => r matches Ok(q) && q@ == f,
            Err(e) => r == Err::<QueryFields, ParseError>(e),
        },
{
    match doc {
        JsonValue::Object(es) => {
            let t = match field_transaction(es, name_bytes(NAME_TRANSACTION)) {
                Ok(Some(x)) => x,
                _ => return Err(ParseError::InvalidFormat),
            };
            let c = match field_customer(es, name_bytes(NAME_CUSTOMER)) {
                Ok(Some(x)) => x,
                _ => return Err(ParseError::InvalidFormat),
            };
            let m = match field_merchant(es, name_bytes(NAME_MERCHANT)) {
                Ok(Some(x)) => x,
                _ => return Err(ParseError::InvalidFormat),
            };
            let tm = match field_terminal(es, name_bytes(NAME_TERMINAL)) {
                Ok(Some(x)) => x,
                _ => return Err(ParseError::InvalidFormat),
            };
            let l = match field_last(es, name_bytes(NAME_LAST_TRANSACTION)) {
                Ok(x) => x,
                Err(e) => return Err(e),
            };
            let last: Option<(&[u8], &[u8])> = match &l {
                Some(Some(p)) => Some((p.0.as_slice(), p.1.as_slice())),
                _ => None,
            };
            let known = hash_known(&c.2);
            build_fields(
                t.0.as_slice(),
                t.1,
                t.2.as_slice(),
                c.0.as_slice(),
                c.1,
                &known,
                m.0.as_slice(),
                m.1.as_slice(),
                m.2.as_slice(),
                tm.0,
                tm.1,
                tm.2.as_slice(),
                last,
            )
        },
        _ => Err(ParseError::InvalidFormat),
    }
}

} // verus!
