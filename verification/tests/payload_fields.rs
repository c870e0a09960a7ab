use rinha_rust::vector::datetime::{days_from_civil, parse2, parse4, parse_datetime};
use rinha_rust::vector::fast::{
    find_and_read_known_merchants, find_value_start, is_json_whitespace, parse_mcc, read_bool_at,
    read_double_at, read_int_at, read_string_at,
};
use rinha_rust::vector::fields::{LastTransactionFields, QueryFields};
use rinha_rust::vector::hash::hash_bytes;
use rinha_rust::vector::json::{field_matches, fields_from_json, JsonValue};
use rinha_rust::vector::{parse_query, ParseError};

const PAYLOAD: &[u8] = br#"{"id":"tx-1","transaction":{"amount":384.88,"installments":3,"requested_at":"2026-03-11T20:23:35Z"},"customer":{"avg_amount":769.76,"tx_count_24h":3,"known_merchants":["MERC-009","MERC-001"]},"merchant":{"id":"MERC-001","mcc":"5912","avg_amount":298.95},"terminal":{"is_online":false,"card_present":true,"km_from_home":13.7090520965},"last_transaction":{"timestamp":"2026-03-11T14:58:35Z","km_from_current":18.8626479774}}"#;

#[test]
fn payload_fields_are_read_exactly() {
    let fields = parse_query(PAYLOAD).unwrap();
    let expected = QueryFields {
        amount: b"384.88".to_vec(),
        installments: 3,
        requested_hour: 20,
        requested_day_of_week: 2,
        customer_avg_amount: b"769.76".to_vec(),
        tx_count_24h: 3,
        merchant_known: true,
        mcc: 5912,
        merchant_avg_amount: b"298.95".to_vec(),
        is_online: false,
        card_present: true,
        km_from_home: b"13.7090520965".to_vec(),
        last_transaction: Some(LastTransactionFields {
            minutes_since: 325,
            km_from_current: b"18.8626479774".to_vec(),
        }),
    };
    assert_eq!(fields, expected);
}

#[test]
fn null_last_transaction_and_unknown_merchant() {
    let payload = br#"{"id":"x","transaction":{"amount":10,"installments":1,"requested_at":"2026-03-11T20:23:35Z"},"customer":{"avg_amount":0,"tx_count_24h":0,"known_merchants":[]},"merchant":{"id":"MERC-001","mcc":"abcd","avg_amount":1},"terminal":{"is_online":true,"card_present":false,"km_from_home":0},"last_transaction":null}"#;
    let fields = parse_query(payload).unwrap();
    assert_eq!(fields.last_transaction, None);
    assert!(!fields.merchant_known);
    assert_eq!(fields.mcc, 0);
    assert!(fields.is_online);
    assert_eq!(fields.amount, b"10".to_vec());
}

#[test]
fn each_parse_error_has_an_input() {
    assert_eq!(parse_query(b"not json"), Err(ParseError::InvalidFormat));
    let missing = br#"{"transaction":{"amount":1.0}}"#;
    assert_eq!(parse_query(missing), Err(ParseError::InvalidFormat));
    let bad_date = br#"{"id":"x","transaction":{"amount":10,"installments":1,"requested_at":"2026-3-11T20:23:35Z"},"customer":{"avg_amount":0,"tx_count_24h":0,"known_merchants":[]},"merchant":{"id":"M","mcc":"5411","avg_amount":1},"terminal":{"is_online":true,"card_present":false,"km_from_home":0},"last_transaction":null}"#;
    assert_eq!(parse_query(bad_date), Err(ParseError::InvalidValue));
}

#[test]
fn datetime_fields() {
    let t = parse_datetime(b"2027-07-09T16:31:06Z").unwrap();
    assert_eq!(t.epoch_minute, 30252511);
    assert_eq!(t.hour, 16);
    assert_eq!(t.day_of_week, 4);
    assert_eq!(parse_datetime(b"1970-01-01T00:00").unwrap().epoch_minute, 0);
    assert_eq!(parse_datetime(b"1970-01-01T00:0"), Err(ParseError::InvalidValue));
    assert_eq!(parse_datetime(b"1970-01-0xT00:00"), Err(ParseError::InvalidValue));
    assert_eq!(days_from_civil(2000, 2, 29), 11016);
    assert_eq!(days_from_civil(1970, 1, 1), 0);
    assert_eq!(days_from_civil(1969, 12, 31), -1);
    assert_eq!(parse2(b"x42", 1), Ok(42));
    assert_eq!(parse2(b"x4", 1), Err(ParseError::InvalidValue));
    assert_eq!(parse4(b"2026", 0), Ok(2026));
    assert_eq!(parse4(b"20a6", 0), Err(ParseError::InvalidValue));
}

#[test]
fn merchant_hash_values() {
    assert_eq!(hash_bytes(b""), 5871781006564002453);
    assert_eq!(hash_bytes(b"a"), 10257619447530855975);
    assert_eq!(hash_bytes(b"MERC-004"), 14329093039463198579);
    assert_eq!(hash_bytes(b"MERC-0042"), 4540002598151689490);
}

#[test]
fn mcc_codes() {
    assert_eq!(parse_mcc(b"5411"), 5411);
    assert_eq!(parse_mcc(b"0000"), 0);
    assert_eq!(parse_mcc(b"541"), 0);
    assert_eq!(parse_mcc(b"54x1"), 0);
}

#[test]
fn scalar_readers() {
    let json = br#"{"a": -12,"b":true,"c":"x\"y","d":1.5e-3,"e":fals}"#;
    let mut cursor = 0usize;
    let a = find_value_start(json, b"\"a\"", &mut cursor).unwrap();
    assert_eq!(read_int_at(json, a), Ok(-12));
    let b = find_value_start(json, b"\"b\"", &mut cursor).unwrap();
    assert_eq!(read_bool_at(json, b), Ok(true));
    let c = find_value_start(json, b"\"c\"", &mut cursor).unwrap();
    assert_eq!(read_string_at(json, c), Ok(&b"x\\\"y"[..]));
    let d = find_value_start(json, b"\"d\"", &mut cursor).unwrap();
    assert_eq!(read_double_at(json, d), Ok(&b"1.5e-3"[..]));
    let e = find_value_start(json, b"\"e\"", &mut cursor).unwrap();
    assert_eq!(read_bool_at(json, e), Err(ParseError::InvalidValue));
    assert_eq!(read_double_at(json, e), Err(ParseError::InvalidValue));
    assert_eq!(find_value_start(json, b"\"a\"", &mut cursor), Err(ParseError::MissingField));
    assert!(is_json_whitespace(b'\t'));
    assert!(!is_json_whitespace(b'x'));
}

#[test]
fn known_merchants_are_hashed_in_order() {
    let json = br#""known_merchants":["MERC-009", "MERC-001"],"#;
    let mut cursor = 0usize;
    let hashes = find_and_read_known_merchants(json, &mut cursor).unwrap();
    assert_eq!(hashes, vec![hash_bytes(b"MERC-009"), hash_bytes(b"MERC-001")]);
}

#[test]
fn field_names_match_ignoring_case_and_separators() {
    assert!(field_matches(b"requestedAt", b"requested_at"));
    assert!(field_matches(b"AVG-AMOUNT", b"avg_amount"));
    assert!(field_matches(b"Tx_count_24h", b"tx_count_24h"));
    assert!(!field_matches(b"amounts", b"amount"));
}

fn text(s: &str) -> JsonValue {
    JsonValue::String(s.as_bytes().to_vec())
}

fn num(s: &str, int: Option<i64>) -> JsonValue {
    JsonValue::Number(s.as_bytes().to_vec(), int)
}

fn object(entries: Vec<(&str, JsonValue)>) -> JsonValue {
    JsonValue::Object(entries.into_iter().map(|(k, v)| (k.as_bytes().to_vec(), v)).collect())
}

fn sample_document(last: JsonValue) -> JsonValue {
    object(vec![
        ("ID", text("tx-1")),
        (
            "Transaction",
            object(vec![
                ("amount", num("384.88", None)),
                ("installments", num("3", Some(3))),
                ("requestedAt", text("2026-03-11T20:23:35Z")),
            ]),
        ),
        (
            "customer",
            object(vec![
                ("avg-amount", num("769.76", None)),
                ("tx_count_24h", num("3", Some(3))),
                ("known_merchants", JsonValue::Array(vec![text("MERC-009"), text("MERC-001")])),
            ]),
        ),
        (
            "merchant",
            object(vec![
                ("id", text("MERC-001")),
                ("mcc", text("5912")),
                ("avg_amount", num("298.95", None)),
            ]),
        ),
        (
            "terminal",
            object(vec![
                ("is_online", JsonValue::Bool(false)),
                ("card_present", JsonValue::Bool(true)),
                ("km_from_home", num("13.7090520965", None)),
            ]),
        ),
        ("last_transaction", last),
    ])
}

#[test]
fn json_document_fields() {
    let last = object(vec![
        ("timestamp", text("2026-03-11T14:58:35Z")),
        ("km_from_current", num("18.8626479774", None)),
    ]);
    assert_eq!(fields_from_json(&sample_document(last)), parse_query(PAYLOAD));
    let without_last = fields_from_json(&sample_document(JsonValue::Null)).unwrap();
    assert_eq!(without_last.last_transaction, None);
    assert_eq!(fields_from_json(&JsonValue::Null), Err(ParseError::InvalidFormat));
    assert_eq!(fields_from_json(&object(vec![])), Err(ParseError::InvalidFormat));
}

/// A top-level id placed between the customer and the merchant is not taken for the
/// merchant's id: the fields are those of the same payload in the usual order.
#[test]
fn top_level_id_before_the_merchant_is_passed_over() {
    let moved = br#"{"transaction":{"amount":384.88,"installments":3,"requested_at":"2026-03-11T20:23:35Z"},"customer":{"avg_amount":769.76,"tx_count_24h":3,"known_merchants":["MERC-009","MERC-001"]},"id":"tx-1","merchant":{"id":"MERC-001","mcc":"5912","avg_amount":298.95},"terminal":{"is_online":false,"card_present":true,"km_from_home":13.7090520965},"last_transaction":{"timestamp":"2026-03-11T14:58:35Z","km_from_current":18.8626479774}}"#;
    let fields = rinha_rust::vector::fields::try_parse_transaction_first(moved).unwrap();
    assert!(fields.merchant_known);
    assert_eq!(fields, parse_query(PAYLOAD).unwrap());

    let customer_first = br#"{"customer":{"avg_amount":769.76,"tx_count_24h":3,"known_merchants":["MERC-009","MERC-001"]},"last_transaction":{"timestamp":"2026-03-11T14:58:35Z","km_from_current":18.8626479774},"id":"tx-1","merchant":{"id":"MERC-001","mcc":"5912","avg_amount":298.95},"terminal":{"is_online":false,"card_present":true,"km_from_home":13.7090520965},"transaction":{"amount":384.88,"installments":3,"requested_at":"2026-03-11T20:23:35Z"}}"#;
    let fields = rinha_rust::vector::fields::try_parse_customer_first(customer_first).unwrap();
    assert_eq!(fields, parse_query(PAYLOAD).unwrap());
}
