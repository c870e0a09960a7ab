//! The fields of a payload that the query vector is computed from, and the two key orders
//! the single-pass scanners expect.

use vstd::prelude::*;
use super::ParseError;
use super::datetime::{
    ParsedDateTime, civil_days, datetime_of, epoch_minute_bound, four_digits, lemma_civil_days_bounds,
    parse_datetime, rem7, two_digits,
};
use super::hash::{hash_bytes, hash_of};
use super::fast::{
    KEY_AMOUNT, KEY_AVG_AMOUNT, KEY_CARD_PRESENT, KEY_ID, KEY_INSTALLMENTS, KEY_IS_ONLINE, KEY_MERCHANT,
    KEY_KM_FROM_CURRENT, KEY_KM_FROM_HOME, KEY_LAST_TRANSACTION, KEY_MCC, KEY_REQUESTED_AT,
    KEY_TIMESTAMP, KEY_TX_COUNT_24H, LOWER_N, bool_field, find_and_read_bool,
    find_and_read_double, find_and_read_int, find_and_read_known_merchants,
    find_and_read_string, find_value_start, int_field, key, known_hashes, last_field, mcc_code,
    merchant_id_field, merchants_field, number_field, parse_mcc, string_field, value_start_of,
};

verus! {

/// The previous transaction of a payload.
#[derive(Debug, Clone, PartialEq, Eq)]
pub struct LastTransactionFields {
    /// Minutes from the previous transaction to this one.
    pub minutes_since: i64,
    /// Text of the `km_from_current` number.
    pub km_from_current: Vec<u8>,
}

/// What a payload says, in integers, flags and the text of its decimal numbers.
#[derive(Debug, Clone, PartialEq, Eq)]
pub struct QueryFields {
    pub amount: Vec<u8>,
    pub installments: i32,
    pub requested_hour: i32,
    pub requested_day_of_week: i32,
    pub customer_avg_amount: Vec<u8>,
    pub tx_count_24h: i32,
    /// The merchant is among the customer's first known merchants.
    pub merchant_known: bool,
    pub mcc: i32,
    pub merchant_avg_amount: Vec<u8>,
    pub is_online: bool,
    pub card_present: bool,
    pub km_from_home: Vec<u8>,
    pub last_transaction: Option<LastTransactionFields>,
}

pub struct FieldsModel {
    pub amount: Seq<u8>,
    pub installments: i32,
    pub requested_hour: i32,
    pub requested_day_of_week: i32,
    pub customer_avg_amount: Seq<u8>,
    pub tx_count_24h: i32,
    pub merchant_known: bool,
    pub mcc: i32,
    pub merchant_avg_amount: Seq<u8>,
    pub is_online: bool,
    pub card_present: bool,
    pub km_from_home: Seq<u8>,
    pub last_transaction: Option<(i64, Seq<u8>)>,
}

impl View for QueryFields {
    type V = FieldsModel;

    open spec fn view(&self) -> FieldsModel {
        FieldsModel {
            amount: self.amount@,
            installments: self.installments,
            requested_hour: self.requested_hour,
            requested_day_of_week: self.requested_day_of_week,
            customer_avg_amount: self.customer_avg_amount@,
            tx_count_24h: self.tx_count_24h,
            merchant_known: self.merchant_known,
            mcc: self.mcc,
            merchant_avg_amount: self.merchant_avg_amount@,
            is_online: self.is_online,
            card_present: self.card_present,
            km_from_home: self.km_from_home@,
            last_transaction: match self.last_transaction {
                Some(l) => Some((l.minutes_since, l.km_from_current@)),
                None => None,
            },
        }
    }
}

pub open spec fn contains_hash(hashes: Seq<u64>, h: u64) -> bool {
    exists|k: int| 0 <= k < hashes.len() && hashes[k] == h
}

/// A known merchant is recognised wherever it stands in the list, the first place
/// included: the hashes hold `h` exactly when some entry equals it.
pub proof fn lemma_known_anywhere(hashes: Seq<u64>, h: u64)
    ensures
        contains_hash(hashes, h) <==> hashes.contains(h),
        forall|k: int| 0 <= k < hashes.len() && hashes[k] == h ==> contains_hash(hashes, h),
{
}

/// Minutes from 1970-01-01T00:00 to the date and time written as `YYYY-MM-DDTHH:MM` at
/// the front of `iso`, by the proleptic Gregorian calendar.
pub open spec fn written_minute(iso: Seq<u8>) -> int {
    civil_days(
        four_digits(iso, 0)->0 as int,
        two_digits(iso, 5)->0 as int,
        two_digits(iso, 8)->0 as int,
    ) * 1440 + two_digits(iso, 11)->0 * 60 + two_digits(iso, 14)->0
}

/// The minutes since the previous transaction count the whole span between the two
/// timestamps, the days between their dates included, not only the times of day; and
/// the merchant is known exactly when its id hashes to one of the known hashes; the hour
/// and weekday come from the request's own timestamp, and the other fields are the values
/// read, as they were read.
pub proof fn lemma_minutes_since_spans_days(
    amount: Seq<u8>,
    installments: i32,
    requested_at: Seq<u8>,
    customer_avg_amount: Seq<u8>,
    tx_count_24h: i32,
    known: Seq<u64>,
    merchant_id: Seq<u8>,
    mcc: Seq<u8>,
    merchant_avg_amount: Seq<u8>,
    is_online: bool,
    card_present: bool,
    km_from_home: Seq<u8>,
    ts: Seq<u8>,
    km: Seq<u8>,
)
    requires
        datetime_of(requested_at) is Some,
        datetime_of(ts) is Some,
    ensures
        fields_of(
            amount,
            installments,
            requested_at,
            customer_avg_amount,
            tx_count_24h,
            known,
            merchant_id,
            mcc,
            merchant_avg_amount,
            is_online,
            card_present,
            km_from_home,
            Some((ts, km)),
        ) matches Some(f) && f.last_transaction == Some(
            ((written_minute(requested_at) - written_minute(ts)) as i64, km),
        ) && (f.merchant_known <==> known.contains(hash_of(merchant_id))) && f.requested_hour
            == two_digits(requested_at, 11)->0 && f.requested_day_of_week == rem7(
            civil_days(
                four_digits(requested_at, 0)->0 as int,
                two_digits(requested_at, 5)->0 as int,
                two_digits(requested_at, 8)->0 as int,
            ) + 3,
        ) && f.amount == amount && f.installments == installments && f.customer_avg_amount
            == customer_avg_amount && f.tx_count_24h == tx_count_24h && f.mcc == mcc_code(mcc)
            && f.merchant_avg_amount == merchant_avg_amount && f.is_online == is_online
            && f.card_present == card_present && f.km_from_home == km_from_home,
{
    lemma_minute_in_range(requested_at);
    lemma_minute_in_range(ts);
}

/// A payload without a previous transaction reads no previous transaction, as long as its
/// own timestamp reads.
pub proof fn lemma_no_previous_transaction(
    amount: Seq<u8>,
    installments: i32,
    requested_at: Seq<u8>,
    customer_avg_amount: Seq<u8>,
    tx_count_24h: i32,
    known: Seq<u64>,
    merchant_id: Seq<u8>,
    mcc: Seq<u8>,
    merchant_avg_amount: Seq<u8>,
    is_online: bool,
    card_present: bool,
    km_from_home: Seq<u8>,
)
    ensures
        fields_of(
            amount,
            installments,
            requested_at,
            customer_avg_amount,
            tx_count_24h,
            known,
            merchant_id,
            mcc,
            merchant_avg_amount,
            is_online,
            card_present,
            km_from_home,
            None,
        ) matches Some(f) ==> f.last_transaction is None,
        datetime_of(requested_at) is Some <==> fields_of(
            amount,
            installments,
            requested_at,
            customer_avg_amount,
            tx_count_24h,
            known,
            merchant_id,
            mcc,
            merchant_avg_amount,
            is_online,
            card_present,
            km_from_home,
            None,
        ) is Some,
{
}

proof fn lemma_minute_in_range(iso: Seq<u8>)
    requires
        datetime_of(iso) is Some,
    ensures
        datetime_of(iso)->0.epoch_minute == written_minute(iso),
        -2_000_000_000 <= written_minute(iso) <= 8_000_000_000_000,
{
    let y = four_digits(iso, 0)->0 as int;
    let m = two_digits(iso, 5)->0 as int;
    let d = two_digits(iso, 8)->0 as int;
    lemma_civil_days_bounds(y, m, d);
}

/// The fields, once the two timestamps are read; `None` when either does not parse.
pub open spec fn fields_of(
    amount: Seq<u8>,
    installments: i32,
    requested_at: Seq<u8>,
    customer_avg_amount: Seq<u8>,
    tx_count_24h: i32,
    known: Seq<u64>,
    merchant_id: Seq<u8>,
    mcc: Seq<u8>,
    merchant_avg_amount: Seq<u8>,
    is_online: bool,
    card_present: bool,
    km_from_home: Seq<u8>,
    last: Option<(Seq<u8>, Seq<u8>)>,
) -> Option<FieldsModel> {
    match datetime_of(requested_at) {
        None => None,
        Some(dt) => {
            let lt: Option<Option<(i64, Seq<u8>)>> = match last {
                None => Some(None),
                Some((ts, km)) => match datetime_of(ts) {
                    None => None,
                    Some(l) => Some(Some(((dt.epoch_minute - l.epoch_minute) as i64, km))),
                },
            };
            match lt {
                None => None,
                Some(lt) => Some(
                    FieldsModel {
                        amount,
                        installments,
                        requested_hour: dt.hour,
                        requested_day_of_week: dt.day_of_week,
                        customer_avg_amount,
                        tx_count_24h,
                        merchant_known: contains_hash(known, hash_of(merchant_id)),
                        mcc: mcc_code(mcc),
                        merchant_avg_amount,
                        is_online,
                        card_present,
                        km_from_home,
                        last_transaction: lt,
                    },
                ),
            }
        },
    }
}

/// Reading a payload whose keys come transaction first: each key is searched after the
/// previous one.
pub open spec fn transaction_first(s: Seq<u8>) -> Option<FieldsModel> {
    match number_field(s, key(KEY_AMOUNT), 0) {
        None => None,
        Some((amount, c1)) => match int_field(s, key(KEY_INSTALLMENTS), c1) {
            None => None,
            Some((installments, c2)) => match string_field(s, key(KEY_REQUESTED_AT), c2) {
                None => None,
                Some((requested_at, c3)) => match number_field(s, key(KEY_AVG_AMOUNT), c3) {
                    None => None,
                    Some((customer_avg, c4)) => match int_field(s, key(KEY_TX_COUNT_24H), c4) {
                        None => None,
                        Some((tx_count, c5)) => match merchants_field(s, c5) {
                            None => None,
                            Some((strs, c6)) => match merchant_id_field(s, c6) {
                                None => None,
                                Some((merchant_id, c7)) => match string_field(s, key(KEY_MCC), c7) {
                                    None => None,
                                    Some((mcc, c8)) => match number_field(
                                        s,
                                        key(KEY_AVG_AMOUNT),
                                        c8,
                                    ) {
                                        None => None,
                                        Some((merchant_avg, c9)) => match bool_field(
                                            s,
                                            key(KEY_IS_ONLINE),
                                            c9,
                                        ) {
                                            None => None,
                                            Some((online, c10)) => match bool_field(
                                                s,
                                                key(KEY_CARD_PRESENT),
                                                c10,
                                            ) {
                                                None => None,
                                                Some((present, c11)) => match number_field(
                                                    s,
                                                    key(KEY_KM_FROM_HOME),
                                                    c11,
                                                ) {
                                                    None => None,
                                                    Some((km, c12)) => match last_field(s, c12) {
                                                        None => None,
                                                        Some((last, _)) => fields_of(
                                                            amount,
                                                            installments,
                                                            requested_at,
                                                            customer_avg,
                                                            tx_count,
                                                            known_hashes(strs),
                                                            merchant_id,
                                                            mcc,
                                                            merchant_avg,
                                                            online,
                                                            present,
                                                            km,
                                                            last,
                                                        ),
                                                    },
                                                },
                                            },
                                        },
                                    },
                                },
                            },
                        },
                    },
                },
            },
        },
    }
}

/// Reading a payload whose keys come customer first (keys in alphabetical order).
pub open spec fn customer_first(s: Seq<u8>) -> Option<FieldsModel> {
    match number_field(s, key(KEY_AVG_AMOUNT), 0) {
        None => None,
        Some((customer_avg, c1)) => match int_field(s, key(KEY_TX_COUNT_24H), c1) {
            None => None,
            Some((tx_count, c2)) => match merchants_field(s, c2) {
                None => None,
                Some((strs, c3)) => match last_field(s, c3) {
                    None => None,
                    Some((last, c4)) => match merchant_id_field(s, c4) {
                        None => None,
                        Some((merchant_id, c5)) => match string_field(s, key(KEY_MCC), c5) {
                            None => None,
                            Some((mcc, c6)) => match number_field(s, key(KEY_AVG_AMOUNT), c6) {
                                None => None,
                                Some((merchant_avg, c7)) => match bool_field(
                                    s,
                                    key(KEY_IS_ONLINE),
                                    c7,
                                ) {
                                    None => None,
                                    Some((online, c8)) => match bool_field(
                                        s,
                                        key(KEY_CARD_PRESENT),
                                        c8,
                                    ) {
                                        None => None,
                                        Some((present, c9)) => match number_field(
                                            s,
                                            key(KEY_KM_FROM_HOME),
                                            c9,
                                        ) {
                                            None => None,
                                            Some((km, c10)) => match number_field(
                                                s,
                                                key(KEY_AMOUNT),
                                                c10,
                                            ) {
                                                None => None,
                                                Some((amount, c11)) => match int_field(
                                                    s,
                                                    key(KEY_INSTALLMENTS),
                                                    c11,
                                                ) {
                                                    None => None,
                                                    Some((installments, c12)) => match string_field(
                                                        s,
                                                        key(KEY_REQUESTED_AT),
                                                        c12,
                                                    ) {
                                                        None => None,
                                                        Some((requested_at, _)) => fields_of(
                                                            amount,
                                                            installments,
                                                            requested_at,
                                                            customer_avg,
                                                            tx_count,
                                                            known_hashes(strs),
                                                            merchant_id,
                                                            mcc,
                                                            merchant_avg,
                                                            online,
                                                            present,
                                                            km,
                                                            last,
                                                        ),
                                                    },
                                                },
                                            },
                                        },
                                    },
                                },
                            },
                        },
                    },
                },
            },
        },
    }
}

fn key_bytes(k: &'static str) -> (r: &'static [u8])
    ensures
        r@ == key(k),
{
    k.as_bytes()
}

fn to_vec(s: &[u8]) -> (v: Vec<u8>)
    ensures
        v@ == s@,
{
    vstd::slice::slice_to_vec(s)
}

/// Whether `h` is one of `hashes`.
pub fn contains_u64(hashes: &Vec<u64>, h: u64) -> (r: bool)
    ensures
        r == contains_hash(hashes@, h),
        r == hashes@.contains(h),
{
    let mut i: usize = 0;
    while i < hashes.len()
        invariant
            i <= hashes@.len(),
            forall|k: int| 0 <= k < i ==> hashes@[k] != h,
        decreases hashes@.len() - i,
    {
        if hashes[i] == h {
            return true;
        }
        i += 1;
    }
    false
}

/// Reads the previous transaction: `None` for a `null` value, else its timestamp and
/// distance. The cursor ends where `last_field` says.
fn find_and_read_last<'a>(json: &'a [u8], cursor: &mut usize) -> (r: Result<
    Option<(&'a [u8], &'a [u8])>,
    ParseError,
>)
    ensures
        match last_field(json@, *old(cursor) as int) {
            Some((l, c)) => *final(cursor) == c && match l {
                Some((ts, km)) => r matches Ok(Some((a, b))) && a@ == ts && b@ == km,
                None => r matches Ok(None),
            },
            None => r is Err,
        },
{
    let last_value = find_value_start(json, key_bytes(KEY_LAST_TRANSACTION), cursor)?;
    if last_value < json.len() && json[last_value] == LOWER_N {
        Ok(None)
    } else {
        let timestamp = find_and_read_string(json, key_bytes(KEY_TIMESTAMP), cursor)?;
        let km = find_and_read_double(json, key_bytes(KEY_KM_FROM_CURRENT), cursor)?;
        Ok(Some((timestamp, km)))
    }
}

/// Reads the merchant's id: finds the `"merchant"` key, then the first `"id"` string after it.
fn find_and_read_merchant_id<'a>(json: &'a [u8], cursor: &mut usize) -> (r: Result<&'a [u8], ParseError>)
    ensures
        match merchant_id_field(json@, *old(cursor) as int) {
            Some((x, c)) => r matches Ok(b) && b@ == x && *final(cursor) == c,
            None => r is Err,
        },
{
    find_value_start(json, key_bytes(KEY_MERCHANT), cursor)?;
    find_and_read_string(json, key_bytes(KEY_ID), cursor)
}

/// Builds the fields once every value is read (see `fields_of`).
pub(crate) fn build_fields(
    amount: &[u8],
    installments: i32,
    requested_at: &[u8],
    customer_avg_amount: &[u8],
    tx_count_24h: i32,
    known: &Vec<u64>,
    merchant_id: &[u8],
    mcc: &[u8],
    merchant_avg_amount: &[u8],
    is_online: bool,
    card_present: bool,
    km_from_home: &[u8],
    last: Option<(&[u8], &[u8])>,
) -> (r: Result<QueryFields, ParseError>)
    ensures
        match fields_of(
            amount@,
            installments,
            requested_at@,
            customer_avg_amount@,
            tx_count_24h,
            known@,
            merchant_id@,
            mcc@,
            merchant_avg_amount@,
            is_online,
            card_present,
            km_from_home@,
            match last {
                Some((ts, km)) => Some((ts@, km@)),
                None => None,
            },
        ) {
            Some(f) => r matches Ok(q) && q@ == f,
            None => r == Err::<QueryFields, ParseError>(ParseError::InvalidValue),
        },
{
    let requested = parse_datetime(requested_at)?;
    let last_transaction = match last {
        None => None,
        Some((ts, km)) => {
            let previous = parse_datetime(ts)?;
            Some(
                LastTransactionFields {
                    minutes_since: requested.epoch_minute - previous.epoch_minute,
                    km_from_current: to_vec(km),
                },
            )
        },
    };
    let merchant_hash = hash_bytes(merchant_id);
    Ok(
        QueryFields {
            amount: to_vec(amount),
            installments,
            requested_hour: requested.hour,
            requested_day_of_week: requested.day_of_week,
            customer_avg_amount: to_vec(customer_avg_amount),
            tx_count_24h,
            merchant_known: contains_u64(known, merchant_hash),
            mcc: parse_mcc(mcc),
            merchant_avg_amount: to_vec(merchant_avg_amount),
            is_online,
            card_present,
            km_from_home: to_vec(km_from_home),
            last_transaction,
        },
    )
}

pub fn try_parse_transaction_first(json: &[u8]) -> (r: Result<QueryFields, ParseError>)
    ensures
        match transaction_first(json@) {
            Some(f) => r matches Ok(q) && q@ == f,
            None => r is Err,
        },
{
    let mut cursor: usize = 0;
    let amount = find_and_read_double(json, key_bytes(KEY_AMOUNT), &mut cursor)?;
    let installments = find_and_read_int(json, key_bytes(KEY_INSTALLMENTS), &mut cursor)?;
    let requested_at = find_and_read_string(json, key_bytes(KEY_REQUESTED_AT), &mut cursor)?;
    let customer_avg_amount = find_and_read_double(json, key_bytes(KEY_AVG_AMOUNT), &mut cursor)?;
    let tx_count_24h = find_and_read_int(json, key_bytes(KEY_TX_COUNT_24H), &mut cursor)?;
    let known = find_and_read_known_merchants(json, &mut cursor)?;
    let merchant_id = find_and_read_merchant_id(json, &mut cursor)?;
    let mcc = find_and_read_string(json, key_bytes(KEY_MCC), &mut cursor)?;
    let merchant_avg_amount = find_and_read_double(json, key_bytes(KEY_AVG_AMOUNT), &mut cursor)?;
    let is_online = find_and_read_bool(json, key_bytes(KEY_IS_ONLINE), &mut cursor)?;
    let card_present = find_and_read_bool(json, key_bytes(KEY_CARD_PRESENT), &mut cursor)?;
    let km_from_home = find_and_read_double(json, key_bytes(KEY_KM_FROM_HOME), &mut cursor)?;
    let last = find_and_read_last(json, &mut cursor)?;
    build_fields(
        amount,
        installments,
        requested_at,
        customer_avg_amount,
        tx_count_24h,
        &known,
        merchant_id,
        mcc,
        merchant_avg_amount,
        is_online,
        card_present,
        km_from_home,
        last,
    )
}

pub fn try_parse_customer_first(json: &[u8]) -> (r: Result<QueryFields, ParseError>)
    ensures
        match customer_first(json@) {
            Some(f) => r matches Ok(q) && q@ == f,
            None => r is Err,
        },
{
    let mut cursor: usize = 0;
    let customer_avg_amount = find_and_read_double(json, key_bytes(KEY_AVG_AMOUNT), &mut cursor)?;
    let tx_count_24h = find_and_read_int(json, key_bytes(KEY_TX_COUNT_24H), &mut cursor)?;
    let known = find_and_read_known_merchants(json, &mut cursor)?;
    let last = find_and_read_last(json, &mut cursor)?;
    let merchant_id = find_and_read_merchant_id(json, &mut cursor)?;
    let mcc = find_and_read_string(json, key_bytes(KEY_MCC), &mut cursor)?;
    let merchant_avg_amount = find_and_read_double(json, key_bytes(KEY_AVG_AMOUNT), &mut cursor)?;
    let is_online = find_and_read_bool(json, key_bytes(KEY_IS_ONLINE), &mut cursor)?;
    let card_present = find_and_read_bool(json, key_bytes(KEY_CARD_PRESENT), &mut cursor)?;
    let km_from_home = find_and_read_double(json, key_bytes(KEY_KM_FROM_HOME), &mut cursor)?;
    let amount = find_and_read_double(json, key_bytes(KEY_AMOUNT), &mut cursor)?;
    let installments = find_and_read_int(json, key_bytes(KEY_INSTALLMENTS), &mut cursor)?;
    let requested_at = find_and_read_string(json, key_bytes(KEY_REQUESTED_AT), &mut cursor)?;
    build_fields(
        amount,
        installments,
        requested_at,
        customer_avg_amount,
        tx_count_24h,
        &known,
        merchant_id,
        mcc,
        merchant_avg_amount,
        is_online,
        card_present,
        km_from_home,
        last,
    )
}

} // verus!
