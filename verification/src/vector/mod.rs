//! Transaction payloads to the fields a query vector is built from.

pub mod datetime;
pub mod fast;
pub mod fields;
pub mod hash;
pub mod json;

use vstd::prelude::*;
use fields::{FieldsModel, QueryFields, customer_first, transaction_first, try_parse_customer_first,
    try_parse_transaction_first};
use json::{document_fields, fields_from_json, json_document, parse_json};

verus! {

#[derive(Debug, Clone, Copy, PartialEq, Eq, Structural)]
pub enum ParseError {
    MissingField,
    InvalidValue,
    InvalidFormat,
}

/// The fields of a payload: read by the transaction-first scanner, else the customer-first
/// one, else from the payload as a JSON document.
pub open spec fn query_fields(payload: Seq<u8>) -> Result<FieldsModel, ParseError> {
    match transaction_first(payload) {
        Some(f) => Ok(f),
        None => match customer_first(payload) {
            Some(f) => Ok(f),
            None => match json_document(payload) {
                None => Err(ParseError::InvalidFormat),
                Some(doc) => document_fields(doc),
            },
        },
    }
}

/// The fields of a payload read from it as a JSON document, as `serde_json` parses it.
pub fn try_parse_serde(payload: &[u8]) -> (r: Result<QueryFields, ParseError>)
    ensures
        match json_document(payload@) {
            None => r == Err::<QueryFields, ParseError>(ParseError::InvalidFormat),
            Some(doc) => match document_fields(doc) {
                Ok(f) => r matches Ok(q) && q@ == f,
                Err(e) => r == Err::<QueryFields, ParseError>(e),
            },
        },
{
    match parse_json(payload) {
        Some(doc) => fields_from_json(&doc),
        None => Err(ParseError::InvalidFormat),
    }
}

pub fn parse_query(payload: &[u8]) -> (r: Result<QueryFields, ParseError>)
    ensures
        match query_fields(payload@) {
            Ok(f) => r matches Ok(q) && q@ == f,
            Err(e) => r == Err::<QueryFields, ParseError>(e),
        },
{
    if let Ok(fields) = try_parse_transaction_first(payload) {
        return Ok(fields);
    }
    if let Ok(fields) = try_parse_customer_first(payload) {
        return Ok(fields);
    }
    try_parse_serde(payload)
}

} // verus!
