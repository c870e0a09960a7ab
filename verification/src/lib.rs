//! Fraud scoring core: HTTP request framing, payload scanning and an exact
//! k-nearest-neighbour index over quantized transaction vectors.

pub mod balance;
pub mod http;
pub mod index;
pub mod scan;
pub mod service;
pub mod vector;

use vstd::prelude::*;

verus! {

/// Dimensions of a transaction vector.
pub const DIMS: usize = 14;

/// Dimensions as stored, padded to a multiple of 8 lanes.
pub const PACKED_DIMS: usize = 16;

/// Quantization scale: 1.0 is stored as `SCALE`.
pub const SCALE: i16 = 10000;

/// Number of neighbours consulted for a score.
pub const K: usize = 5;

/// A quantized query, padded to `PACKED_DIMS`.
pub type QueryVector = [i16; PACKED_DIMS];

} // verus!
