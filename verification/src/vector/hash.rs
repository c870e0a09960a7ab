//! The identifier hash used to compare merchants.

use vstd::prelude::*;

verus! {

pub const HASH_SEED: u64 = 0x517cc1b727220a95;

/// `h.rotate_left(5)`.
pub open spec fn rotl5(h: u64) -> u64 {
    (h << 5u64) | (h >> 59u64)
}

pub open spec fn mix(h: u64, w: u64) -> u64 {
    vstd::wrapping::u64_specs::wrapping_mul(rotl5(h) ^ w, HASH_SEED)
}

/// Little-endian word of the eight bytes at `at`.
pub open spec fn le_word(s: Seq<u8>, at: int) -> u64 {
    (s[at] as u64) | ((s[at + 1] as u64) << 8u64) | ((s[at + 2] as u64) << 16u64) | ((s[at
        + 3] as u64) << 24u64) | ((s[at + 4] as u64) << 32u64) | ((s[at + 5] as u64) << 40u64)
        | ((s[at + 6] as u64) << 48u64) | ((s[at + 7] as u64) << 56u64)
}

/// State after mixing in the first `n` whole words.
pub open spec fn hash_words(s: Seq<u8>, n: nat) -> u64
    decreases n,
{
    if n == 0 {
        HASH_SEED
    } else {
        mix(hash_words(s, (n - 1) as nat), le_word(s, 8 * (n - 1)))
    }
}

/// State after mixing in `n` single bytes from `start`, beginning at `h`.
pub open spec fn hash_tail(s: Seq<u8>, h: u64, start: int, n: nat) -> u64
    decreases n,
{
    if n == 0 {
        h
    } else {
        mix(hash_tail(s, h, start, (n - 1) as nat), s[start + n - 1] as u64)
    }
}

/// Hash of a byte string: whole little-endian words first, then the remaining bytes.
pub open spec fn hash_of(s: Seq<u8>) -> u64 {
    let words = s.len() / 8;
    hash_tail(s, hash_words(s, words), (8 * words) as int, (s.len() % 8) as nat)
}

fn rotl5_exec(h: u64) -> (r: u64)
    ensures
        r == rotl5(h),
{
    (h << 5u64) | (h >> 59u64)
}

pub fn hash_bytes(value: &[u8]) -> (r: u64)
    ensures
        r == hash_of(value@),
{
    let n = value.len();
    let mut hash: u64 = HASH_SEED;
    let mut i: usize = 0;
    let mut k: usize = 0;
    while n - i >= 8
        invariant
            n == value@.len(),
            i == 8 * k,
            i <= n,
            hash == hash_words(value@, k as nat),
        decreases n - i,
    {
        let word = (value[i] as u64) | ((value[i + 1] as u64) << 8u64) | ((value[i + 2] as u64)
            << 16u64) | ((value[i + 3] as u64) << 24u64) | ((value[i + 4] as u64) << 32u64) | ((
        value[i + 5] as u64) << 40u64) | ((value[i + 6] as u64) << 48u64) | ((value[i + 7] as u64)
            << 56u64);
        hash = (rotl5_exec(hash) ^ word).wrapping_mul(HASH_SEED);
        i += 8;
        k += 1;
    }
    assert(k == n / 8);
    let ghost h0 = hash;
    let mut j: usize = i;
    while j < n
        invariant
            n == value@.len(),
            i == 8 * (n / 8),
            i <= j <= n,
            hash == hash_tail(value@, h0, i as int, (j - i) as nat),
        decreases n - j,
    {
        hash = (rotl5_exec(hash) ^ (value[j] as u64)).wrapping_mul(HASH_SEED);
        j += 1;
    }
    hash
}

} // verus!
