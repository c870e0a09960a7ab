//! Byte-level search primitives shared by the HTTP and JSON scanners.

use vstd::prelude::*;

verus! {

/// The first index `j` in `[lo, hi)` at which `p` holds, if any.
pub open spec fn first_index(lo: int, hi: int, p: spec_fn(int) -> bool) -> Option<int>
    decreases hi - lo,
{
    if lo >= hi {
        None
    } else if p(lo) {
        Some(lo)
    } else {
        first_index(lo + 1, hi, p)
    }
}

/// `Option<usize>` read as an optional mathematical integer.
pub open spec fn opt_int(o: Option<usize>) -> Option<int> {
    match o {
        Some(v) => Some(v as int),
        None => None,
    }
}

/// Predicate: the byte at an index equals `b`.
pub open spec fn byte_is(s: Seq<u8>, b: u8) -> spec_fn(int) -> bool {
    |i: int| s[i] == b
}

/// What `first_index` returns, stated without recursion.
pub proof fn lemma_first_index(lo: int, hi: int, p: spec_fn(int) -> bool)
    ensures
        match first_index(lo, hi, p) {
            Some(j) => lo <= j < hi && p(j) && forall|k: int| lo <= k < j ==> !#[trigger] p(k),
            None => forall|k: int| lo <= k < hi ==> !#[trigger] p(k),
        },
    decreases hi - lo,
{
    if lo < hi && !p(lo) {
        lemma_first_index(lo + 1, hi, p);
    }
}

pub proof fn lemma_first_index_found(lo: int, hi: int, j: int, p: spec_fn(int) -> bool)
    requires
        lo <= j < hi,
        p(j),
        forall|k: int| lo <= k < j ==> !#[trigger] p(k),
    ensures
        first_index(lo, hi, p) == Some(j),
{
    lemma_first_index(lo, hi, p);
}

pub proof fn lemma_first_index_none(lo: int, hi: int, p: spec_fn(int) -> bool)
    requires
        forall|k: int| lo <= k < hi ==> !#[trigger] p(k),
    ensures
        first_index(lo, hi, p) is None,
{
    lemma_first_index(lo, hi, p);
}

/// Two predicates that agree on `[lo, hi)` find the same first index there.
pub proof fn lemma_first_index_same(lo: int, hi: int, p: spec_fn(int) -> bool, p2: spec_fn(int) -> bool)
    requires
        forall|k: int| lo <= k < hi ==> #[trigger] p(k) == p2(k),
    ensures
        first_index(lo, hi, p) == first_index(lo, hi, p2),
    decreases hi - lo,
{
    if lo < hi {
        lemma_first_index_same(lo + 1, hi, p, p2);
    }
}

/// A first index found in `[lo, hi)` stays the first one in a longer range, for any
/// predicate that agrees on `[lo, hi)`.
pub proof fn lemma_first_index_extend(
    lo: int,
    hi: int,
    hi2: int,
    p: spec_fn(int) -> bool,
    p2: spec_fn(int) -> bool,
)
    requires
        hi <= hi2,
        first_index(lo, hi, p) is Some,
        forall|k: int| lo <= k < hi ==> #[trigger] p(k) == p2(k),
    ensures
        first_index(lo, hi2, p2) == first_index(lo, hi, p),
{
    lemma_first_index(lo, hi, p);
    let j = first_index(lo, hi, p)->0;
    assert forall|k: int| lo <= k < j implies !#[trigger] p2(k) by {
        assert(!p(k));
    }
    assert(p(j));
    lemma_first_index_found(lo, hi2, j, p2);
}

/// Position of the first byte equal to `b` in `s[lo..hi]`, as an index into `s`.
pub fn find_byte(s: &[u8], lo: usize, hi: usize, b: u8) -> (r: Option<usize>)
    requires
        lo <= hi <= s@.len(),
    ensures
        opt_int(r) == first_index(lo as int, hi as int, byte_is(s@, b)),
{
    let mut i: usize = lo;
    while i < hi
        invariant
            lo <= i <= hi,
            hi <= s@.len(),
            forall|k: int| lo <= k < i ==> !#[trigger] byte_is(s@, b)(k),
        decreases hi - i,
    {
        if s[i] == b {
            proof {
                lemma_first_index_found(lo as int, hi as int, i as int, byte_is(s@, b));
            }
            return Some(i);
        }
        i += 1;
    }
    proof {
        lemma_first_index_none(lo as int, hi as int, byte_is(s@, b));
    }
    None
}

/// ASCII lower-casing of one byte, as `u8::to_ascii_lowercase` does it.
pub open spec fn lower(b: u8) -> u8 {
    if 65 <= b && b <= 90 {
        (b + 32) as u8
    } else {
        b
    }
}

pub fn ascii_lower(b: u8) -> (r: u8)
    ensures
        r == lower(b),
{
    if 65 <= b && b <= 90 {
        b + 32
    } else {
        b
    }
}

/// `s[at..at + pat.len()]` equals `pat` up to ASCII case.
pub open spec fn matches_ignore_case_at(s: Seq<u8>, at: int, pat: Seq<u8>) -> bool {
    &&& 0 <= at
    &&& at + pat.len() <= s.len()
    &&& forall|j: int| 0 <= j < pat.len() ==> lower(#[trigger] s[at + j]) == lower(pat[j])
}

/// `s[at..at + pat.len()]` equals `pat` exactly.
pub open spec fn matches_at(s: Seq<u8>, at: int, pat: Seq<u8>) -> bool {
    &&& 0 <= at
    &&& at + pat.len() <= s.len()
    &&& s.subrange(at, at + pat.len()) == pat
}

pub fn eq_ignore_case_at(s: &[u8], at: usize, pat: &[u8]) -> (r: bool)
    ensures
        r == matches_ignore_case_at(s@, at as int, pat@),
{
    if at > s.len() || pat.len() > s.len() - at {
        return false;
    }
    let mut j: usize = 0;
    while j < pat.len()
        invariant
            at + pat@.len() <= s@.len(),
            at + pat.len() <= s.len(),
            j <= pat@.len(),
            forall|k: int| 0 <= k < j ==> lower(#[trigger] s@[at + k]) == lower(pat@[k]),
        decreases pat@.len() - j,
    {
        if ascii_lower(s[at + j]) != ascii_lower(pat[j]) {
            return false;
        }
        j += 1;
    }
    true
}

pub fn eq_at(s: &[u8], at: usize, pat: &[u8]) -> (r: bool)
    ensures
        r == matches_at(s@, at as int, pat@),
{
    if at > s.len() || pat.len() > s.len() - at {
        return false;
    }
    let mut j: usize = 0;
    while j < pat.len()
        invariant
            at + pat@.len() <= s@.len(),
            at + pat.len() <= s.len(),
            j <= pat@.len(),
            forall|k: int| 0 <= k < j ==> #[trigger] s@[at + k] == pat@[k],
        decreases pat@.len() - j,
    {
        if s[at + j] != pat[j] {
            assert(s@.subrange(at as int, at + pat@.len())[j as int] != pat@[j as int]);
            return false;
        }
        j += 1;
    }
    assert forall|k: int| 0 <= k < pat@.len() implies #[trigger] s@.subrange(
        at as int,
        at + pat@.len(),
    )[k] == pat@[k] by {
        assert(s@[at + k] == pat@[k]);
    }
    assert(s@.subrange(at as int, at + pat@.len()) =~= pat@);
    true
}

} // verus!
