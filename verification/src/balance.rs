//! The load balancer's decisions: which API sockets it connects to, and in which order a
//! client connection is offered to them.

use vstd::prelude::*;

verus! {

/// Most API sockets the balancer connects to.
pub const MAX_BACKENDS: usize = 32;

/// Round-robin turn after `rr` among `count` backends.
pub fn next_turn(rr: usize, count: usize) -> (r: usize)
    requires
        rr < count,
    ensures
        r == (rr + 1) % (count as int),
        r < count,
{
    if rr + 1 == count {
        proof {
            vstd::arithmetic::div_mod::lemma_mod_self_0(count as int);
        }
        0
    } else {
        proof {
            vstd::arithmetic::div_mod::lemma_small_mod((rr + 1) as nat, count as nat);
        }
        rr + 1
    }
}

/// Place `k` of the round that starts at backend `first`.
pub open spec fn round_place(first: int, count: int, k: int) -> int {
    if first + k < count {
        first + k
    } else {
        first + k - count
    }
}

/// The order in which a connection is offered to the backends: from `first` once round
/// them all. Every backend comes exactly once.
pub fn offer_order(first: usize, count: usize) -> (order: Vec<usize>)
    requires
        first < count,
    ensures
        order@.len() == count,
        forall|k: int| 0 <= k < count ==> #[trigger] order@[k] == round_place(first as int, count as int, k),
        forall|k: int| 0 <= k < count ==> order@[k] == (first + k) % (count as int),
        order@.no_duplicates(),
        forall|b: usize| b < count ==> #[trigger] order@.contains(b),
{
    let mut order: Vec<usize> = Vec::new();
    let mut k: usize = 0;
    while k < count
        invariant
            first < count,
            k <= count,
            order@.len() == k,
            forall|j: int| 0 <= j < k ==> #[trigger] order@[j] == round_place(first as int, count as int, j),
        decreases count - k,
    {
        let v = if k < count - first {
            first + k
        } else {
            k - (count - first)
        };
        order.push(v);
        k += 1;
    }
    proof {
        assert forall|k: int| 0 <= k < count implies order@[k] == (first + k) % (count as int) by {
            let p = round_place(first as int, count as int, k);
            assert(0 <= p < count);
            assert(first + k == p || first + k == p + count);
            vstd::arithmetic::div_mod::lemma_fundamental_div_mod_converse(
                first + k,
                count as int,
                if first + k < count { 0 } else { 1 },
                p,
            );
        }
        assert forall|i: int, j: int| 0 <= i < order@.len() && 0 <= j < order@.len() && i != j implies order@[i]
            != order@[j] by {
            assert(order@[i] == round_place(first as int, count as int, i));
            assert(order@[j] == round_place(first as int, count as int, j));
        }
        assert forall|b: usize| b < count implies #[trigger] order@.contains(b) by {
            let k: int = if b >= first { b - first } else { b + count - first };
            assert(order@[k] == round_place(first as int, count as int, k));
        }
    }
    order
}

// ---------------------------------------------------------------------------
// The list of API sockets

/// Bytes of the whitespace character (in the Unicode sense) that `s` starts with, or 0.
pub open spec fn leading_space(s: Seq<u8>) -> int {
    if s.len() >= 1 && (s[0] == 32 || 9 <= s[0] <= 13) {
        1
    } else if s.len() >= 2 && s[0] == 0xC2 && (s[1] == 0x85 || s[1] == 0xA0) {
        2
    } else if s.len() >= 3 && is_space3(s[0], s[1], s[2]) {
        3
    } else {
        0
    }
}

/// Bytes of the whitespace character that `s` ends with, or 0.
pub open spec fn trailing_space(s: Seq<u8>) -> int {
    let n = s.len() as int;
    if n >= 1 && (s[n - 1] == 32 || 9 <= s[n - 1] <= 13) {
        1
    } else if n >= 2 && s[n - 2] == 0xC2 && (s[n - 1] == 0x85 || s[n - 1] == 0xA0) {
        2
    } else if n >= 3 && is_space3(s[n - 3], s[n - 2], s[n - 1]) {
        3
    } else {
        0
    }
}

/// The three-byte encodings of U+1680, U+2000 to U+200A, U+2028, U+2029, U+202F, U+205F
/// and U+3000.
pub open spec fn is_space3(a: u8, b: u8, c: u8) -> bool {
    ||| a == 0xE1 && b == 0x9A && c == 0x80
    ||| a == 0xE2 && b == 0x80 && (0x80 <= c <= 0x8A || c == 0xA8 || c == 0xA9 || c == 0xAF)
    ||| a == 0xE2 && b == 0x81 && c == 0x9F
    ||| a == 0xE3 && b == 0x80 && c == 0x80
}

pub open spec fn trim_start(s: Seq<u8>) -> Seq<u8>
    decreases s.len(),
{
    if leading_space(s) > 0 {
        trim_start(s.subrange(leading_space(s), s.len() as int))
    } else {
        s
    }
}

pub open spec fn trim_end(s: Seq<u8>) -> Seq<u8>
    decreases s.len(),
{
    if trailing_space(s) > 0 {
        trim_end(s.subrange(0, s.len() - trailing_space(s)))
    } else {
        s
    }
}

/// `s` without the whitespace at either end.
pub open spec fn trim(s: Seq<u8>) -> Seq<u8> {
    trim_end(trim_start(s))
}

/// The comma-separated items of `s`, in order.
pub open spec fn items(s: Seq<u8>) -> Seq<Seq<u8>>
    decreases s.len(),
{
    match crate::scan::first_index(0, s.len() as int, crate::scan::byte_is(s, 44)) {
        None => seq![s],
        Some(c) => {
            proof {
                crate::scan::lemma_first_index(0, s.len() as int, crate::scan::byte_is(s, 44));
            }
            seq![s.subrange(0, c)] + items(s.subrange(c + 1, s.len() as int))
        },
    }
}

/// The trimmed items that are not empty, in order, at most `limit` of them.
pub open spec fn kept(its: Seq<Seq<u8>>, limit: int) -> Seq<Seq<u8>>
    decreases its.len(),
{
    if its.len() == 0 || limit <= 0 {
        Seq::empty()
    } else if trim(its[0]).len() == 0 {
        kept(its.drop_first(), limit)
    } else {
        seq![trim(its[0])] + kept(its.drop_first(), limit - 1)
    }
}

/// The API sockets named in a comma-separated list: each item trimmed, empty ones left
/// out, at most `MAX_BACKENDS`.
pub open spec fn backends_of(s: Seq<u8>) -> Seq<Seq<u8>> {
    kept(items(s), MAX_BACKENDS as int)
}

fn is_space3_exec(a: u8, b: u8, c: u8) -> (r: bool)
    ensures
        r == is_space3(a, b, c),
{
    (a == 0xE1 && b == 0x9A && c == 0x80) || (a == 0xE2 && b == 0x80 && ((0x80 <= c && c <= 0x8A)
        || c == 0xA8 || c == 0xA9 || c == 0xAF)) || (a == 0xE2 && b == 0x81 && c == 0x9F) || (a
        == 0xE3 && b == 0x80 && c == 0x80)
}

/// `s[lo..hi]` trimmed, as a range of `s`.
fn trim_range(s: &[u8], lo: usize, hi: usize) -> (r: (usize, usize))
    requires
        lo <= hi <= s@.len(),
    ensures
        lo <= r.0 <= r.1 <= hi,
        s@.subrange(r.0 as int, r.1 as int) == trim(s@.subrange(lo as int, hi as int)),
{
    let mut a = lo;
    while a < hi
        invariant
            lo <= a <= hi <= s@.len(),
            trim_start(s@.subrange(lo as int, hi as int)) == trim_start(s@.subrange(a as int, hi as int)),
        ensures
            lo <= a <= hi,
            trim_start(s@.subrange(lo as int, hi as int)) == s@.subrange(a as int, hi as int),
        decreases hi - a,
    {
        let ghost t = s@.subrange(a as int, hi as int);
        let rest = hi - a;
        let n: usize = if s[a] == 32 || (9 <= s[a] && s[a] <= 13) {
            1
        } else if rest >= 2 && s[a] == 0xC2 && (s[a + 1] == 0x85 || s[a + 1] == 0xA0) {
            2
        } else if rest >= 3 && is_space3_exec(s[a], s[a + 1], s[a + 2]) {
            3
        } else {
            0
        };
        assert(n == leading_space(t));
        if n == 0 {
            break;
        }
        assert(t.subrange(n as int, t.len() as int) =~= s@.subrange(a + n, hi as int));
        a = a + n;
    }
    let mut b = hi;
    while b > a
        invariant
            lo <= a <= b <= hi <= s@.len(),
            trim_end(s@.subrange(a as int, hi as int)) == trim_end(s@.subrange(a as int, b as int)),
        ensures
            a <= b <= hi,
            trim_end(s@.subrange(a as int, hi as int)) == s@.subrange(a as int, b as int),
        decreases b - a,
    {
        let ghost t = s@.subrange(a as int, b as int);
        let rest = b - a;
        let n: usize = if s[b - 1] == 32 || (9 <= s[b - 1] && s[b - 1] <= 13) {
            1
        } else if rest >= 2 && s[b - 2] == 0xC2 && (s[b - 1] == 0x85 || s[b - 1] == 0xA0) {
            2
        } else if rest >= 3 && is_space3_exec(s[b - 3], s[b - 2], s[b - 1]) {
            3
        } else {
            0
        };
        assert(n == trailing_space(t));
        if n == 0 {
            break;
        }
        assert(t.subrange(0, t.len() - n) =~= s@.subrange(a as int, b - n));
        b = b - n;
    }
    (a, b)
}

/// The API sockets named in a comma-separated list: each item trimmed, empty ones left
/// out, at most `MAX_BACKENDS`, in the order given.
pub fn backend_list(spec: &[u8]) -> (r: Vec<Vec<u8>>)
    ensures
        r@.len() == backends_of(spec@).len(),
        forall|k: int| 0 <= k < r@.len() ==> #[trigger] r@[k]@ == backends_of(spec@)[k],
{
    let n = spec.len();
    let mut out: Vec<Vec<u8>> = Vec::new();
    let mut start: usize = 0;
    let mut done = false;
    proof {
        assert(spec@.subrange(0, n as int) =~= spec@);
        assert(out@.map_values(|v: Vec<u8>| v@) + kept(items(spec@), MAX_BACKENDS as int) =~= kept(
            items(spec@),
            MAX_BACKENDS as int,
        ));
    }
    while !done && out.len() < MAX_BACKENDS
        invariant
            n == spec@.len(),
            start <= n,
            out@.len() <= MAX_BACKENDS,
            !done ==> backends_of(spec@) == out@.map_values(|v: Vec<u8>| v@) + kept(
                items(spec@.subrange(start as int, n as int)),
                MAX_BACKENDS - out@.len(),
            ),
            done ==> backends_of(spec@) == out@.map_values(|v: Vec<u8>| v@),
        decreases n - start + (if done { 0int } else { 1int }),
    {
        let ghost s = spec@.subrange(start as int, n as int);
        let ghost before = out@.map_values(|v: Vec<u8>| v@);
        let mut end = start;
        while end < n && spec[end] != 44
            invariant
                start <= end <= n,
                n == spec@.len(),
                forall|k: int| start <= k < end ==> spec@[k] != 44,
            decreases n - end,
        {
            end += 1;
        }
        proof {
            crate::scan::lemma_first_index(0, s.len() as int, crate::scan::byte_is(s, 44));
            if end < n {
                crate::scan::lemma_first_index_found(
                    0,
                    s.len() as int,
                    end - start,
                    crate::scan::byte_is(s, 44),
                );
                assert(s.subrange(0, end - start) =~= spec@.subrange(start as int, end as int));
                assert(s.subrange(end - start + 1, s.len() as int) =~= spec@.subrange(
                    end + 1,
                    n as int,
                ));
            } else {
                crate::scan::lemma_first_index_none(0, s.len() as int, crate::scan::byte_is(s, 44));
            }
        }
        let (a, b) = trim_range(spec, start, end);
        let ghost item = spec@.subrange(start as int, end as int);
        let ghost its = items(s);
        assert(its[0] == item);
        if a < b {
            let mut v: Vec<u8> = Vec::new();
            let mut i = a;
            while i < b
                invariant
                    a <= i <= b <= spec@.len(),
                    v@ == spec@.subrange(a as int, i as int),
                decreases b - i,
            {
                v.push(spec[i]);
                i += 1;
                assert(v@ =~= spec@.subrange(a as int, i as int));
            }
            out.push(v);
            proof {
                assert(out@.map_values(|v: Vec<u8>| v@) =~= before.push(trim(item)));
            }
        } else {
            assert(out@.map_values(|v: Vec<u8>| v@) =~= before);
        }
        if end < n {
            proof {
                assert(its.drop_first() =~= items(spec@.subrange(end + 1, n as int)));
                if a < b {
                    assert(before.push(trim(item)) + kept(its.drop_first(), MAX_BACKENDS - out@.len())
                        =~= before + (seq![trim(item)] + kept(its.drop_first(), MAX_BACKENDS
                        - out@.len())));
                }
            }
            start = end + 1;
        } else {
            proof {
                assert(its =~= seq![item]);
                assert(its.drop_first() =~= Seq::<Seq<u8>>::empty());
                if a < b {
                    assert(before.push(trim(item)) =~= before + seq![trim(item)]);
                    assert(kept(its.drop_first(), MAX_BACKENDS - out@.len()) =~= Seq::<Seq<u8>>::empty());
                    assert(before + kept(its, MAX_BACKENDS - before.len()) =~= before + (seq![trim(item)]
                        + kept(its.drop_first(), MAX_BACKENDS - before.len() - 1)));
                } else {
                    assert(before + kept(its, MAX_BACKENDS - before.len()) =~= before);
                }
            }
            done = true;
        }
    }
    proof {
        if !done {
            let rest = items(spec@.subrange(start as int, n as int));
            assert(kept(rest, MAX_BACKENDS - out@.len()) =~= Seq::<Seq<u8>>::empty());
        }
        assert forall|k: int| 0 <= k < out@.len() implies #[trigger] out@[k]@ == backends_of(spec@)[k] by {
            assert(out@.map_values(|v: Vec<u8>| v@)[k] == out@[k]@);
        }
    }
    out
}

} // verus!
