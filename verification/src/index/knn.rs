//! The running list of the K nearest candidates seen so far.

use vstd::prelude::*;
use crate::K;
use crate::scan::{first_index, lemma_first_index};

verus! {

/// A candidate neighbour: its squared distance to the query and its label.
pub type Candidate = (i64, u8);

/// Best list before any candidate has been seen.
pub open spec fn empty_best() -> Seq<Candidate> {
    Seq::new(K as nat, |i: int| (i64::MAX, 0u8))
}

pub open spec fn sorted_by_distance(best: Seq<Candidate>) -> bool {
    forall|i: int, j: int| 0 <= i <= j < best.len() ==> #[trigger] best[i].0 <= #[trigger] best[j].0
}

pub open spec fn farther_than(best: Seq<Candidate>, d: i64) -> spec_fn(int) -> bool {
    |j: int| best[j].0 > d
}

/// Where a candidate at distance `d` enters the list: after every entry at distance `<= d`.
pub open spec fn insert_position(best: Seq<Candidate>, d: i64) -> int {
    match first_index(0, K - 1, farther_than(best, d)) {
        Some(p) => p,
        None => K - 1,
    }
}

/// The list after offering one candidate: a candidate no closer than the current K-th
/// is ignored; otherwise it is placed after all entries no farther than it, and the
/// K-th entry drops out.
pub open spec fn offer(best: Seq<Candidate>, c: Candidate) -> Seq<Candidate> {
    if c.0 >= best[K - 1].0 {
        best
    } else {
        let p = insert_position(best, c.0);
        best.subrange(0, p).push(c) + best.subrange(p, K - 1)
    }
}

/// The list after offering every candidate of `cands` in order.
pub open spec fn offer_all(best: Seq<Candidate>, cands: Seq<Candidate>) -> Seq<Candidate>
    decreases cands.len(),
{
    if cands.len() == 0 {
        best
    } else {
        offer(offer_all(best, cands.drop_last()), cands.last())
    }
}

/// The K nearest among `cands`, ties going to the earlier candidate.
pub open spec fn nearest(cands: Seq<Candidate>) -> Seq<Candidate> {
    offer_all(empty_best(), cands)
}

/// Sum of the labels of a best list, as a byte.
pub open spec fn label_sum(best: Seq<Candidate>) -> u8
    decreases best.len(),
{
    if best.len() == 0 {
        0
    } else {
        ((label_sum(best.drop_last()) as int + best.last().1 as int) % 256) as u8
    }
}

/// How many entries of `s` lie strictly closer than `t`.
pub open spec fn count_closer(s: Seq<Candidate>, t: int) -> nat
    decreases s.len(),
{
    if s.len() == 0 {
        0
    } else {
        count_closer(s.drop_last(), t) + if s.last().0 < t {
            1nat
        } else {
            0nat
        }
    }
}

pub proof fn lemma_offer_sorted(best: Seq<Candidate>, c: Candidate)
    requires
        best.len() == K,
        sorted_by_distance(best),
    ensures
        offer(best, c).len() == K,
        sorted_by_distance(offer(best, c)),
{
    if c.0 < best[K - 1].0 {
        let p = insert_position(best, c.0);
        lemma_first_index(0, K - 1, farther_than(best, c.0));
        let r = offer(best, c);
        assert(r.len() == K);
        assert forall|i: int, j: int| 0 <= i <= j < r.len() implies #[trigger] r[i].0
            <= #[trigger] r[j].0 by {
            if i < p {
                assert(r[i] == best[i]);
                if j < p {
                    assert(r[j] == best[j]);
                } else if j == p {
                    assert(!farther_than(best, c.0)(i));
                } else {
                    assert(r[j] == best[j - 1]);
                }
            } else if i == p {
                if j > p {
                    assert(r[j] == best[j - 1]);
                    if p < K - 1 {
                        assert(farther_than(best, c.0)(p));
                        assert(best[p].0 <= best[j - 1].0);
                    }
                }
            } else {
                assert(r[i] == best[i - 1]);
                assert(r[j] == best[j - 1]);
            }
        }
    }
}

pub proof fn lemma_offer_all_sorted(best: Seq<Candidate>, cands: Seq<Candidate>)
    requires
        best.len() == K,
        sorted_by_distance(best),
    ensures
        offer_all(best, cands).len() == K,
        sorted_by_distance(offer_all(best, cands)),
    decreases cands.len(),
{
    if cands.len() > 0 {
        lemma_offer_all_sorted(best, cands.drop_last());
        lemma_offer_sorted(offer_all(best, cands.drop_last()), cands.last());
    }
}

pub proof fn lemma_empty_best_sorted()
    ensures
        empty_best().len() == K,
        sorted_by_distance(empty_best()),
{
}

proof fn lemma_count_concat(a: Seq<Candidate>, b: Seq<Candidate>, t: int)
    ensures
        count_closer(a + b, t) == count_closer(a, t) + count_closer(b, t),
    decreases b.len(),
{
    if b.len() == 0 {
        assert(a + b =~= a);
    } else {
        assert((a + b).drop_last() =~= a + b.drop_last());
        lemma_count_concat(a, b.drop_last(), t);
    }
}

proof fn lemma_count_all_closer(s: Seq<Candidate>, t: int)
    requires
        forall|i: int| 0 <= i < s.len() ==> #[trigger] s[i].0 < t,
    ensures
        count_closer(s, t) == s.len(),
    decreases s.len(),
{
    if s.len() > 0 {
        lemma_count_all_closer(s.drop_last(), t);
    }
}

proof fn lemma_count_bounded(s: Seq<Candidate>, t: int)
    ensures
        count_closer(s, t) <= s.len(),
    decreases s.len(),
{
    if s.len() > 0 {
        lemma_count_bounded(s.drop_last(), t);
    }
}

/// The best list counts, below every threshold, as many entries as the candidates offered
/// so far, up to K.
pub open spec fn holds_nearest(best: Seq<Candidate>, cands: Seq<Candidate>) -> bool {
    forall|t: int|
        t <= i64::MAX ==> #[trigger] count_closer(best, t) == if count_closer(cands, t) < K {
            count_closer(cands, t)
        } else {
            K as nat
        }
}

proof fn lemma_offer_keeps_nearest(best: Seq<Candidate>, cands: Seq<Candidate>, c: Candidate)
    requires
        best.len() == K,
        sorted_by_distance(best),
        holds_nearest(best, cands),
    ensures
        holds_nearest(offer(best, c), cands.push(c)),
{
    let nb = offer(best, c);
    let nc = cands.push(c);
    assert(nc.drop_last() =~= cands);
    let head = best.subrange(0, K - 1);
    assert(best =~= head.push(best[K - 1]));
    assert(best.drop_last() =~= head);
    assert forall|t: int| t <= i64::MAX implies #[trigger] count_closer(nb, t) == if count_closer(
        nc,
        t,
    ) < K {
        count_closer(nc, t)
    } else {
        K as nat
    } by {
        assert(count_closer(best, t) == if count_closer(cands, t) < K {
            count_closer(cands, t)
        } else {
            K as nat
        });
        lemma_count_bounded(head, t);
        if c.0 >= best[K - 1].0 {
            if t > c.0 {
                assert forall|i: int| 0 <= i < best.len() implies #[trigger] best[i].0 < t by {
                    assert(best[i].0 <= best[K - 1].0);
                }
                lemma_count_all_closer(best, t);
            }
        } else {
            let p = insert_position(best, c.0);
            lemma_first_index(0, K - 1, farther_than(best, c.0));
            let left = best.subrange(0, p);
            let right = best.subrange(p, K - 1);
            assert(nb =~= left.push(c) + right);
            assert(head =~= left + right);
            lemma_count_concat(left.push(c), right, t);
            lemma_count_concat(left, right, t);
            assert(left.push(c).drop_last() =~= left);
            if best[K - 1].0 < t {
                assert forall|i: int| 0 <= i < head.len() implies #[trigger] head[i].0 < t by {
                    assert(best[i].0 <= best[K - 1].0);
                }
                lemma_count_all_closer(head, t);
            }
        }
    }
}

/// The list after offering a run of candidates holds the K nearest of them: below any
/// threshold it has as many entries as the run has candidates, up to K.
pub proof fn lemma_nearest_counts(cands: Seq<Candidate>)
    ensures
        nearest(cands).len() == K,
        sorted_by_distance(nearest(cands)),
        forall|t: int|
            t <= i64::MAX ==> #[trigger] count_closer(nearest(cands), t) == if count_closer(
                cands,
                t,
            ) < K {
                count_closer(cands, t)
            } else {
                K as nat
            },
    decreases cands.len(),
{
    if cands.len() == 0 {
        assert forall|t: int| t <= i64::MAX implies #[trigger] count_closer(empty_best(), t)
            == 0 by {
            lemma_count_none_closer(empty_best(), t);
        }
    } else {
        lemma_nearest_counts(cands.drop_last());
        lemma_offer_keeps_nearest(nearest(cands.drop_last()), cands.drop_last(), cands.last());
        lemma_offer_sorted(nearest(cands.drop_last()), cands.last());
        assert(cands.drop_last().push(cands.last()) =~= cands);
    }
}

proof fn lemma_count_none_closer(s: Seq<Candidate>, t: int)
    requires
        forall|i: int| 0 <= i < s.len() ==> #[trigger] s[i].0 >= t,
    ensures
        count_closer(s, t) == 0,
    decreases s.len(),
{
    if s.len() > 0 {
        lemma_count_none_closer(s.drop_last(), t);
    }
}

/// Offers one candidate to the list, keeping it sorted by distance.
pub fn insert_best(dist: i64, label: u8, best: &mut Vec<Candidate>)
    requires
        old(best)@.len() == K,
        sorted_by_distance(old(best)@),
    ensures
        final(best)@ == offer(old(best)@, (dist, label)),
        final(best)@.len() == K,
        sorted_by_distance(final(best)@),
{
    proof {
        lemma_offer_sorted(best@, (dist, label));
    }
    if dist >= best[K - 1].0 {
        return;
    }
    let ghost b0 = best@;
    let mut pos: usize = K - 1;
    while pos > 0 && dist < best[pos - 1].0
        invariant
            b0.len() == K,
            best@.len() == K,
            sorted_by_distance(b0),
            dist < b0[K - 1].0,
            pos <= K - 1,
            forall|j: int| 0 <= j < pos ==> best@[j] == b0[j],
            forall|j: int| pos < j < K ==> best@[j] == b0[j - 1],
            forall|j: int| pos <= j < K - 1 ==> #[trigger] b0[j].0 > dist,
        decreases pos,
    {
        let prev = best[pos - 1];
        best.set(pos, prev);
        pos -= 1;
    }
    best.set(pos, (dist, label));
    proof {
        assert forall|j: int| 0 <= j < pos implies !#[trigger] farther_than(b0, dist)(j) by {
            assert(b0[j].0 <= b0[pos - 1].0);
        }
        if pos < K - 1 {
            assert(farther_than(b0, dist)(pos as int));
            crate::scan::lemma_first_index_found(0, K - 1, pos as int, farther_than(b0, dist));
        } else {
            crate::scan::lemma_first_index_none(0, K - 1, farther_than(b0, dist));
        }
        assert(best@ =~= offer(b0, (dist, label)));
    }
}

/// Sum of the labels in the list, wrapped to a byte.
pub fn sum_labels(best: &Vec<Candidate>) -> (r: u8)
    ensures
        r == label_sum(best@),
{
    let mut total: u8 = 0;
    let mut i: usize = 0;
    while i < best.len()
        invariant
            i <= best@.len(),
            total == label_sum(best@.subrange(0, i as int)),
        decreases best@.len() - i,
    {
        proof {
            assert(best@.subrange(0, i + 1).drop_last() =~= best@.subrange(0, i as int));
        }
        total = total.wrapping_add(best[i].1);
        i += 1;
    }
    assert(best@.subrange(0, best@.len() as int) =~= best@);
    total
}

} // verus!
