//! When the pruned searches find exactly what the flat scan finds: the partition trees
//! hold every stored reference once, every box holds the references under it, and no
//! tree is deeper than the walk's stack.

use vstd::prelude::*;
use vstd::multiset::Multiset;
use crate::{DIMS, K};
use super::knn::{
    Candidate, count_closer, empty_best, label_sum, lemma_nearest_counts, nearest, offer, offer_all, sorted_by_distance,
};
use super::layout::{
    BLOCK_VALUES, IndexModel, LANES, Node, blocks_of, is_leaf, node_fits, well_formed,
};
use super::search::{
    block_candidates, box_distance, distance_prefix, exact_candidates, gap,
    lane_candidate, leaf_candidates, leaf_lanes, lemma_distance_bound, TREE_STACK_CAPACITY,
};

verus! {

broadcast use vstd::multiset::group_multiset_axioms;

/// Candidates strictly closer than `t`.
pub open spec fn closer(t: int) -> spec_fn(Candidate) -> bool {
    |c: Candidate| c.0 < t
}

/// Every candidate of `s` lies at distance `x` or more.
pub open spec fn at_least(s: Multiset<Candidate>, x: int) -> bool {
    forall|c: Candidate| #[trigger] s.count(c) > 0 ==> c.0 >= x
}

proof fn lemma_count_closer_multiset(s: Seq<Candidate>, t: int)
    ensures
        count_closer(s, t) == s.to_multiset().filter(closer(t)).len(),
    decreases s.len(),
{
    broadcast use vstd::seq_lib::group_to_multiset_ensures;

    if s.len() == 0 {
        assert(s.to_multiset().filter(closer(t)) =~= Multiset::empty());
    } else {
        let init = s.drop_last();
        let x = s.last();
        lemma_count_closer_multiset(init, t);
        assert(init.push(x) =~= s);
        let f = init.to_multiset().filter(closer(t));
        if x.0 < t {
            assert(s.to_multiset().filter(closer(t)) =~= f.insert(x));
        } else {
            assert(s.to_multiset().filter(closer(t)) =~= f);
        }
    }
}

proof fn lemma_filter_add_len(a: Multiset<Candidate>, b: Multiset<Candidate>, t: int)
    ensures
        a.add(b).filter(closer(t)).len() == a.filter(closer(t)).len() + b.filter(closer(t)).len(),
{
    assert(a.add(b).filter(closer(t)) =~= a.filter(closer(t)).add(b.filter(closer(t))));
}

proof fn lemma_filter_none(s: Multiset<Candidate>, t: int)
    requires
        at_least(s, t),
    ensures
        s.filter(closer(t)).len() == 0,
{
    assert(s.filter(closer(t)) =~= Multiset::empty());
}

proof fn lemma_count_split(s: Seq<Candidate>, j: int, t: int)
    requires
        0 <= j <= s.len(),
    ensures
        count_closer(s, t) == count_closer(s.subrange(0, j), t) + count_closer(
            s.subrange(j, s.len() as int),
            t,
        ),
{
    lemma_count_closer_multiset(s, t);
    lemma_count_closer_multiset(s.subrange(0, j), t);
    lemma_count_closer_multiset(s.subrange(j, s.len() as int), t);
    assert(s =~= s.subrange(0, j) + s.subrange(j, s.len() as int));
    vstd::seq_lib::lemma_multiset_commutative(s.subrange(0, j), s.subrange(j, s.len() as int));
    lemma_filter_add_len(
        s.subrange(0, j).to_multiset(),
        s.subrange(j, s.len() as int).to_multiset(),
        t,
    );
}

proof fn lemma_count_at_least(s: Seq<Candidate>, t: int)
    requires
        forall|i: int| 0 <= i < s.len() ==> #[trigger] s[i].0 < t,
    ensures
        count_closer(s, t) == s.len(),
    decreases s.len(),
{
    if s.len() > 0 {
        lemma_count_at_least(s.drop_last(), t);
    }
}

proof fn lemma_count_at_most(s: Seq<Candidate>, t: int)
    ensures
        count_closer(s, t) <= s.len(),
        (forall|i: int| 0 <= i < s.len() ==> #[trigger] s[i].0 >= t) ==> count_closer(s, t) == 0,
    decreases s.len(),
{
    if s.len() > 0 {
        lemma_count_at_most(s.drop_last(), t);
        if forall|i: int| 0 <= i < s.len() ==> #[trigger] s[i].0 >= t {
            assert forall|i: int| 0 <= i < s.drop_last().len() implies #[trigger] s.drop_last()[i].0
                >= t by {
                assert(s.drop_last()[i] == s[i]);
            }
        }
    }
}

/// Two sorted lists of K entries with the same count below every threshold have the same
/// distance at every place.
proof fn lemma_same_profile_same_distances(x: Seq<Candidate>, y: Seq<Candidate>)
    requires
        x.len() == K,
        y.len() == K,
        sorted_by_distance(x),
        sorted_by_distance(y),
        forall|t: int| t <= i64::MAX ==> #[trigger] count_closer(x, t) == count_closer(y, t),
    ensures
        forall|j: int| 0 <= j < K ==> #[trigger] x[j].0 == y[j].0,
{
    assert forall|j: int| 0 <= j < K implies #[trigger] x[j].0 == y[j].0 by {
        if x[j].0 < y[j].0 {
            lemma_profile_gap(x, y, j);
        } else if y[j].0 < x[j].0 {
            lemma_profile_gap(y, x, j);
        }
    }
}

proof fn lemma_profile_gap(x: Seq<Candidate>, y: Seq<Candidate>, j: int)
    requires
        x.len() == K,
        y.len() == K,
        sorted_by_distance(x),
        sorted_by_distance(y),
        0 <= j < K,
        x[j].0 < y[j].0,
    ensures
        count_closer(x, x[j].0 + 1) != count_closer(y, x[j].0 + 1),
{
    let t = x[j].0 + 1;
    lemma_count_split(x, j + 1, t);
    lemma_count_split(y, j, t);
    let xl = x.subrange(0, j + 1);
    assert forall|i: int| 0 <= i < xl.len() implies #[trigger] xl[i].0 < t by {
        assert(xl[i] == x[i]);
        assert(x[i].0 <= x[j].0);
    }
    lemma_count_at_least(xl, t);
    lemma_count_at_most(x.subrange(j + 1, K as int), t);
    let yl = y.subrange(0, j);
    let yr = y.subrange(j, K as int);
    assert forall|i: int| 0 <= i < yr.len() implies #[trigger] yr[i].0 >= t by {
        assert(yr[i] == y[j + i]);
        assert(y[j].0 <= y[j + i].0);
    }
    lemma_count_at_most(yl, t);
    lemma_count_at_most(yr, t);
}

/// What `offer_all` leaves in place of the K-th entry never grows.
pub proof fn lemma_offer_all_kth(best: Seq<Candidate>, cands: Seq<Candidate>)
    requires
        best.len() == K,
        sorted_by_distance(best),
    ensures
        offer_all(best, cands)[K - 1].0 <= best[K - 1].0,
    decreases cands.len(),
{
    if cands.len() > 0 {
        lemma_offer_all_kth(best, cands.drop_last());
        super::knn::lemma_offer_all_sorted(best, cands.drop_last());
        lemma_offer_kth(offer_all(best, cands.drop_last()), cands.last());
    }
}

proof fn lemma_offer_kth(best: Seq<Candidate>, c: Candidate)
    requires
        best.len() == K,
        sorted_by_distance(best),
    ensures
        offer(best, c)[K - 1].0 <= best[K - 1].0,
{
    super::knn::lemma_offer_sorted(best, c);
    let r = offer(best, c);
    if c.0 < best[K - 1].0 {
        let p = super::knn::insert_position(best, c.0);
        crate::scan::lemma_first_index(0, K - 1, super::knn::farther_than(best, c.0));
        if p == K - 1 {
            assert(r[K - 1] == c);
        } else {
            assert(r[K - 1] == best[K - 2]);
        }
    }
}

/// Every entry of the best list is a candidate that was offered, or still the empty
/// entry it started as.
pub open spec fn entry_from(best0: Seq<Candidate>, cands: Seq<Candidate>, e: Candidate) -> bool {
    best0.contains(e) || cands.contains(e)
}

pub proof fn lemma_offer_all_entries(best: Seq<Candidate>, cands: Seq<Candidate>)
    requires
        best.len() == K,
        sorted_by_distance(best),
    ensures
        forall|j: int|
            0 <= j < offer_all(best, cands).len() ==> entry_from(
                best,
                cands,
                #[trigger] offer_all(best, cands)[j],
            ),
    decreases cands.len(),
{
    if cands.len() > 0 {
        let init = cands.drop_last();
        let x = cands.last();
        lemma_offer_all_entries(best, init);
        super::knn::lemma_offer_all_sorted(best, init);
        let b = offer_all(best, init);
        let r = offer(b, x);
        assert forall|j: int| 0 <= j < r.len() implies entry_from(best, cands, #[trigger] r[j]) by {
            if x.0 >= b[K - 1].0 {
                assert(entry_from(best, init, b[j]));
            } else {
                let p = super::knn::insert_position(b, x.0);
                crate::scan::lemma_first_index(0, K - 1, super::knn::farther_than(b, x.0));
                if j < p {
                    assert(r[j] == b[j]);
                    assert(entry_from(best, init, b[j]));
                } else if j == p {
                    assert(r[j] == x);
                    assert(cands[cands.len() - 1] == x);
                } else {
                    assert(r[j] == b[j - 1]);
                    assert(entry_from(best, init, b[j - 1]));
                }
            }
            if init.contains(r[j]) {
                let k = choose|k: int| 0 <= k < init.len() && init[k] == r[j];
                assert(cands[k] == r[j]);
            }
        }
    }
}

/// Distances of a run of stored candidates agree only where the candidates do.
pub open spec fn ties_agree(all: Seq<Candidate>) -> bool {
    forall|i: int, j: int|
        0 <= i < all.len() && 0 <= j < all.len() && #[trigger] all[i].0 == #[trigger] all[j].0
            ==> all[i] == all[j]
}

/// No two references that the flat scan reads lie equally far from the query with
/// different labels.
pub open spec fn stored_ties_agree(m: IndexModel, q: Seq<i16>) -> bool {
    ties_agree(exact_candidates(m, q, m.nodes.len() as int))
}

/// If the stored candidates are those offered plus some lying no nearer than the K-th
/// entry found, the entries found lie at the distances of the K nearest stored.
pub proof fn lemma_accounting_profile(
    all: Seq<Candidate>,
    visited: Seq<Candidate>,
    pruned: Multiset<Candidate>,
)
    requires
        all.to_multiset() == visited.to_multiset().add(pruned),
        at_least(pruned, nearest(visited)[K - 1].0 as int),
    ensures
        forall|t: int|
            t <= i64::MAX ==> #[trigger] count_closer(nearest(visited), t) == count_closer(
                nearest(all),
                t,
            ),
{
    lemma_nearest_counts(visited);
    lemma_nearest_counts(all);
    let x = nearest(visited);
    let big_t = x[K - 1].0 as int;
    assert forall|t: int| t <= i64::MAX implies #[trigger] count_closer(nearest(visited), t)
        == count_closer(nearest(all), t) by {
        lemma_count_closer_multiset(all, t);
        lemma_count_closer_multiset(visited, t);
        lemma_filter_add_len(visited.to_multiset(), pruned, t);
        if t <= big_t {
            assert forall|c: Candidate| #[trigger] pruned.count(c) > 0 implies c.0 >= t by {}
            lemma_filter_none(pruned, t);
        } else {
            assert forall|i: int| 0 <= i < x.len() implies #[trigger] x[i].0 < t by {
                assert(x[i].0 <= x[K - 1].0);
            }
            lemma_count_at_least(x, t);
        }
    }
}

/// With that accounting, and no two stored candidates at one distance but different, the
/// K entries found are the K nearest of the flat scan.
pub proof fn lemma_accounting_exact(
    all: Seq<Candidate>,
    visited: Seq<Candidate>,
    pruned: Multiset<Candidate>,
)
    requires
        all.to_multiset() == visited.to_multiset().add(pruned),
        at_least(pruned, nearest(visited)[K - 1].0 as int),
        forall|i: int| 0 <= i < all.len() ==> #[trigger] all[i].0 < i64::MAX,
        ties_agree(all),
    ensures
        nearest(visited) == nearest(all),
{
    broadcast use vstd::seq_lib::group_to_multiset_ensures;

    lemma_accounting_profile(all, visited, pruned);
    lemma_nearest_counts(visited);
    lemma_nearest_counts(all);
    lemma_same_profile_same_distances(nearest(visited), nearest(all));
    super::knn::lemma_empty_best_sorted();
    lemma_offer_all_entries(super::knn::empty_best(), visited);
    lemma_offer_all_entries(super::knn::empty_best(), all);
    let x = nearest(visited);
    let y = nearest(all);
    assert forall|j: int| 0 <= j < K implies x[j] == y[j] by {
        assert(entry_from(super::knn::empty_best(), visited, x[j]));
        assert(entry_from(super::knn::empty_best(), all, y[j]));
        if visited.contains(x[j]) {
            assert(visited.to_multiset().count(x[j]) > 0);
            assert(all.to_multiset().count(x[j]) > 0);
        }
        if !all.contains(x[j]) {
            assert(x[j] == (i64::MAX, 0u8));
        }
        if !all.contains(y[j]) {
            assert(y[j] == (i64::MAX, 0u8));
        }
        if all.contains(x[j]) && all.contains(y[j]) {
            let a = choose|a: int| 0 <= a < all.len() && all[a] == x[j];
            let b = choose|b: int| 0 <= b < all.len() && all[b] == y[j];
            assert(all[a].0 == all[b].0);
        } else if all.contains(x[j]) {
            let a = choose|a: int| 0 <= a < all.len() && all[a] == x[j];
            assert(all[a].0 < i64::MAX);
        } else if all.contains(y[j]) {
            let b = choose|b: int| 0 <= b < all.len() && all[b] == y[j];
            assert(all[b].0 < i64::MAX);
        }
    }
    assert(x =~= y);
}

// ---------------------------------------------------------------------------
// References by position: position `g` is lane `g % LANES` of block `g / LANES`.

pub open spec fn position_candidate(m: IndexModel, q: Seq<i16>, g: int) -> Candidate {
    lane_candidate(m, q, g / LANES as int, g % LANES as int)
}

pub open spec fn candidates_at(m: IndexModel, q: Seq<i16>, gs: Seq<int>) -> Seq<Candidate> {
    gs.map_values(|g: int| position_candidate(m, q, g))
}

/// `len` consecutive positions from `start`.
pub open spec fn positions(start: int, len: int) -> Seq<int> {
    Seq::new(len as nat, |j: int| start + j)
}

proof fn lemma_lane_of(b: int, i: int)
    requires
        0 <= b,
        0 <= i < LANES,
    ensures
        (LANES * b + i) / LANES as int == b,
        (LANES * b + i) % LANES as int == i,
{
    assert((8 * b + i) / 8 == b && (8 * b + i) % 8 == i) by (nonlinear_arith)
        requires
            0 <= b,
            0 <= i < 8,
    ;
}

proof fn lemma_blocks_of_bounds(len: int, k: int)
    requires
        0 <= len,
        0 <= k < blocks_of(len),
    ensures
        LANES * k < len,
        len <= LANES * blocks_of(len),
{
    assert(8 * k < len && len <= 8 * ((len + 7) / 8)) by (nonlinear_arith)
        requires
            0 <= len,
            0 <= k < (len + 7) / 8,
    ;
}

proof fn lemma_leaf_positions(m: IndexModel, q: Seq<i16>, n: Node, nb: int)
    requires
        0 <= nb <= blocks_of(n.len as int),
    ensures
        leaf_candidates(m, q, n, nb) == candidates_at(
            m,
            q,
            positions(LANES * n.start, if n.len < LANES * nb {
                n.len as int
            } else {
                LANES * nb
            }),
        ),
    decreases nb,
{
    if nb > 0 {
        lemma_leaf_positions(m, q, n, nb - 1);
        lemma_blocks_of_bounds(n.len as int, nb - 1);
        let c0 = LANES * (nb - 1);
        let c1 = if n.len < LANES * nb {
            n.len as int
        } else {
            LANES * nb
        };
        let lanes = leaf_lanes(n, nb - 1);
        assert(c1 == c0 + lanes);
        let base = LANES * n.start;
        let prev = candidates_at(m, q, positions(base, c0));
        let blk = block_candidates(m, q, n.start + nb - 1, lanes);
        let whole = candidates_at(m, q, positions(base, c1));
        assert forall|k: int| 0 <= k < whole.len() implies #[trigger] whole[k] == (prev + blk)[k] by {
            if k >= c0 {
                lemma_lane_of(n.start + nb - 1, k - c0);
                assert(base + k == LANES * (n.start + nb - 1) + (k - c0));
            }
        }
        assert(whole =~= prev + blk);
    }
}

// ---------------------------------------------------------------------------
// Trees

/// Positions of the references under node `i`, leaves from left to right.
pub open spec fn node_positions(nodes: Seq<Node>, i: int) -> Seq<int>
    decreases nodes.len() - i,
{
    if !(0 <= i < nodes.len()) {
        Seq::empty()
    } else if is_leaf(nodes[i]) {
        positions(LANES * nodes[i].start, nodes[i].len as int)
    } else if i < nodes[i].left < nodes.len() && i < nodes[i].right < nodes.len() {
        node_positions(nodes, nodes[i].left as int) + node_positions(nodes, nodes[i].right as int)
    } else {
        Seq::empty()
    }
}

/// Levels below node `i`: a leaf has none.
pub open spec fn tree_height(nodes: Seq<Node>, i: int) -> nat
    decreases nodes.len() - i,
{
    if !(0 <= i < nodes.len()) || is_leaf(nodes[i]) {
        0
    } else if i < nodes[i].left < nodes.len() && i < nodes[i].right < nodes.len() {
        let l = tree_height(nodes, nodes[i].left as int);
        let r = tree_height(nodes, nodes[i].right as int);
        1 + if l < r {
            r
        } else {
            l
        }
    } else {
        0
    }
}

/// Candidates of the references under node `i`.
pub open spec fn node_ms(m: IndexModel, q: Seq<i16>, i: int) -> Multiset<Candidate> {
    candidates_at(m, q, node_positions(m.nodes, i)).to_multiset()
}

proof fn lemma_map_concat(m: IndexModel, q: Seq<i16>, a: Seq<int>, b: Seq<int>)
    ensures
        candidates_at(m, q, a + b) == candidates_at(m, q, a) + candidates_at(m, q, b),
        candidates_at(m, q, a + b).to_multiset() == candidates_at(m, q, a).to_multiset().add(
            candidates_at(m, q, b).to_multiset(),
        ),
{
    assert(candidates_at(m, q, a + b) =~= candidates_at(m, q, a) + candidates_at(m, q, b));
    vstd::seq_lib::lemma_multiset_commutative(candidates_at(m, q, a), candidates_at(m, q, b));
}

pub proof fn lemma_node_split(m: IndexModel, q: Seq<i16>, i: int)
    requires
        well_formed(m),
        0 <= i < m.nodes.len(),
        !is_leaf(m.nodes[i]),
    ensures
        node_ms(m, q, i) == node_ms(m, q, m.nodes[i].left as int).add(
            node_ms(m, q, m.nodes[i].right as int),
        ),
        tree_height(m.nodes, m.nodes[i].left as int) < tree_height(m.nodes, i),
        tree_height(m.nodes, m.nodes[i].right as int) < tree_height(m.nodes, i),
{
    assert(node_fits(m.nodes, i, m.blocks as int));
    lemma_map_concat(
        m,
        q,
        node_positions(m.nodes, m.nodes[i].left as int),
        node_positions(m.nodes, m.nodes[i].right as int),
    );
}

/// The candidates a leaf scan offers are those of the leaf's positions.
pub proof fn lemma_leaf_sequence(m: IndexModel, q: Seq<i16>, i: int)
    requires
        0 <= i < m.nodes.len(),
        is_leaf(m.nodes[i]),
    ensures
        leaf_candidates(m, q, m.nodes[i], blocks_of(m.nodes[i].len as int)) == candidates_at(
            m,
            q,
            node_positions(m.nodes, i),
        ),
{
    let n = m.nodes[i];
    let nb = blocks_of(n.len as int);
    lemma_leaf_positions(m, q, n, nb);
    if n.len > 0 {
        lemma_blocks_of_bounds(n.len as int, 0);
    }
    assert(nb >= 0);
    if n.len as int > 0 {
        assert(n.len <= LANES * nb);
    } else {
        assert(nb == 0);
    }
}

pub proof fn lemma_node_leaf(m: IndexModel, q: Seq<i16>, i: int)
    requires
        0 <= i < m.nodes.len(),
        is_leaf(m.nodes[i]),
    ensures
        node_ms(m, q, i) == leaf_candidates(
            m,
            q,
            m.nodes[i],
            blocks_of(m.nodes[i].len as int),
        ).to_multiset(),
{
    lemma_leaf_sequence(m, q, i);
}

/// Positions of the references held by the leaves among the first `n` nodes, in node
/// order.
pub open spec fn leaf_positions(nodes: Seq<Node>, n: int) -> Seq<int>
    decreases n,
{
    if n <= 0 {
        Seq::empty()
    } else {
        leaf_positions(nodes, n - 1) + if is_leaf(nodes[n - 1]) {
            node_positions(nodes, n - 1)
        } else {
            Seq::empty()
        }
    }
}

proof fn lemma_exact_is_leaves(m: IndexModel, q: Seq<i16>, n: int)
    requires
        0 <= n <= m.nodes.len(),
    ensures
        exact_candidates(m, q, n) == candidates_at(m, q, leaf_positions(m.nodes, n)),
    decreases n,
{
    if n == 0 {
        assert(candidates_at(m, q, leaf_positions(m.nodes, n)) =~= Seq::empty());
    } else {
        lemma_exact_is_leaves(m, q, n - 1);
        if is_leaf(m.nodes[n - 1]) {
            lemma_leaf_sequence(m, q, n - 1);
            lemma_map_concat(m, q, leaf_positions(m.nodes, n - 1), node_positions(m.nodes, n - 1));
        } else {
            assert(leaf_positions(m.nodes, n) =~= leaf_positions(m.nodes, n - 1));
            assert(exact_candidates(m, q, n) =~= exact_candidates(m, q, n - 1));
        }
    }
}

proof fn lemma_leaf_positions_in_blocks(m: IndexModel, n: int)
    requires
        well_formed(m),
        0 <= n <= m.nodes.len(),
    ensures
        forall|k: int|
            0 <= k < leaf_positions(m.nodes, n).len() ==> 0 <= #[trigger] leaf_positions(m.nodes, n)[k]
                < LANES * m.blocks,
    decreases n,
{
    if n > 0 {
        lemma_leaf_positions_in_blocks(m, n - 1);
        lemma_node_positions_in_blocks(m, n - 1);
        let a = leaf_positions(m.nodes, n - 1);
        let b = if is_leaf(m.nodes[n - 1]) {
            node_positions(m.nodes, n - 1)
        } else {
            Seq::empty()
        };
        assert(leaf_positions(m.nodes, n) == a + b);
        assert forall|k: int| 0 <= k < (a + b).len() implies 0 <= #[trigger] (a + b)[k] < LANES
            * m.blocks by {
            if k < a.len() {
                assert((a + b)[k] == a[k]);
            } else {
                assert((a + b)[k] == b[k - a.len()]);
            }
        }
    }
}

/// Every position under a node of a well-formed index lies within the blocks.
proof fn lemma_node_positions_in_blocks(m: IndexModel, i: int)
    requires
        well_formed(m),
    ensures
        forall|k: int|
            0 <= k < node_positions(m.nodes, i).len() ==> 0 <= #[trigger] node_positions(m.nodes, i)[k]
                < LANES * m.blocks,
    decreases m.nodes.len() - i,
{
    if 0 <= i < m.nodes.len() {
        let n = m.nodes[i];
        assert(node_fits(m.nodes, i, m.blocks as int));
        if is_leaf(n) {
            if n.len > 0 {
                lemma_blocks_of_bounds(n.len as int, 0);
            }
            assert(LANES * n.start + n.len <= LANES * m.blocks) by (nonlinear_arith)
                requires
                    n.start + blocks_of(n.len as int) <= m.blocks,
                    n.len <= LANES * blocks_of(n.len as int),
                    0 <= n.len,
            ;
        } else {
            lemma_node_positions_in_blocks(m, n.left as int);
            lemma_node_positions_in_blocks(m, n.right as int);
            let a = node_positions(m.nodes, n.left as int);
            let b = node_positions(m.nodes, n.right as int);
            assert forall|k: int| 0 <= k < (a + b).len() implies 0 <= #[trigger] (a + b)[k] < LANES
                * m.blocks by {
                if k < a.len() {
                    assert((a + b)[k] == a[k]);
                } else {
                    assert((a + b)[k] == b[k - a.len()]);
                }
            }
        }
    }
}

// ---------------------------------------------------------------------------
// Boxes

/// Dimension `d` of the reference at position `g`.
pub open spec fn stored_value(m: IndexModel, g: int, d: int) -> i16 {
    m.vectors[(g / LANES as int) * BLOCK_VALUES + g % LANES as int + d * LANES]
}

/// The reference at position `g` lies within `[lo, hi]` in every dimension.
pub open spec fn in_box(m: IndexModel, g: int, lo: Seq<i16>, hi: Seq<i16>) -> bool {
    forall|d: int| 0 <= d < DIMS ==> lo[d] <= #[trigger] stored_value(m, g, d) <= hi[d]
}

/// Every reference at the positions `gs` lies within `[lo, hi]`.
pub open spec fn box_holds(m: IndexModel, gs: Seq<int>, lo: Seq<i16>, hi: Seq<i16>) -> bool {
    forall|k: int| 0 <= k < gs.len() ==> in_box(m, #[trigger] gs[k], lo, hi)
}

proof fn lemma_box_below_distance(
    q: Seq<i16>,
    lo: Seq<i16>,
    hi: Seq<i16>,
    v: Seq<i16>,
    base: int,
    n: nat,
)
    requires
        forall|d: int| 0 <= d < n ==> lo[d] <= #[trigger] v[base + d * LANES] <= hi[d],
    ensures
        box_distance(q, lo, hi, n) <= distance_prefix(q, v, base, n),
    decreases n,
{
    if n > 0 {
        lemma_box_below_distance(q, lo, hi, v, base, (n - 1) as nat);
        let d = n - 1;
        let x = q[d] as int;
        let a = lo[d] as int;
        let b = hi[d] as int;
        let y = v[base + d * LANES] as int;
        let g = gap(x, a, b);
        assert(g * g <= (x - y) * (x - y)) by (nonlinear_arith)
            requires
                a <= y <= b,
                g == (if x < a {
                    a - x
                } else if x > b {
                    x - b
                } else {
                    0
                }),
        ;
    }
}

/// The distance to a box bounds the distance to every reference inside it.
pub proof fn lemma_box_bounds(m: IndexModel, q: Seq<i16>, gs: Seq<int>, lo: Seq<i16>, hi: Seq<i16>)
    requires
        well_formed(m),
        q.len() >= DIMS,
        box_holds(m, gs, lo, hi),
        forall|k: int| 0 <= k < gs.len() ==> 0 <= #[trigger] gs[k] < LANES * m.blocks,
    ensures
        at_least(candidates_at(m, q, gs).to_multiset(), box_distance(q, lo, hi, DIMS as nat)),
        forall|k: int|
            0 <= k < gs.len() ==> #[trigger] candidates_at(m, q, gs)[k].0 < i64::MAX,
{
    broadcast use vstd::seq_lib::group_to_multiset_ensures;

    let cs = candidates_at(m, q, gs);
    assert forall|k: int| 0 <= k < gs.len() implies box_distance(q, lo, hi, DIMS as nat)
        <= #[trigger] cs[k].0 && cs[k].0 < i64::MAX by {
        let g = gs[k];
        let blk = g / LANES as int;
        let lane = g % LANES as int;
        assert(0 <= blk < m.blocks && 0 <= lane < LANES && LANES * blk + lane == g) by (
        nonlinear_arith)
            requires
                0 <= g < LANES * m.blocks,
                blk == g / LANES as int,
                lane == g % LANES as int,
        ;
        let base = blk * BLOCK_VALUES + lane;
        assert(in_box(m, g, lo, hi));
        assert forall|d: int| 0 <= d < DIMS implies lo[d] <= #[trigger] m.vectors[base + d * LANES]
            <= hi[d] by {
            assert(stored_value(m, g, d) == m.vectors[base + d * LANES]);
        }
        assert forall|d: int| 0 <= d < DIMS implies 0 <= #[trigger] (base + d * LANES)
            < m.vectors.len() by {
            assert(base + d * LANES < BLOCK_VALUES * m.blocks) by (nonlinear_arith)
                requires
                    base == blk * BLOCK_VALUES + lane,
                    0 <= lane < LANES,
                    0 <= d < DIMS,
                    blk < m.blocks,
            ;
        }
        lemma_box_below_distance(q, lo, hi, m.vectors, base, DIMS as nat);
        lemma_distance_bound(q, m.vectors, base, DIMS as nat);
        assert(cs[k] == lane_candidate(m, q, blk, lane));
    }
    assert forall|c: Candidate| #[trigger] cs.to_multiset().count(c) > 0 implies c.0
        >= box_distance(q, lo, hi, DIMS as nat) by {
        assert(cs.contains(c));
        let k = choose|k: int| 0 <= k < cs.len() && cs[k] == c;
    }
}

// ---------------------------------------------------------------------------
// Partitions

/// Positions under the roots of the first `n` partitions, partition after partition.
pub open spec fn partition_positions(m: IndexModel, n: int) -> Seq<int>
    decreases n,
{
    if n <= 0 {
        Seq::empty()
    } else {
        partition_positions(m, n - 1) + node_positions(m.nodes, m.partitions[n - 1].root as int)
    }
}

/// Candidates under the root of partition `p`.
pub open spec fn partition_ms(m: IndexModel, q: Seq<i16>, p: int) -> Multiset<Candidate> {
    node_ms(m, q, m.partitions[p].root as int)
}

/// Candidates under the roots of the first `n` partitions.
pub open spec fn parts_ms(m: IndexModel, q: Seq<i16>, n: int) -> Multiset<Candidate>
    decreases n,
{
    if n <= 0 {
        Multiset::empty()
    } else {
        parts_ms(m, q, n - 1).add(partition_ms(m, q, n - 1))
    }
}

/// Every node's box holds the references under it.
pub open spec fn boxes_sound(m: IndexModel) -> bool {
    forall|i: int|
        0 <= i < m.nodes.len() ==> box_holds(
            m,
            #[trigger] node_positions(m.nodes, i),
            m.nodes[i].min@,
            m.nodes[i].max@,
        )
}

/// The partition trees together hold the references of every leaf, each exactly once;
/// every node's box and every partition's box holds the references under it; and no
/// partition tree is deeper than the walk's stack.
pub open spec fn search_sound(m: IndexModel) -> bool {
    &&& partition_positions(m, m.partitions.len() as int).to_multiset() == leaf_positions(
        m.nodes,
        m.nodes.len() as int,
    ).to_multiset()
    &&& boxes_sound(m)
    &&& forall|p: int|
        0 <= p < m.partitions.len() ==> box_holds(
            m,
            node_positions(m.nodes, #[trigger] m.partitions[p].root as int),
            m.partitions[p].min@,
            m.partitions[p].max@,
        )
    &&& forall|p: int|
        0 <= p < m.partitions.len() ==> tree_height(m.nodes, #[trigger] m.partitions[p].root as int)
            <= TREE_STACK_CAPACITY
}

proof fn lemma_parts(m: IndexModel, q: Seq<i16>, n: int)
    requires
        0 <= n,
    ensures
        candidates_at(m, q, partition_positions(m, n)).to_multiset() == parts_ms(m, q, n),
    decreases n,
{
    if n == 0 {
        assert(candidates_at(m, q, partition_positions(m, n)) =~= Seq::empty());
        assert(Seq::<Candidate>::empty().to_multiset() =~= Multiset::empty()) by {
            broadcast use vstd::seq_lib::group_to_multiset_ensures;

        }
    } else {
        lemma_parts(m, q, n - 1);
        lemma_map_concat(
            m,
            q,
            partition_positions(m, n - 1),
            node_positions(m.nodes, m.partitions[n - 1].root as int),
        );
    }
}

proof fn lemma_map_permutation(m: IndexModel, q: Seq<i16>, a: Seq<int>, b: Seq<int>)
    requires
        a.to_multiset() == b.to_multiset(),
    ensures
        candidates_at(m, q, a).to_multiset() == candidates_at(m, q, b).to_multiset(),
    decreases a.len(),
{
    broadcast use vstd::seq_lib::group_to_multiset_ensures;

    if a.len() == 0 {
        vstd::seq_lib::to_multiset_len(a);
        vstd::seq_lib::to_multiset_len(b);
        assert(b.len() == 0);
        assert(candidates_at(m, q, a) =~= candidates_at(m, q, b));
    } else {
        let x = a.last();
        let init = a.drop_last();
        assert(init.push(x) =~= a);
        assert(a.to_multiset().count(x) > 0);
        assert(b.contains(x));
        let i = choose|i: int| 0 <= i < b.len() && b[i] == x;
        let rest = b.remove(i);
        assert(init.to_multiset() =~= rest.to_multiset());
        lemma_map_permutation(m, q, init, rest);
        let fa = candidates_at(m, q, a);
        let fb = candidates_at(m, q, b);
        let y = position_candidate(m, q, x);
        assert(candidates_at(m, q, init).push(y) =~= fa);
        assert(candidates_at(m, q, rest) =~= fb.remove(i));
        assert(fb[i] == y);
        assert(fb.to_multiset().count(y) > 0);
        assert(fb.to_multiset() =~= fb.remove(i).to_multiset().insert(y));
    }
}

/// Where each stored position's candidate is the distance and label of that reference.
pub proof fn lemma_position_candidate(m: IndexModel, q: Seq<i16>, g: int)
    requires
        well_formed(m),
        q.len() >= DIMS,
        0 <= g < LANES * m.blocks,
    ensures
        position_candidate(m, q, g).0 == distance_prefix(
            q,
            m.vectors,
            (g / LANES as int) * BLOCK_VALUES + g % LANES as int,
            DIMS as nat,
        ),
        0 <= position_candidate(m, q, g).0 < i64::MAX,
{
    let blk = g / LANES as int;
    let lane = g % LANES as int;
    assert(0 <= blk < m.blocks && 0 <= lane < LANES) by (nonlinear_arith)
        requires
            0 <= g < LANES * m.blocks,
            blk == g / LANES as int,
            lane == g % LANES as int,
    ;
    let base = blk * BLOCK_VALUES + lane;
    assert forall|d: int| 0 <= d < DIMS implies 0 <= #[trigger] (base + d * LANES)
        < m.vectors.len() by {
        assert(base + d * LANES < BLOCK_VALUES * m.blocks) by (nonlinear_arith)
            requires
                base == blk * BLOCK_VALUES + lane,
                0 <= lane < LANES,
                0 <= d < DIMS,
                blk < m.blocks,
        ;
    }
    lemma_distance_bound(q, m.vectors, base, DIMS as nat);
}

/// In a sound index the brute-force scan reads, up to order, the candidates of the
/// partition trees, none of them at the largest distance.
pub proof fn lemma_stored_is_partitions(m: IndexModel, q: Seq<i16>)
    requires
        well_formed(m),
        q.len() >= DIMS,
        search_sound(m),
    ensures
        exact_candidates(m, q, m.nodes.len() as int).to_multiset() == parts_ms(
            m,
            q,
            m.partitions.len() as int,
        ),
        forall|k: int|
            0 <= k < exact_candidates(m, q, m.nodes.len() as int).len() ==> #[trigger] exact_candidates(
                m,
                q,
                m.nodes.len() as int,
            )[k].0 < i64::MAX,
{
    let n = m.nodes.len() as int;
    lemma_exact_is_leaves(m, q, n);
    let all = leaf_positions(m.nodes, n);
    lemma_map_permutation(m, q, all, partition_positions(m, m.partitions.len() as int));
    lemma_parts(m, q, m.partitions.len() as int);
    lemma_leaf_positions_in_blocks(m, n);
    assert forall|k: int| 0 <= k < exact_candidates(m, q, n).len() implies #[trigger] exact_candidates(
        m,
        q,
        n,
    )[k].0 < i64::MAX by {
        lemma_position_candidate(m, q, all[k]);
    }
}

// ---------------------------------------------------------------------------
// Ranked partitions

/// Candidates under the partitions that ranked entries point to.
pub open spec fn entries_ms(m: IndexModel, q: Seq<i16>, e: Seq<(i64, usize)>) -> Multiset<Candidate>
    decreases e.len(),
{
    if e.len() == 0 {
        Multiset::empty()
    } else {
        entries_ms(m, q, e.drop_last()).add(partition_ms(m, q, e.last().1 as int))
    }
}

proof fn lemma_entries_remove(m: IndexModel, q: Seq<i16>, e: Seq<(i64, usize)>, i: int)
    requires
        0 <= i < e.len(),
    ensures
        entries_ms(m, q, e) == entries_ms(m, q, e.remove(i)).add(partition_ms(m, q, e[i].1 as int)),
    decreases e.len(),
{
    if i < e.len() - 1 {
        lemma_entries_remove(m, q, e.drop_last(), i);
        assert(e.remove(i).drop_last() =~= e.drop_last().remove(i));
        assert(e.remove(i).last() == e.last());
        assert(entries_ms(m, q, e) =~= entries_ms(m, q, e.remove(i)).add(
            partition_ms(m, q, e[i].1 as int),
        ));
    } else {
        assert(e.remove(i) =~= e.drop_last());
    }
}

pub proof fn lemma_entries_permutation(
    m: IndexModel,
    q: Seq<i16>,
    a: Seq<(i64, usize)>,
    b: Seq<(i64, usize)>,
)
    requires
        a.to_multiset() == b.to_multiset(),
    ensures
        entries_ms(m, q, a) == entries_ms(m, q, b),
    decreases a.len(),
{
    broadcast use vstd::seq_lib::group_to_multiset_ensures;

    if a.len() == 0 {
        vstd::seq_lib::to_multiset_len(a);
        vstd::seq_lib::to_multiset_len(b);
        assert(b.len() == 0);
    } else {
        let x = a.last();
        let init = a.drop_last();
        assert(init.push(x) =~= a);
        assert(a.to_multiset().count(x) > 0);
        assert(b.contains(x));
        let i = choose|i: int| 0 <= i < b.len() && b[i] == x;
        assert(init.to_multiset() =~= b.remove(i).to_multiset());
        lemma_entries_permutation(m, q, init, b.remove(i));
        lemma_entries_remove(m, q, b, i);
    }
}

pub proof fn lemma_entries_first(m: IndexModel, q: Seq<i16>, e: Seq<(i64, usize)>)
    requires
        e.len() > 0,
    ensures
        entries_ms(m, q, e) == entries_ms(m, q, e.subrange(1, e.len() as int)).add(
            partition_ms(m, q, e[0].1 as int),
        ),
{
    lemma_entries_remove(m, q, e, 0);
    assert(e.remove(0) =~= e.subrange(1, e.len() as int));
}

pub proof fn lemma_entries_push(m: IndexModel, q: Seq<i16>, e: Seq<(i64, usize)>, x: (i64, usize))
    ensures
        entries_ms(m, q, e.push(x)) == entries_ms(m, q, e).add(partition_ms(m, q, x.1 as int)),
{
    assert(e.push(x).drop_last() =~= e);
}

/// Entries whose bounds hold for their partitions, none below `x`, point only to
/// candidates at distance `x` or more.
pub proof fn lemma_entries_at_least(m: IndexModel, q: Seq<i16>, e: Seq<(i64, usize)>, x: int)
    requires
        forall|k: int|
            0 <= k < e.len() ==> at_least(partition_ms(m, q, (#[trigger] e[k]).1 as int), e[k].0 as int)
                && e[k].0 >= x,
    ensures
        at_least(entries_ms(m, q, e), x),
    decreases e.len(),
{
    if e.len() > 0 {
        let init = e.drop_last();
        assert forall|k: int| 0 <= k < init.len() implies at_least(
            partition_ms(m, q, (#[trigger] init[k]).1 as int),
            init[k].0 as int,
        ) && init[k].0 >= x by {
            assert(init[k] == e[k]);
        }
        lemma_entries_at_least(m, q, init, x);
        assert(e[e.len() - 1] == e.last());
    }
}

// ---------------------------------------------------------------------------
// Tree walks

/// Candidates under the nodes waiting on a walk's stack.
pub open spec fn stack_ms(m: IndexModel, q: Seq<i16>, s: Seq<(usize, i64)>) -> Multiset<Candidate>
    decreases s.len(),
{
    if s.len() == 0 {
        Multiset::empty()
    } else {
        stack_ms(m, q, s.drop_last()).add(node_ms(m, q, s.last().0 as int))
    }
}

pub proof fn lemma_stack_push(m: IndexModel, q: Seq<i16>, s: Seq<(usize, i64)>, x: (usize, i64))
    ensures
        stack_ms(m, q, s.push(x)) == stack_ms(m, q, s).add(node_ms(m, q, x.0 as int)),
{
    assert(s.push(x).drop_last() =~= s);
}

pub proof fn lemma_at_least_add(a: Multiset<Candidate>, b: Multiset<Candidate>, x: int)
    requires
        at_least(a, x),
        at_least(b, x),
    ensures
        at_least(a.add(b), x),
{
}

pub proof fn lemma_at_least_lower(a: Multiset<Candidate>, x: int, y: int)
    requires
        at_least(a, x),
        y <= x,
    ensures
        at_least(a, y),
{
}

/// The box of node `i` bounds the candidates under it.
pub proof fn lemma_node_box(m: IndexModel, q: Seq<i16>, i: int)
    requires
        well_formed(m),
        boxes_sound(m),
        q.len() >= DIMS,
        0 <= i < m.nodes.len(),
    ensures
        at_least(
            node_ms(m, q, i),
            box_distance(q, m.nodes[i].min@, m.nodes[i].max@, DIMS as nat),
        ),
{
    assert(box_holds(m, node_positions(m.nodes, i), m.nodes[i].min@, m.nodes[i].max@));
    lemma_node_positions_in_blocks(m, i);
    lemma_box_bounds(m, q, node_positions(m.nodes, i), m.nodes[i].min@, m.nodes[i].max@);
}

/// The box of partition `p` bounds the candidates under its root.
pub proof fn lemma_partition_box(m: IndexModel, q: Seq<i16>, p: int)
    requires
        well_formed(m),
        search_sound(m),
        q.len() >= DIMS,
        0 <= p < m.partitions.len(),
    ensures
        at_least(
            partition_ms(m, q, p),
            box_distance(q, m.partitions[p].min@, m.partitions[p].max@, DIMS as nat),
        ),
        tree_height(m.nodes, m.partitions[p].root as int) <= TREE_STACK_CAPACITY,
{
    let root = m.partitions[p].root as int;
    assert(box_holds(m, node_positions(m.nodes, root), m.partitions[p].min@, m.partitions[p].max@));
    lemma_node_positions_in_blocks(m, root);
    lemma_box_bounds(m, q, node_positions(m.nodes, root), m.partitions[p].min@, m.partitions[p].max@);
}

// ---------------------------------------------------------------------------
// Ties at the K-th distance.

/// No more than K candidates lie at or within the K-th nearest distance: the K-th and the
/// next nearest candidate lie at different distances.
pub open spec fn kth_unshared(all: Seq<Candidate>) -> bool {
    count_closer(all, nearest(all)[K - 1].0 + 1) <= K
}

/// Of the references that the flat scan reads, no more than K lie at or within the K-th
/// nearest distance from the query.
pub open spec fn stored_kth_unshared(m: IndexModel, q: Seq<i16>) -> bool {
    kth_unshared(exact_candidates(m, q, m.nodes.len() as int))
}

/// The sum of the labels of a list, as an integer.
pub open spec fn label_total(s: Seq<Candidate>) -> int
    decreases s.len(),
{
    if s.len() == 0 {
        0
    } else {
        label_total(s.drop_last()) + s.last().1
    }
}

proof fn lemma_label_sum_total(s: Seq<Candidate>)
    ensures
        label_sum(s) as int == label_total(s) % 256,
    decreases s.len(),
{
    if s.len() > 0 {
        lemma_label_sum_total(s.drop_last());
        vstd::arithmetic::div_mod::lemma_add_mod_noop(label_total(s.drop_last()), s.last().1 as int, 256);
        vstd::arithmetic::div_mod::lemma_small_mod(s.last().1 as nat, 256);
        vstd::arithmetic::div_mod::lemma_small_mod(label_sum(s.drop_last()) as nat, 256);
    }
}

proof fn lemma_label_total_remove(t: Seq<Candidate>, i: int)
    requires
        0 <= i < t.len(),
    ensures
        label_total(t) == label_total(t.remove(i)) + t[i].1,
    decreases t.len(),
{
    if i == t.len() - 1 {
        assert(t.remove(i) =~= t.drop_last());
    } else {
        let u = t.drop_last();
        assert(u.remove(i) =~= t.remove(i).drop_last());
        assert(t.remove(i).last() == t.last());
        lemma_label_total_remove(u, i);
    }
}

/// Lists holding the same candidates have the same label sum, whatever their order.
proof fn lemma_label_total_perm(s: Seq<Candidate>, t: Seq<Candidate>)
    requires
        s.to_multiset() == t.to_multiset(),
    ensures
        label_total(s) == label_total(t),
    decreases s.len(),
{
    broadcast use vstd::seq_lib::group_to_multiset_ensures;

    if s.len() == 0 {
        assert(s.to_multiset().len() == 0);
        assert(t.to_multiset().len() == t.len());
    } else {
        let init = s.drop_last();
        let x = s.last();
        assert(init.push(x) =~= s);
        assert(s.contains(x));
        assert(t.to_multiset().count(x) > 0);
        let i = choose|i: int| 0 <= i < t.len() && t[i] == x;
        assert(init.to_multiset() =~= t.remove(i).to_multiset());
        lemma_label_total_perm(init, t.remove(i));
        lemma_label_total_remove(t, i);
    }
}

/// A multiset holding nothing but `e` is as large as its count of `e`.
proof fn lemma_single_support(w: Multiset<Candidate>, e: Candidate)
    requires
        forall|c: Candidate| #[trigger] w.count(c) > 0 ==> c == e,
    ensures
        w.len() == w.count(e),
    decreases w.len(),
{
    if w.count(e) == 0 {
        assert(w =~= Multiset::empty());
    } else {
        let w2 = w.remove(e);
        assert(Multiset::singleton(e).subset_of(w));
        assert forall|c: Candidate| #[trigger] w2.count(c) > 0 implies c == e by {}
        lemma_single_support(w2, e);
    }
}

proof fn lemma_offer_sub(best: Seq<Candidate>, c: Candidate)
    requires
        best.len() == K,
        sorted_by_distance(best),
    ensures
        offer(best, c).to_multiset().subset_of(best.to_multiset().insert(c)),
{
    broadcast use vstd::seq_lib::group_to_multiset_ensures;

    let r = offer(best, c);
    if c.0 < best[K - 1].0 {
        let p = super::knn::insert_position(best, c.0);
        crate::scan::lemma_first_index(0, K - 1, super::knn::farther_than(best, c.0));
        let s = best.drop_last();
        assert(r.remove(p) =~= s);
        assert(r[p] == c);
        assert(s.push(best[K - 1]) =~= best);
        assert(r.to_multiset() =~= s.to_multiset().insert(c));
    }
    assert forall|v: Candidate| #[trigger] r.to_multiset().count(v) <= best.to_multiset().insert(
        c,
    ).count(v) by {}
}

/// The list after offering holds, with multiplicity, only what it started with and what
/// was offered.
proof fn lemma_offer_all_sub(best: Seq<Candidate>, cands: Seq<Candidate>)
    requires
        best.len() == K,
        sorted_by_distance(best),
    ensures
        offer_all(best, cands).to_multiset().subset_of(best.to_multiset().add(cands.to_multiset())),
    decreases cands.len(),
{
    broadcast use vstd::seq_lib::group_to_multiset_ensures;

    if cands.len() == 0 {
        assert forall|v: Candidate| #[trigger] best.to_multiset().count(v)
            <= best.to_multiset().add(cands.to_multiset()).count(v) by {}
    } else {
        let init = cands.drop_last();
        let x = cands.last();
        lemma_offer_all_sub(best, init);
        super::knn::lemma_offer_all_sorted(best, init);
        let b = offer_all(best, init);
        lemma_offer_sub(b, x);
        assert(init.push(x) =~= cands);
        let r = offer(b, x);
        assert forall|v: Candidate| #[trigger] r.to_multiset().count(v) <= best.to_multiset().add(
            cands.to_multiset(),
        ).count(v) by {
            assert(r.to_multiset().count(v) <= b.to_multiset().insert(x).count(v));
            assert(b.to_multiset().count(v) <= best.to_multiset().add(init.to_multiset()).count(v));
        }
    }
}

/// A sorted list of K entries, drawn from the empty entries and from `src`, whose real
/// entries are as many as the candidates of `all` at or within its last distance `d`,
/// holds exactly those candidates, and empty entries for the rest.
proof fn lemma_near_shape(z: Seq<Candidate>, src: Seq<Candidate>, all: Seq<Candidate>, d: int)
    requires
        z.len() == K,
        sorted_by_distance(z),
        z[K - 1].0 == d,
        z.to_multiset().subset_of(empty_best().to_multiset().add(src.to_multiset())),
        src.to_multiset().subset_of(all.to_multiset()),
        forall|i: int| 0 <= i < all.len() ==> #[trigger] all[i].0 < i64::MAX,
        count_closer(z, i64::MAX as int) == count_closer(all, d + 1),
    ensures
        forall|c: Candidate|
            c.0 < i64::MAX ==> #[trigger] z.to_multiset().count(c) == all.to_multiset().filter(
                closer(d + 1),
            ).count(c),
        forall|c: Candidate|
            c.0 == i64::MAX && c != (i64::MAX, 0u8) ==> #[trigger] z.to_multiset().count(c) == 0,
        z.to_multiset().count((i64::MAX, 0u8)) == K - count_closer(all, d + 1),
{
    broadcast use vstd::seq_lib::group_to_multiset_ensures;

    let e: Candidate = (i64::MAX, 0u8);
    let mx = i64::MAX as int;
    let zm = z.to_multiset();
    let em = empty_best().to_multiset();
    let am = all.to_multiset();
    assert forall|c: Candidate| #[trigger] em.count(c) > 0 implies c == e by {
        assert(empty_best().contains(c));
    }
    assert forall|c: Candidate| #[trigger] am.count(c) > 0 implies c.0 < i64::MAX by {
        assert(all.contains(c));
    }
    assert forall|c: Candidate| #[trigger] zm.count(c) > 0 implies c.0 <= d by {
        assert(z.contains(c));
        let j = choose|j: int| 0 <= j < z.len() && z[j] == c;
        assert(z[j].0 <= z[K - 1].0);
    }
    let zr = zm.filter(closer(mx));
    let a = am.filter(closer(d + 1));
    lemma_count_closer_multiset(z, mx);
    lemma_count_closer_multiset(all, d + 1);
    assert forall|c: Candidate| #[trigger] zr.count(c) <= a.count(c) by {
        if c.0 < mx && zm.count(c) > 0 {
            assert(zm.count(c) <= em.add(src.to_multiset()).count(c));
            assert(src.to_multiset().count(c) <= am.count(c));
        }
    }
    assert(zr.subset_of(a));
    assert(a.sub(zr).len() == 0);
    assert forall|c: Candidate| #[trigger] zr.count(c) == a.count(c) by {
        assert(a.sub(zr) =~= Multiset::empty());
        assert(a.sub(zr).count(c) == 0);
    }
    assert forall|c: Candidate| c.0 == i64::MAX && c != e implies #[trigger] zm.count(c) == 0 by {
        assert(zm.count(c) <= em.add(src.to_multiset()).count(c));
        assert(src.to_multiset().count(c) <= am.count(c));
    }
    let w = zm.filter(|c: Candidate| c.0 >= mx);
    assert(zm =~= zr.add(w));
    assert forall|c: Candidate| #[trigger] w.count(c) > 0 implies c == e by {
        assert(zm.count(c) > 0);
    }
    lemma_single_support(w, e);
    assert(zm.len() == K);
    assert(zr.len() + w.len() == K);
    assert(w.count(e) == zm.count(e));
}

/// With the accounting of the pruned searches, and no more than K stored candidates at or
/// within the K-th nearest distance, the K entries found hold the same candidates as the K
/// nearest of the flat scan, and so the same labels.
pub proof fn lemma_accounting_count(
    all: Seq<Candidate>,
    visited: Seq<Candidate>,
    pruned: Multiset<Candidate>,
)
    requires
        all.to_multiset() == visited.to_multiset().add(pruned),
        at_least(pruned, nearest(visited)[K - 1].0 as int),
        forall|i: int| 0 <= i < all.len() ==> #[trigger] all[i].0 < i64::MAX,
        kth_unshared(all),
    ensures
        nearest(visited).to_multiset() == nearest(all).to_multiset(),
        label_sum(nearest(visited)) == label_sum(nearest(all)),
{
    lemma_accounting_profile(all, visited, pruned);
    lemma_nearest_counts(visited);
    lemma_nearest_counts(all);
    lemma_same_profile_same_distances(nearest(visited), nearest(all));
    let x = nearest(visited);
    let y = nearest(all);
    let d = y[K - 1].0 as int;
    let mx = i64::MAX as int;
    let e: Candidate = (i64::MAX, 0u8);
    super::knn::lemma_empty_best_sorted();
    lemma_offer_all_sub(empty_best(), visited);
    lemma_offer_all_sub(empty_best(), all);
    assert forall|v: Candidate| #[trigger] visited.to_multiset().count(v) <= all.to_multiset().count(
        v,
    ) by {}
    assert forall|v: Candidate| #[trigger] all.to_multiset().count(v) <= all.to_multiset().count(v) by {}
    if d < mx {
        assert forall|i: int| 0 <= i < y.len() implies #[trigger] y[i].0 < d + 1 by {
            assert(y[i].0 <= y[K - 1].0);
        }
        lemma_count_at_least(y, d + 1);
        lemma_count_at_least(y, mx);
    } else {
        lemma_count_at_least(all, mx);
        lemma_count_at_least(all, mx + 1);
        lemma_count_split(y, K - 1, mx);
        lemma_count_at_most(y.subrange(0, K - 1), mx);
        assert forall|i: int| 0 <= i < y.subrange(K - 1, K as int).len() implies #[trigger] y.subrange(
            K - 1,
            K as int,
        )[i].0 >= mx by {}
        lemma_count_at_most(y.subrange(K - 1, K as int), mx);
    }
    assert(count_closer(y, mx) == count_closer(all, d + 1));
    assert(count_closer(x, mx) == count_closer(y, mx));
    assert(x[K - 1].0 == d);
    lemma_near_shape(x, visited, all, d);
    lemma_near_shape(y, all, all, d);
    assert forall|c: Candidate| #[trigger] x.to_multiset().count(c) == y.to_multiset().count(c) by {
        if c.0 < mx {
        } else if c == e {
        } else {
            assert(c.0 == i64::MAX);
        }
    }
    assert(x.to_multiset() =~= y.to_multiset());
    lemma_label_total_perm(x, y);
    lemma_label_sum_total(x);
    lemma_label_sum_total(y);
}

} // verus!
