//! Nearest-neighbour searches over a loaded index.

use vstd::prelude::*;
use crate::{DIMS, K, PACKED_DIMS};
use super::format::PARTITION_CUTS;
use super::knn::{
    Candidate, count_closer, empty_best, insert_best, label_sum, lemma_empty_best_sorted,
    lemma_offer_all_sorted, nearest, offer_all, sorted_by_distance, sum_labels,
};
use super::layout::{
    BLOCK_VALUES, IndexMetadata, IndexModel, LANES, Node, SearchMode, SearchStats,
    SpecialistIndex, blocks_of, directory_ok, is_leaf, node_fits, well_formed,
};
use super::exactness::{
    at_least, entries_ms, lemma_accounting_exact, lemma_accounting_profile, lemma_at_least_add,
    lemma_at_least_lower, lemma_entries_at_least, lemma_entries_first, lemma_entries_permutation,
    lemma_entries_push, lemma_node_box, lemma_node_leaf, lemma_node_split, lemma_offer_all_kth,
    lemma_partition_box, lemma_stack_push, boxes_sound, lemma_stored_is_partitions, node_ms, partition_ms,
    entry_from, kth_unshared, lemma_accounting_count, lemma_offer_all_entries, parts_ms, search_sound,
    stack_ms, stored_kth_unshared, stored_ties_agree,
    ties_agree, tree_height,
};
use vstd::multiset::Multiset;

verus! {

/// Largest square of the difference of two `i16` values.
pub open spec fn max_square() -> int {
    4294836225
}

pub open spec fn square(x: int) -> int {
    x * x
}

/// Squared distance over the first `n` dimensions between `q` and the vector whose
/// dimension `d` is stored at `v[base + d * LANES]`.
pub open spec fn distance_prefix(q: Seq<i16>, v: Seq<i16>, base: int, n: nat) -> int
    decreases n,
{
    if n == 0 {
        0
    } else {
        distance_prefix(q, v, base, (n - 1) as nat) + square(q[n - 1] - v[base + (n - 1) * LANES])
    }
}

/// Squared distance from the query to the vector in `lane` of `block`.
pub open spec fn lane_distance(m: IndexModel, q: Seq<i16>, block: int, lane: int) -> int {
    distance_prefix(q, m.vectors, block * BLOCK_VALUES + lane, DIMS as nat)
}

pub open spec fn lane_candidate(m: IndexModel, q: Seq<i16>, block: int, lane: int) -> Candidate {
    (lane_distance(m, q, block, lane) as i64, m.labels[block * LANES + lane])
}

/// The first `count` lanes of `block`, in lane order.
pub open spec fn block_candidates(m: IndexModel, q: Seq<i16>, block: int, count: int) -> Seq<
    Candidate,
> {
    Seq::new(count as nat, |i: int| lane_candidate(m, q, block, i))
}

/// Candidates of the references held by the leaves among the first `n` nodes, leaf after
/// leaf, each leaf's references in lane order.
pub open spec fn exact_candidates(m: IndexModel, q: Seq<i16>, n: int) -> Seq<Candidate>
    decreases n,
{
    if n <= 0 {
        Seq::empty()
    } else {
        exact_candidates(m, q, n - 1) + if is_leaf(m.nodes[n - 1]) {
            leaf_candidates(m, q, m.nodes[n - 1], blocks_of(m.nodes[n - 1].len as int))
        } else {
            Seq::empty()
        }
    }
}

/// Fraud count of the brute-force search: labels of the K nearest among every reference
/// the leaves hold.
pub open spec fn exact_count(m: IndexModel, q: Seq<i16>) -> u8 {
    label_sum(nearest(exact_candidates(m, q, m.nodes.len() as int)))
}

/// Lanes a leaf covers in its `k`-th block.
pub open spec fn leaf_lanes(n: Node, k: int) -> int {
    if n.len - LANES * k < LANES {
        n.len - LANES * k
    } else {
        LANES as int
    }
}

/// Candidates of the first `nb` blocks of a leaf.
pub open spec fn leaf_candidates(m: IndexModel, q: Seq<i16>, n: Node, nb: int) -> Seq<Candidate>
    decreases nb,
{
    if nb <= 0 {
        Seq::empty()
    } else {
        leaf_candidates(m, q, n, nb - 1) + block_candidates(
            m,
            q,
            n.start + nb - 1,
            leaf_lanes(n, nb - 1),
        )
    }
}

/// A candidate is the distance and label of some stored vector.
pub open spec fn stored_candidate(m: IndexModel, q: Seq<i16>, c: Candidate) -> bool {
    exists|b: int, i: int| 0 <= b < m.blocks && 0 <= i < LANES && c == lane_candidate(m, q, b, i)
}

pub open spec fn all_stored(m: IndexModel, q: Seq<i16>, cs: Seq<Candidate>) -> bool {
    forall|k: int| 0 <= k < cs.len() ==> stored_candidate(m, q, #[trigger] cs[k])
}

/// `r` is the fraud count of the K nearest among some run of stored vectors.
pub open spec fn counts_some_stored_run(m: IndexModel, q: Seq<i16>, r: u8) -> bool {
    exists|v: Seq<Candidate>| all_stored(m, q, v) && r == label_sum(nearest(v))
}

/// Every stored label is 0 or 1.
pub open spec fn labels_are_bits(m: IndexModel) -> bool {
    forall|j: int| 0 <= j < m.labels.len() ==> #[trigger] m.labels[j] <= 1
}

proof fn lemma_label_sum_bits(s: Seq<Candidate>)
    requires
        forall|j: int| 0 <= j < s.len() ==> #[trigger] s[j].1 <= 1,
    ensures
        label_sum(s) <= s.len(),
    decreases s.len(),
{
    if s.len() > 0 {
        assert forall|j: int| 0 <= j < s.drop_last().len() implies #[trigger] s.drop_last()[j].1
            <= 1 by {
            assert(s.drop_last()[j] == s[j]);
        }
        lemma_label_sum_bits(s.drop_last());
        assert(s.last() == s[s.len() - 1]);
    }
}

/// When every label is 0 or 1, a fraud count of stored references is at most K.
pub proof fn lemma_count_at_most_k(m: IndexModel, q: Seq<i16>, r: u8)
    requires
        well_formed(m),
        labels_are_bits(m),
        counts_some_stored_run(m, q, r),
    ensures
        r <= K,
{
    let v = choose|v: Seq<Candidate>| all_stored(m, q, v) && r == label_sum(nearest(v));
    lemma_empty_best_sorted();
    lemma_offer_all_entries(empty_best(), v);
    lemma_offer_all_sorted(empty_best(), v);
    let best = nearest(v);
    assert forall|j: int| 0 <= j < best.len() implies #[trigger] best[j].1 <= 1 by {
        let e = best[j];
        assert(entry_from(empty_best(), v, e));
        if v.contains(e) {
            let k = choose|k: int| 0 <= k < v.len() && v[k] == e;
            assert(stored_candidate(m, q, v[k]));
            let (b, i) = choose|b: int, i: int|
                0 <= b < m.blocks && 0 <= i < LANES && e == lane_candidate(m, q, b, i);
            assert(b * LANES + i < m.labels.len());
            assert(m.labels[b * LANES + i] <= 1);
        } else {
            let k = choose|k: int| 0 <= k < empty_best().len() && empty_best()[k] == e;
        }
    }
    lemma_label_sum_bits(best);
}

/// Distance from a query to an axis-aligned box in one dimension.
pub open spec fn gap(q: int, lo: int, hi: int) -> int {
    if q < lo {
        lo - q
    } else if q > hi {
        q - hi
    } else {
        0
    }
}

/// Squared distance from the query to the box `[lo, hi]` over the first `n` dimensions.
pub open spec fn box_distance(q: Seq<i16>, lo: Seq<i16>, hi: Seq<i16>, n: nat) -> int
    decreases n,
{
    if n == 0 {
        0
    } else {
        box_distance(q, lo, hi, (n - 1) as nat) + square(gap(q[n - 1] as int, lo[n - 1] as int, hi[n - 1] as int))
    }
}

/// Bucket of `v0` among the partition cuts: how many cuts lie at or below it.
pub open spec fn cut_bucket(v0: i16, cuts: Seq<i16>) -> int
    decreases cuts.len(),
{
    if cuts.len() == 0 {
        0
    } else {
        cut_bucket(v0, cuts.drop_last()) + if cuts.last() <= v0 {
            1int
        } else {
            0
        }
    }
}

/// Key of the partition a vector falls in: bit 0 online, bit 1 card present, bit 2 an
/// unknown merchant, bit 3 more than about ten transactions in a day, bit 4 an amount far
/// above the customer's average, bits 5 to 7 the bucket of the amount among the cuts.
pub open spec fn partition_key(v: Seq<i16>, cuts: Seq<i16>) -> u32 {
    ((if v[9] > 0 { 1int } else { 0 }) + (if v[10] > 0 { 2int } else { 0 }) + (if v[11] > 0 {
        4int
    } else {
        0
    }) + (if v[8] > 2048 { 8int } else { 0 }) + (if v[2] > 4096 { 16int } else { 0 }) + 32
        * cut_bucket(v[0], cuts)) as u32
}

proof fn lemma_cut_bucket_bound(v0: i16, cuts: Seq<i16>)
    ensures
        0 <= cut_bucket(v0, cuts) <= cuts.len(),
    decreases cuts.len(),
{
    if cuts.len() > 0 {
        lemma_cut_bucket_bound(v0, cuts.drop_last());
    }
}

proof fn lemma_cut_bucket_counts(v0: i16, cuts: Seq<i16>)
    ensures
        cut_bucket(v0, cuts) == cuts.filter(|c: i16| c <= v0).len(),
        0 <= cut_bucket(v0, cuts) <= cuts.len(),
    decreases cuts.len(),
{
    reveal(Seq::filter);
    if cuts.len() > 0 {
        lemma_cut_bucket_counts(v0, cuts.drop_last());
    }
}

/// The partition key carries, bit by bit: bit 0 `v[9] > 0`, bit 1 `v[10] > 0`, bit 2
/// `v[11] > 0`, bit 3 `v[8] > 2048`, bit 4 `v[2] > 4096`, and above them how many of the
/// cuts lie at or below `v[0]`.
pub proof fn lemma_partition_key_bits(v: Seq<i16>, cuts: Seq<i16>)
    requires
        v.len() >= 12,
        cuts.len() <= 7,
    ensures
        partition_key(v, cuts) % 2 == (if v[9] > 0 { 1int } else { 0 }),
        partition_key(v, cuts) / 2 % 2 == (if v[10] > 0 { 1int } else { 0 }),
        partition_key(v, cuts) / 4 % 2 == (if v[11] > 0 { 1int } else { 0 }),
        partition_key(v, cuts) / 8 % 2 == (if v[8] > 2048 { 1int } else { 0 }),
        partition_key(v, cuts) / 16 % 2 == (if v[2] > 4096 { 1int } else { 0 }),
        partition_key(v, cuts) / 32 == cuts.filter(|c: i16| c <= v[0]).len(),
{
    lemma_cut_bucket_counts(v[0], cuts);
    let b0: int = if v[9] > 0 { 1 } else { 0 };
    let b1: int = if v[10] > 0 { 1 } else { 0 };
    let b2: int = if v[11] > 0 { 1 } else { 0 };
    let b3: int = if v[8] > 2048 { 1 } else { 0 };
    let b4: int = if v[2] > 4096 { 1 } else { 0 };
    let q = cut_bucket(v[0], cuts);
    let k = b0 + 2 * b1 + 4 * b2 + 8 * b3 + 16 * b4 + 32 * q;
    assert(partition_key(v, cuts) == k);
    assert(k % 2 == b0 && k / 2 % 2 == b1 && k / 4 % 2 == b2 && k / 8 % 2 == b3 && k / 16 % 2
        == b4 && k / 32 == q) by (nonlinear_arith)
        requires
            0 <= b0 <= 1,
            0 <= b1 <= 1,
            0 <= b2 <= 1,
            0 <= b3 <= 1,
            0 <= b4 <= 1,
            0 <= q <= 7,
            k == b0 + 2 * b1 + 4 * b2 + 8 * b3 + 16 * b4 + 32 * q,
    ;
}

/// Partition key of a query, with the cuts of the index it is searched in.
pub fn compute_partition_key(vector: &[i16; PACKED_DIMS], cuts: &[i16; PARTITION_CUTS]) -> (key: u32)
    ensures
        key == partition_key(vector@, cuts@),
        key < 256,
{
    let mut key: u32 = 0;
    if vector[9] > 0 {
        key += 1;
    }
    if vector[10] > 0 {
        key += 2;
    }
    if vector[11] > 0 {
        key += 4;
    }
    if vector[8] > 2048 {
        key += 8;
    }
    if vector[2] > 4096 {
        key += 16;
    }
    let mut bucket: u32 = 0;
    let mut i: usize = 0;
    while i < PARTITION_CUTS
        invariant
            i <= PARTITION_CUTS,
            bucket == cut_bucket(vector@[0], cuts@.subrange(0, i as int)),
            bucket <= i,
        decreases PARTITION_CUTS - i,
    {
        proof {
            assert(cuts@.subrange(0, i + 1).drop_last() =~= cuts@.subrange(0, i as int));
        }
        if cuts[i] <= vector[0] {
            bucket += 1;
        }
        i += 1;
    }
    assert(cuts@.subrange(0, PARTITION_CUTS as int) =~= cuts@);
    key += 32 * bucket;
    key
}

pub(crate) proof fn lemma_square_bound(x: int)
    requires
        -65535 <= x <= 65535,
    ensures
        0 <= square(x) <= max_square(),
{
    assert(0 <= x * x <= 65535 * 65535) by (nonlinear_arith)
        requires
            -65535 <= x <= 65535,
    ;
}

pub(crate) proof fn lemma_distance_bound(q: Seq<i16>, v: Seq<i16>, base: int, n: nat)
    requires
        n <= q.len(),
        forall|d: int| 0 <= d < n ==> 0 <= #[trigger] (base + d * LANES) < v.len(),
    ensures
        0 <= distance_prefix(q, v, base, n) <= n * max_square(),
    decreases n,
{
    if n > 0 {
        lemma_distance_bound(q, v, base, (n - 1) as nat);
        let d = n - 1;
        assert(0 <= base + d * LANES);
        lemma_square_bound(q[d] - v[base + d * LANES]);
    }
}

proof fn lemma_box_bound(q: Seq<i16>, lo: Seq<i16>, hi: Seq<i16>, n: nat)
    requires
        n <= q.len(),
        n <= lo.len(),
        n <= hi.len(),
    ensures
        0 <= box_distance(q, lo, hi, n) <= n * max_square(),
    decreases n,
{
    if n > 0 {
        lemma_box_bound(q, lo, hi, (n - 1) as nat);
        let d = n - 1;
        lemma_square_bound(gap(q[d] as int, lo[d] as int, hi[d] as int));
    }
}

/// Squared distances from the query to the eight vectors of the block at `block_base`.
fn scan_block_scalar(vectors: &Vec<i16>, block_base: usize, query: &[i16; PACKED_DIMS]) -> (dists:
    Vec<i64>)
    requires
        block_base + BLOCK_VALUES <= vectors@.len(),
    ensures
        dists@.len() == LANES,
        forall|i: int|
            0 <= i < LANES ==> #[trigger] dists@[i] == distance_prefix(
                query@,
                vectors@,
                block_base + i,
                DIMS as nat,
            ),
{
    let total = vectors.len();
    let mut dists: Vec<i64> = Vec::new();
    let mut i: usize = 0;
    while i < LANES
        invariant
            i <= LANES,
            dists@.len() == i,
            forall|k: int| 0 <= k < i ==> #[trigger] dists@[k] == 0,
        decreases LANES - i,
    {
        dists.push(0);
        i += 1;
    }
    let mut d: usize = 0;
    while d < DIMS
        invariant
            d <= DIMS,
            total == vectors@.len(),
            block_base + BLOCK_VALUES <= vectors@.len(),
            dists@.len() == LANES,
            forall|k: int|
                0 <= k < LANES ==> #[trigger] dists@[k] == distance_prefix(
                    query@,
                    vectors@,
                    block_base + k,
                    d as nat,
                ),
        decreases DIMS - d,
    {
        let q = query[d] as i64;
        let base = block_base + d * LANES;
        let mut i: usize = 0;
        while i < LANES
            invariant
                d < DIMS,
                i <= LANES,
                base == block_base + d * LANES,
                total == vectors@.len(),
                block_base + BLOCK_VALUES <= vectors@.len(),
                q == query@[d as int],
                dists@.len() == LANES,
                forall|k: int|
                    0 <= k < i ==> #[trigger] dists@[k] == distance_prefix(
                        query@,
                        vectors@,
                        block_base + k,
                        (d + 1) as nat,
                    ),
                forall|k: int|
                    i <= k < LANES ==> #[trigger] dists@[k] == distance_prefix(
                        query@,
                        vectors@,
                        block_base + k,
                        d as nat,
                    ),
            decreases LANES - i,
        {
            proof {
                assert forall|e: int| 0 <= e < d implies 0 <= #[trigger] (block_base + i + e * LANES)
                    < vectors@.len() by {}
                lemma_distance_bound(query@, vectors@, block_base + i, d as nat);
                lemma_square_bound(q - vectors@[base + i]);
            }
            let diff = q - vectors[base + i] as i64;
            let cur = dists[i];
            dists.set(i, cur + diff * diff);
            i += 1;
        }
        d += 1;
    }
    dists
}

/// Squared distance from the query to the box `[min, max]` over the real dimensions.
fn lower_bound_box_scalar(
    query: &[i16; PACKED_DIMS],
    min: &[i16; PACKED_DIMS],
    max: &[i16; PACKED_DIMS],
) -> (r: i64)
    ensures
        r == box_distance(query@, min@, max@, DIMS as nat),
        r < i64::MAX,
{
    proof {
        lemma_box_bound(query@, min@, max@, DIMS as nat);
    }
    let mut sum: i64 = 0;
    let mut d: usize = 0;
    while d < DIMS
        invariant
            d <= DIMS,
            sum == box_distance(query@, min@, max@, d as nat),
        decreases DIMS - d,
    {
        proof {
            lemma_box_bound(query@, min@, max@, d as nat);
        }
        let q = query[d] as i64;
        let lo = min[d] as i64;
        let hi = max[d] as i64;
        let diff = if q < lo {
            lo - q
        } else if q > hi {
            q - hi
        } else {
            0
        };
        proof {
            lemma_square_bound(diff as int);
        }
        sum = sum + diff * diff;
        d += 1;
    }
    sum
}

pub proof fn lemma_offer_all_concat(best: Seq<Candidate>, a: Seq<Candidate>, b: Seq<Candidate>)
    ensures
        offer_all(best, a + b) == offer_all(offer_all(best, a), b),
    decreases b.len(),
{
    if b.len() == 0 {
        assert(a + b =~= a);
    } else {
        assert((a + b).drop_last() =~= a + b.drop_last());
        lemma_offer_all_concat(best, a, b.drop_last());
    }
}


/// Termination measure of the tree walk: nodes nearer the leaves weigh less, and a node
/// weighs more than its two children together.
/// Most far children waiting at once during a tree walk.
pub const TREE_STACK_CAPACITY: usize = 128;

pub open spec fn weight(e: int) -> nat
    decreases e,
{
    if e <= 0 {
        1
    } else {
        3 * weight(e - 1)
    }
}

proof fn lemma_weight_pos(e: int)
    ensures
        weight(e) >= 1,
    decreases e,
{
    if e > 0 {
        lemma_weight_pos(e - 1);
    }
}

proof fn lemma_weight_mono(a: int, b: int)
    requires
        a <= b,
    ensures
        weight(a) <= weight(b),
    decreases b - a,
{
    if a < b {
        lemma_weight_mono(a, b - 1);
    }
}

pub open spec fn stack_weight(n: int, s: Seq<(usize, i64)>) -> nat
    decreases s.len(),
{
    if s.len() == 0 {
        0
    } else {
        stack_weight(n, s.drop_last()) + weight(n - s.last().0)
    }
}

proof fn lemma_leaf_candidates_stored(m: IndexModel, q: Seq<i16>, n: Node, nb: int)
    requires
        0 <= nb <= blocks_of(n.len as int),
        n.start + blocks_of(n.len as int) <= m.blocks,
    ensures
        all_stored(m, q, leaf_candidates(m, q, n, nb)),
    decreases nb,
{
    if nb > 0 {
        lemma_leaf_candidates_stored(m, q, n, nb - 1);
        let prev = leaf_candidates(m, q, n, nb - 1);
        let blk = block_candidates(m, q, n.start + nb - 1, leaf_lanes(n, nb - 1));
        let all = prev + blk;
        assert forall|k: int| 0 <= k < all.len() implies stored_candidate(m, q, #[trigger] all[k]) by {
            if k < prev.len() {
                assert(all[k] == prev[k]);
            } else {
                let i = k - prev.len();
                assert(all[k] == lane_candidate(m, q, n.start + nb - 1, i));
                assert(0 <= i < LANES);
            }
        }
    }
}

proof fn lemma_offer_all_push(best: Seq<Candidate>, a: Seq<Candidate>, c: Candidate)
    ensures
        offer_all(best, a.push(c)) == super::knn::offer(offer_all(best, a), c),
{
    assert(a.push(c).drop_last() =~= a);
}

proof fn lemma_all_stored_concat(m: IndexModel, q: Seq<i16>, a: Seq<Candidate>, b: Seq<Candidate>)
    requires
        all_stored(m, q, a),
        all_stored(m, q, b),
    ensures
        all_stored(m, q, a + b),
{
    assert forall|k: int| 0 <= k < (a + b).len() implies stored_candidate(m, q, #[trigger] (a
        + b)[k]) by {
        if k < a.len() {
            assert((a + b)[k] == a[k]);
        } else {
            assert((a + b)[k] == b[k - a.len()]);
        }
    }
}

/// Sorts partition entries by their lower bound, as `slice::sort_unstable_by_key` does.
#[verifier::external_body]
fn sort_by_bound(entries: &mut Vec<(i64, usize)>)
    ensures
        final(entries)@.to_multiset() == old(entries)@.to_multiset(),
        forall|i: int, j: int|
            0 <= i <= j < final(entries)@.len() ==> #[trigger] final(entries)@[i].0
                <= #[trigger] final(entries)@[j].0,
{
    entries.sort_unstable_by_key(|e| e.0);
}

/// A property of every entry survives a reordering of the entries.
proof fn lemma_entries_reordered(
    before: Seq<(i64, usize)>,
    after: Seq<(i64, usize)>,
    p: spec_fn((i64, usize)) -> bool,
)
    requires
        after.to_multiset() == before.to_multiset(),
        forall|k: int| 0 <= k < before.len() ==> #[trigger] p(before[k]),
    ensures
        forall|k: int| 0 <= k < after.len() ==> #[trigger] p(after[k]),
{
    broadcast use vstd::seq_lib::group_to_multiset_ensures;

    assert forall|k: int| 0 <= k < after.len() implies #[trigger] p(after[k]) by {
        let e = after[k];
        assert(after.contains(e));
        assert(after.to_multiset().count(e) > 0);
        assert(before.contains(e));
        let j = choose|j: int| 0 <= j < before.len() && before[j] == e;
        assert(p(before[j]));
    }
}

fn new_best() -> (best: Vec<Candidate>)
    ensures
        best@ == empty_best(),
{
    let mut best: Vec<Candidate> = Vec::new();
    let mut i: usize = 0;
    while i < K
        invariant
            i <= K,
            best@.len() == i,
            forall|k: int| 0 <= k < i ==> #[trigger] best@[k] == (i64::MAX, 0u8),
        decreases K - i,
    {
        best.push((i64::MAX, 0u8));
        i += 1;
    }
    assert(best@ =~= empty_best());
    best
}

impl SpecialistIndex {
    /// The K nearest among every reference the leaves hold, leaf by leaf in node order.
    fn exact_best(&self, query: &[i16; PACKED_DIMS]) -> (best: Vec<Candidate>)
        ensures
            best@ == nearest(exact_candidates(self@, query@, self@.nodes.len() as int)),
    {
        proof {
            use_type_invariant(self);
            self.lemma_view();
            lemma_empty_best_sorted();
        }
        let ghost m = self@;
        let mut best = new_best();
        let mut scratch = SearchStats::new();
        let count = self.nodes.len();
        let mut i: usize = 0;
        while i < count
            invariant
                m == self@,
                well_formed(m),
                self.nodes@ == m.nodes,
                count == m.nodes.len(),
                i <= count,
                best@.len() == K,
                sorted_by_distance(best@),
                best@ == offer_all(empty_best(), exact_candidates(m, query@, i as int)),
            decreases count - i,
        {
            let node = self.nodes[i];
            assert(node_fits(m.nodes, i as int, m.blocks as int));
            if node.left < 0 || node.right < 0 {
                let ghost before = best@;
                self.scan_leaf(&node, query, &mut best, &mut scratch);
                proof {
                    lemma_offer_all_concat(
                        empty_best(),
                        exact_candidates(m, query@, i as int),
                        leaf_candidates(m, query@, node, blocks_of(node.len as int)),
                    );
                }
            } else {
                assert(exact_candidates(m, query@, i + 1) =~= exact_candidates(m, query@, i as int));
            }
            i += 1;
        }
        best
    }

    /// Offers every vector of a leaf, block by block.
    fn scan_leaf(
        &self,
        node: &Node,
        query: &[i16; PACKED_DIMS],
        best: &mut Vec<Candidate>,
        stats: &mut SearchStats,
    )
        requires
            is_leaf(*node),
            node.start + blocks_of(node.len as int) <= self@.blocks,
            old(best)@.len() == K,
            sorted_by_distance(old(best)@),
        ensures
            final(best)@.len() == K,
            sorted_by_distance(final(best)@),
            final(best)@ == offer_all(
                old(best)@,
                leaf_candidates(self@, query@, *node, blocks_of(node.len as int)),
            ),
            final(stats).leaves_scanned == old(stats).leaves_scanned.wrapping_add(1),
            final(stats).blocks_scanned == old(stats).blocks_scanned.wrapping_add(
                blocks_of(node.len as int) as u32,
            ),
            final(stats).partitions_visited == old(stats).partitions_visited,
            final(stats).nodes_visited == old(stats).nodes_visited,
    {
        proof {
            use_type_invariant(self);
            self.lemma_view();
        }
        let ghost m = self@;
        let ghost best0 = best@;
        let blocks = node.len / LANES + if node.len % LANES != 0 {
            1
        } else {
            0
        };
        assert(blocks == blocks_of(node.len as int));
        stats.leaves_scanned = stats.leaves_scanned.wrapping_add(1);
        stats.blocks_scanned = stats.blocks_scanned.wrapping_add(blocks as u32);
        let mut k: usize = 0;
        while k < blocks
            invariant
                m == self@,
                well_formed(m),
                self.vectors@ == m.vectors,
                self.labels@ == m.labels,
                m.blocks * BLOCK_VALUES <= usize::MAX,
                blocks == blocks_of(node.len as int),
                node.start + blocks <= m.blocks,
                k <= blocks,
                best@.len() == K,
                sorted_by_distance(best@),
                best@ == offer_all(best0, leaf_candidates(m, query@, *node, k as int)),
            decreases blocks - k,
        {
            let block_idx = node.start + k;
            let block_base = block_idx * BLOCK_VALUES;
            let dists = scan_block_scalar(&self.vectors, block_base, query);
            let labels_base = block_idx * LANES;
            let rest = node.len - k * LANES;
            let lane_count = if rest < LANES {
                rest
            } else {
                LANES
            };
            assert(lane_count == leaf_lanes(*node, k as int));
            let ghost before = leaf_candidates(m, query@, *node, k as int);
            let mut i: usize = 0;
            while i < lane_count
                invariant
                    m == self@,
                    well_formed(m),
                    self.vectors@ == m.vectors,
                    self.labels@ == m.labels,
                    block_idx < m.blocks,
                    block_base == block_idx * BLOCK_VALUES,
                    labels_base == block_idx * LANES,
                    lane_count <= LANES,
                    i <= lane_count,
                    dists@.len() == LANES,
                    forall|j: int|
                        0 <= j < LANES ==> #[trigger] dists@[j] == distance_prefix(
                            query@,
                            m.vectors,
                            block_base + j,
                            DIMS as nat,
                        ),
                    best@.len() == K,
                    sorted_by_distance(best@),
                    best@ == offer_all(
                        best0,
                        before + block_candidates(m, query@, block_idx as int, i as int),
                    ),
                decreases lane_count - i,
            {
                let d = dists[i];
                let label = self.labels[labels_base + i];
                proof {
                    let c = lane_candidate(m, query@, block_idx as int, i as int);
                    assert(c == (d, label));
                    assert(before + block_candidates(m, query@, block_idx as int, i + 1) =~= (
                    before + block_candidates(m, query@, block_idx as int, i as int)).push(c));
                    lemma_offer_all_push(
                        best0,
                        before + block_candidates(m, query@, block_idx as int, i as int),
                        c,
                    );
                }
                insert_best(d, label, best);
                i += 1;
            }
            k += 1;
        }
    }

    /// Walks the tree under `root` depth-first, nearer child first, skipping every subtree
    /// whose box lies farther than the current K-th neighbour. Far children wait on a
    /// stack of bounded capacity; when it is full they are not revisited.
    ///
    /// In a sound index, given a bound that holds for the whole tree, every candidate
    /// under `root` is either offered or lies no nearer than the final K-th entry.
    #[verifier::rlimit(80)]
    fn search_node_iterative(
        &self,
        root: usize,
        root_bound: i64,
        query: &[i16; PACKED_DIMS],
        best: &mut Vec<Candidate>,
        stats: &mut SearchStats,
    ) -> (offered: Ghost<(Seq<Candidate>, Multiset<Candidate>)>)
        requires
            root < self@.nodes.len(),
            old(best)@.len() == K,
            sorted_by_distance(old(best)@),
        ensures
            final(best)@.len() == K,
            sorted_by_distance(final(best)@),
            all_stored(self@, query@, offered@.0),
            final(best)@ == offer_all(old(best)@, offered@.0),
            boxes_sound(self@) && at_least(node_ms(self@, query@, root as int), root_bound as int)
                && tree_height(self@.nodes, root as int) <= TREE_STACK_CAPACITY ==> node_ms(
                self@,
                query@,
                root as int,
            ) == offered@.0.to_multiset().add(offered@.1) && at_least(
                offered@.1,
                final(best)@[K - 1].0 as int,
            ),
            final(stats).partitions_visited == old(stats).partitions_visited.wrapping_add(1),
    {
        proof {
            use_type_invariant(self);
            self.lemma_view();
        }
        let ghost m = self@;
        let ghost q = query@;
        let ghost best0 = best@;
        let ghost n = m.nodes.len() as int;
        let ghost h = tree_height(m.nodes, root as int);
        let ghost sound = boxes_sound(m) && at_least(node_ms(m, query@, root as int), root_bound as int)
            && h <= TREE_STACK_CAPACITY;
        assert(q.len() == PACKED_DIMS);
        stats.partitions_visited = stats.partitions_visited.wrapping_add(1);
        let ghost visits = stats.partitions_visited;
        let mut stack: Vec<(usize, i64)> = Vec::new();
        let mut current = root;
        let mut current_bound = root_bound;
        let mut active = true;
        let ghost mut visited: Seq<Candidate> = Seq::empty();
        let ghost mut pruned: Multiset<Candidate> = Multiset::empty();
        proof {
            assert(visited.to_multiset() =~= Multiset::empty()) by {
                broadcast use vstd::seq_lib::group_to_multiset_ensures;

            }
            assert(node_ms(m, q, root as int) =~= visited.to_multiset().add(
                node_ms(m, q, current as int).add(stack_ms(m, q, stack@)),
            ).add(pruned));
        }
        while active
            invariant
                m == self@,
                q == query@,
                q.len() == PACKED_DIMS,
                well_formed(m),
                self.nodes@ == m.nodes,
                n == m.nodes.len(),
                current < n,
                forall|k: int| 0 <= k < stack@.len() ==> #[trigger] stack@[k].0 < n,
                best@.len() == K,
                sorted_by_distance(best@),
                all_stored(m, q, visited),
                best@ == offer_all(best0, visited),
                !active ==> stack@.len() == 0,
                stats.partitions_visited == visits,
                sound == (boxes_sound(m) && at_least(node_ms(m, q, root as int), root_bound as int)
                    && h <= TREE_STACK_CAPACITY),
                h == tree_height(m.nodes, root as int),
                sound ==> h <= TREE_STACK_CAPACITY,
                sound ==> node_ms(m, q, root as int) == visited.to_multiset().add(
                    (if active {
                        node_ms(m, q, current as int)
                    } else {
                        Multiset::empty()
                    }).add(stack_ms(m, q, stack@)),
                ).add(pruned),
                sound ==> at_least(pruned, best@[K - 1].0 as int),
                sound && active ==> at_least(node_ms(m, q, current as int), current_bound as int),
                sound && active ==> stack@.len() + tree_height(m.nodes, current as int) <= h,
                sound ==> forall|k: int|
                    0 <= k < stack@.len() ==> at_least(
                        node_ms(m, q, (#[trigger] stack@[k]).0 as int),
                        stack@[k].1 as int,
                    ) && k + 1 + tree_height(m.nodes, stack@[k].0 as int) <= h,
            decreases if active {
                weight(n - current) + stack_weight(n, stack@)
            } else {
                0
            },
        {
            let ghost measure = weight(n - current) + stack_weight(n, stack@);
            let ghost stack0 = stack@;
            let ghost cur0 = current;
            let ghost best_in = best@;
            proof {
                lemma_weight_pos(n - current);
            }
            let mut descended = false;
            if current_bound <= best[K - 1].0 {
                let node = self.nodes[current];
                stats.nodes_visited = stats.nodes_visited.wrapping_add(1);
                assert(node_fits(m.nodes, current as int, m.blocks as int));
                if node.left < 0 || node.right < 0 {
                    assert(stack_weight(n, stack@) < measure);
                    self.scan_leaf(&node, query, best, stats);
                    proof {
                        let leaf = leaf_candidates(m, q, node, blocks_of(node.len as int));
                        lemma_leaf_candidates_stored(m, q, node, blocks_of(node.len as int));
                        lemma_offer_all_concat(best0, visited, leaf);
                        lemma_all_stored_concat(m, q, visited, leaf);
                        if sound {
                            lemma_node_leaf(m, q, current as int);
                            vstd::seq_lib::lemma_multiset_commutative(visited, leaf);
                            lemma_offer_all_kth(best_in, leaf);
                            lemma_at_least_lower(pruned, best_in[K - 1].0 as int, best@[K - 1].0 as int);
                            assert(node_ms(m, q, root as int) =~= (visited + leaf).to_multiset().add(
                                Multiset::empty().add(stack_ms(m, q, stack@)),
                            ).add(pruned));
                        }
                        visited = visited + leaf;
                    }
                } else {
                    let l = node.left as usize;
                    let r = node.right as usize;
                    let left = self.nodes[l];
                    let right = self.nodes[r];
                    let lb = lower_bound_box_scalar(query, &left.min, &left.max);
                    let rb = lower_bound_box_scalar(query, &right.min, &right.max);
                    let (near_idx, near_bound, far_idx, far_bound) = if lb <= rb {
                        (l, lb, r, rb)
                    } else {
                        (r, rb, l, lb)
                    };
                    proof {
                        lemma_weight_mono(n - near_idx, n - current - 1);
                        lemma_weight_mono(n - far_idx, n - current - 1);
                        assert(weight(n - current) == 3 * weight(n - current - 1));
                        if sound {
                            lemma_node_split(m, q, current as int);
                            lemma_node_box(m, q, l as int);
                            lemma_node_box(m, q, r as int);
                            assert(node_ms(m, q, current as int) =~= node_ms(m, q, near_idx as int).add(
                                node_ms(m, q, far_idx as int),
                            ));
                        }
                    }
                    let ghost far_pushed = false;
                    if far_bound <= best[K - 1].0 && stack.len() < TREE_STACK_CAPACITY {
                        let ghost old_stack = stack@;
                        stack.push((far_idx, far_bound));
                        assert(stack@.drop_last() =~= old_stack);
                        proof {
                            far_pushed = true;
                            if sound {
                                lemma_stack_push(m, q, old_stack, (far_idx, far_bound));
                                assert forall|k: int| 0 <= k < stack@.len() implies at_least(
                                    node_ms(m, q, (#[trigger] stack@[k]).0 as int),
                                    stack@[k].1 as int,
                                ) && k + 1 + tree_height(m.nodes, stack@[k].0 as int) <= h by {
                                    if k < old_stack.len() {
                                        assert(stack@[k] == old_stack[k]);
                                    }
                                }
                            }
                        }
                    } else {
                        proof {
                            if sound {
                                assert(stack@.len() < TREE_STACK_CAPACITY);
                                lemma_at_least_lower(
                                    node_ms(m, q, far_idx as int),
                                    far_bound as int,
                                    best@[K - 1].0 as int,
                                );
                                lemma_at_least_add(
                                    pruned,
                                    node_ms(m, q, far_idx as int),
                                    best@[K - 1].0 as int,
                                );
                                pruned = pruned.add(node_ms(m, q, far_idx as int));
                            }
                        }
                    }
                    assert(stack_weight(n, stack@) <= stack_weight(n, stack0) + weight(n - far_idx));
                    if near_bound <= best[K - 1].0 {
                        current = near_idx;
                        current_bound = near_bound;
                        descended = true;
                        assert(weight(n - current) + stack_weight(n, stack@) < measure);
                        proof {
                            if sound {
                                assert(node_ms(m, q, root as int) =~= visited.to_multiset().add(
                                    node_ms(m, q, current as int).add(stack_ms(m, q, stack@)),
                                ).add(pruned));
                            }
                        }
                    } else {
                        assert(stack_weight(n, stack@) < measure);
                        proof {
                            if sound {
                                lemma_at_least_lower(
                                    node_ms(m, q, near_idx as int),
                                    near_bound as int,
                                    best@[K - 1].0 as int,
                                );
                                lemma_at_least_add(
                                    pruned,
                                    node_ms(m, q, near_idx as int),
                                    best@[K - 1].0 as int,
                                );
                                pruned = pruned.add(node_ms(m, q, near_idx as int));
                                assert(node_ms(m, q, root as int) =~= visited.to_multiset().add(
                                    Multiset::empty().add(stack_ms(m, q, stack@)),
                                ).add(pruned));
                            }
                        }
                    }
                }
            } else {
                proof {
                    if sound {
                        lemma_at_least_lower(
                            node_ms(m, q, current as int),
                            current_bound as int,
                            best@[K - 1].0 as int,
                        );
                        lemma_at_least_add(pruned, node_ms(m, q, current as int), best@[K - 1].0 as int);
                        pruned = pruned.add(node_ms(m, q, current as int));
                        assert(node_ms(m, q, root as int) =~= visited.to_multiset().add(
                            Multiset::empty().add(stack_ms(m, q, stack@)),
                        ).add(pruned));
                    }
                }
            }
            if !descended {
                if current_bound > best[K - 1].0 {
                    assert(stack@ == stack0);
                }
                assert(stack_weight(n, stack@) < measure);
                if stack.len() == 0 {
                    active = false;
                } else {
                    let ghost old_stack = stack@;
                    let (c, b) = stack.pop().unwrap();
                    assert(old_stack.drop_last() =~= stack@);
                    assert(old_stack.last() == (c, b));
                    current = c;
                    current_bound = b;
                    assert(weight(n - current) + stack_weight(n, stack@) == stack_weight(
                        n,
                        old_stack,
                    ));
                    proof {
                        if sound {
                            assert(old_stack[old_stack.len() - 1] == (c, b));
                            assert(node_ms(m, q, root as int) =~= visited.to_multiset().add(
                                node_ms(m, q, current as int).add(stack_ms(m, q, stack@)),
                            ).add(pruned));
                            assert forall|k: int| 0 <= k < stack@.len() implies at_least(
                                node_ms(m, q, (#[trigger] stack@[k]).0 as int),
                                stack@[k].1 as int,
                            ) && k + 1 + tree_height(m.nodes, stack@[k].0 as int) <= h by {
                                assert(stack@[k] == old_stack[k]);
                            }
                        }
                    }
                }
            }
        }
        proof {
            if sound {
                assert(stack_ms(m, q, stack@) =~= Multiset::empty());
                assert(node_ms(m, q, root as int) =~= visited.to_multiset().add(pruned));
            }
        }
        Ghost((visited, pruned))
    }

    /// Ranks the partitions by how close their boxes come to the query and searches them
    /// in that order until the next box lies no nearer than the K-th neighbour. In
    /// key-first mode the query's own partition is searched first.
    ///
    /// In a sound index the list found has, below every threshold, as many entries as the
    /// K nearest of the flat scan; where equally distant stored candidates agree, it is
    /// that list, and where the K-th and next nearest lie at different distances, it has
    /// that list's labels.
    #[verifier::rlimit(60)]
    fn specialist_best(&self, query: &[i16; PACKED_DIMS], key_first: bool, stats: &mut SearchStats) -> (best: Vec<Candidate>)
        ensures
            best@.len() == K,
            exists|v: Seq<Candidate>| all_stored(self@, query@, v) && best@ == nearest(v),
            search_sound(self@) ==> forall|t: int|
                t <= i64::MAX ==> #[trigger] count_closer(best@, t) == count_closer(
                    nearest(exact_candidates(self@, query@, self@.nodes.len() as int)),
                    t,
                ),
            search_sound(self@) && ties_agree(exact_candidates(self@, query@, self@.nodes.len() as int))
                ==> best@ == nearest(exact_candidates(self@, query@, self@.nodes.len() as int)),
            search_sound(self@) && kth_unshared(exact_candidates(self@, query@, self@.nodes.len() as int))
                ==> label_sum(best@) == label_sum(nearest(exact_candidates(self@, query@, self@.nodes.len() as int))),
            old(stats).partitions_visited == 0 ==> final(stats).partitions_visited
                <= self@.partitions.len(),
            old(stats).partitions_visited == 0 && self@.partitions.len() > 0
                ==> final(stats).partitions_visited >= 1,
    {
        proof {
            use_type_invariant(self);
            self.lemma_view();
            lemma_empty_best_sorted();
        }
        let ghost m = self@;
        let ghost q = query@;
        let ghost sound = search_sound(m);
        assert(q.len() == PACKED_DIMS);
        let mut best = new_best();
        let ghost mut visited: Seq<Candidate> = Seq::empty();
        let ghost mut pruned: Multiset<Candidate> = Multiset::empty();
        let query_key = compute_partition_key(query, &self.cuts);
        let plen = self.partitions.len();
        let mut entries: Vec<(i64, usize)> = Vec::new();
        proof {
            assert(visited.to_multiset() =~= Multiset::empty()) by {
                broadcast use vstd::seq_lib::group_to_multiset_ensures;

            }
            assert(parts_ms(m, q, 0) =~= visited.to_multiset().add(entries_ms(m, q, entries@)).add(
                pruned,
            ));
        }
        let ghost fresh = stats.partitions_visited == 0;
        let mut idx: usize = 0;
        while idx < plen
            invariant
                fresh ==> stats.partitions_visited + entries@.len() <= idx,
                fresh && stats.partitions_visited == 0 ==> visited.len() == 0 && entries@.len() == idx,
                forall|k: int| 0 <= k < entries@.len() ==> #[trigger] entries@[k].0 < i64::MAX,
                m == self@,
                q == query@,
                q.len() == PACKED_DIMS,
                well_formed(m),
                self.partitions@ == m.partitions,
                self.nodes@ == m.nodes,
                plen == m.partitions.len(),
                idx <= plen,
                forall|k: int| 0 <= k < entries@.len() ==> #[trigger] entries@[k].1 < plen,
                best@.len() == K,
                sorted_by_distance(best@),
                all_stored(m, q, visited),
                best@ == offer_all(empty_best(), visited),
                sound == search_sound(m),
                sound ==> parts_ms(m, q, idx as int) == visited.to_multiset().add(
                    entries_ms(m, q, entries@),
                ).add(pruned),
                sound ==> at_least(pruned, best@[K - 1].0 as int),
                sound ==> forall|k: int|
                    0 <= k < entries@.len() ==> at_least(
                        partition_ms(m, q, (#[trigger] entries@[k]).1 as int),
                        entries@[k].0 as int,
                    ),
            decreases plen - idx,
        {
            let partition = self.partitions[idx];
            let bound = lower_bound_box_scalar(query, &partition.min, &partition.max);
            proof {
                if sound {
                    lemma_partition_box(m, q, idx as int);
                }
            }
            if key_first && partition.key == query_key {
                if bound < best[K - 1].0 {
                    let ghost before = best@;
                    let offered = self.search_node_iterative(partition.root, bound, query, &mut best, stats);
                    proof {
                        let v = offered@.0;
                        lemma_offer_all_concat(empty_best(), visited, v);
                        lemma_all_stored_concat(m, q, visited, v);
                        if sound {
                            vstd::seq_lib::lemma_multiset_commutative(visited, v);
                            lemma_offer_all_kth(before, v);
                            lemma_at_least_lower(pruned, before[K - 1].0 as int, best@[K - 1].0 as int);
                            lemma_at_least_add(pruned, offered@.1, best@[K - 1].0 as int);
                            assert(parts_ms(m, q, idx + 1) =~= (visited + v).to_multiset().add(
                                entries_ms(m, q, entries@),
                            ).add(pruned.add(offered@.1)));
                        }
                        visited = visited + v;
                        pruned = pruned.add(offered@.1);
                    }
                } else {
                    proof {
                        if sound {
                            lemma_at_least_lower(
                                partition_ms(m, q, idx as int),
                                bound as int,
                                best@[K - 1].0 as int,
                            );
                            lemma_at_least_add(pruned, partition_ms(m, q, idx as int), best@[K - 1].0 as int);
                            assert(parts_ms(m, q, idx + 1) =~= visited.to_multiset().add(
                                entries_ms(m, q, entries@),
                            ).add(pruned.add(partition_ms(m, q, idx as int))));
                        }
                        pruned = pruned.add(partition_ms(m, q, idx as int));
                    }
                }
            } else {
                let ghost old_entries = entries@;
                entries.push((bound, idx));
                proof {
                    if sound {
                        lemma_entries_push(m, q, old_entries, (bound, idx));
                        assert(parts_ms(m, q, idx + 1) =~= visited.to_multiset().add(
                            entries_ms(m, q, entries@),
                        ).add(pruned));
                        assert forall|k: int| 0 <= k < entries@.len() implies at_least(
                            partition_ms(m, q, (#[trigger] entries@[k]).1 as int),
                            entries@[k].0 as int,
                        ) by {
                            if k < old_entries.len() {
                                assert(entries@[k] == old_entries[k]);
                            }
                        }
                    }
                }
            }
            idx += 1;
        }
        let ghost unsorted = entries@;
        sort_by_bound(&mut entries);
        proof {
            vstd::seq_lib::to_multiset_len(entries@);
            vstd::seq_lib::to_multiset_len(unsorted);
            let in_range = |e: (i64, usize)| e.1 < plen;
            assert forall|k: int| 0 <= k < unsorted.len() implies #[trigger] in_range(unsorted[k]) by {}
            lemma_entries_reordered(unsorted, entries@, in_range);
            assert forall|k: int| 0 <= k < entries@.len() implies #[trigger] entries@[k].1 < plen by {
                assert(in_range(entries@[k]));
            }
            let finite = |e: (i64, usize)| e.0 < i64::MAX;
            assert forall|k: int| 0 <= k < unsorted.len() implies #[trigger] finite(unsorted[k]) by {}
            lemma_entries_reordered(unsorted, entries@, finite);
            assert forall|k: int| 0 <= k < entries@.len() implies #[trigger] entries@[k].0 < i64::MAX by {
                assert(finite(entries@[k]));
            }
            if sound {
                lemma_entries_permutation(m, q, unsorted, entries@);
                let bounded = |e: (i64, usize)| at_least(partition_ms(m, q, e.1 as int), e.0 as int);
                assert forall|k: int| 0 <= k < unsorted.len() implies #[trigger] bounded(unsorted[k]) by {}
                lemma_entries_reordered(unsorted, entries@, bounded);
                assert forall|k: int| 0 <= k < entries@.len() implies at_least(
                    partition_ms(m, q, (#[trigger] entries@[k]).1 as int),
                    entries@[k].0 as int,
                ) by {
                    assert(bounded(entries@[k]));
                }
                assert(entries@.subrange(0, entries@.len() as int) =~= entries@);
            }
        }
        let mut i: usize = 0;
        let mut searching = true;
        while searching && i < entries.len()
            invariant
                fresh ==> stats.partitions_visited + entries@.len() - i <= plen,
                fresh && stats.partitions_visited == 0 ==> visited.len() == 0 && i == 0 && searching
                    && entries@.len() == plen,
                forall|k: int| 0 <= k < entries@.len() ==> #[trigger] entries@[k].0 < i64::MAX,
                m == self@,
                q == query@,
                q.len() == PACKED_DIMS,
                well_formed(m),
                self.partitions@ == m.partitions,
                self.nodes@ == m.nodes,
                plen == m.partitions.len(),
                i <= entries@.len(),
                forall|k: int| 0 <= k < entries@.len() ==> #[trigger] entries@[k].1 < plen,
                forall|a: int, b: int|
                    0 <= a <= b < entries@.len() ==> #[trigger] entries@[a].0 <= #[trigger] entries@[b].0,
                best@.len() == K,
                sorted_by_distance(best@),
                all_stored(m, q, visited),
                best@ == offer_all(empty_best(), visited),
                sound == search_sound(m),
                sound ==> parts_ms(m, q, plen as int) == visited.to_multiset().add(
                    if searching {
                        entries_ms(m, q, entries@.subrange(i as int, entries@.len() as int))
                    } else {
                        Multiset::empty()
                    },
                ).add(pruned),
                sound ==> at_least(pruned, best@[K - 1].0 as int),
                sound ==> forall|k: int|
                    0 <= k < entries@.len() ==> at_least(
                        partition_ms(m, q, (#[trigger] entries@[k]).1 as int),
                        entries@[k].0 as int,
                    ),
            decreases if searching {
                entries@.len() - i + 1
            } else {
                0
            },
        {
            let (bound, pidx) = entries[i];
            let ghost rest = entries@.subrange(i as int, entries@.len() as int);
            proof {
                if sound {
                    lemma_entries_first(m, q, rest);
                    assert(rest.subrange(1, rest.len() as int) =~= entries@.subrange(
                        i + 1,
                        entries@.len() as int,
                    ));
                    assert(rest[0] == entries@[i as int]);
                }
            }
            if bound >= best[K - 1].0 {
                proof {
                    if sound {
                        assert forall|k: int| 0 <= k < rest.len() implies at_least(
                            partition_ms(m, q, (#[trigger] rest[k]).1 as int),
                            rest[k].0 as int,
                        ) && rest[k].0 >= best@[K - 1].0 by {
                            assert(rest[k] == entries@[i + k]);
                            assert(entries@[i as int].0 <= entries@[i + k].0);
                        }
                        lemma_entries_at_least(m, q, rest, best@[K - 1].0 as int);
                        lemma_at_least_add(pruned, entries_ms(m, q, rest), best@[K - 1].0 as int);
                        assert(parts_ms(m, q, plen as int) =~= visited.to_multiset().add(
                            Multiset::empty(),
                        ).add(pruned.add(entries_ms(m, q, rest))));
                    }
                    pruned = pruned.add(entries_ms(m, q, rest));
                }
                searching = false;
            } else {
                let root = self.partitions[pidx].root;
                let ghost before = best@;
                proof {
                    if sound {
                        lemma_partition_box(m, q, pidx as int);
                        assert(at_least(partition_ms(m, q, entries@[i as int].1 as int), entries@[i as int].0 as int));
                    }
                }
                let offered = self.search_node_iterative(root, bound, query, &mut best, stats);
                proof {
                    let v = offered@.0;
                    lemma_offer_all_concat(empty_best(), visited, v);
                    lemma_all_stored_concat(m, q, visited, v);
                    if sound {
                        vstd::seq_lib::lemma_multiset_commutative(visited, v);
                        lemma_offer_all_kth(before, v);
                        lemma_at_least_lower(pruned, before[K - 1].0 as int, best@[K - 1].0 as int);
                        lemma_at_least_add(pruned, offered@.1, best@[K - 1].0 as int);
                        assert(parts_ms(m, q, plen as int) =~= (visited + v).to_multiset().add(
                            entries_ms(m, q, entries@.subrange(i + 1, entries@.len() as int)),
                        ).add(pruned.add(offered@.1)));
                    }
                    visited = visited + v;
                    pruned = pruned.add(offered@.1);
                }
                i += 1;
            }
        }
        proof {
            if sound {
                if searching {
                    assert(entries@.subrange(i as int, entries@.len() as int) =~= Seq::empty());
                }
                assert(parts_ms(m, q, plen as int) =~= visited.to_multiset().add(pruned));
                lemma_stored_is_partitions(m, q);
                let all = exact_candidates(m, q, m.nodes.len() as int);
                lemma_accounting_profile(all, visited, pruned);
                if ties_agree(all) {
                    lemma_accounting_exact(all, visited, pruned);
                }
                if kth_unshared(all) {
                    lemma_accounting_count(all, visited, pruned);
                }
            }
        }
        assert(all_stored(m, q, visited) && best@ == nearest(visited));
        best
    }

    fn predict_fraud_count_inner(&self, query: &[i16; PACKED_DIMS], stats: &mut SearchStats) -> (r: u8)
        ensures
            self@.mode == SearchMode::Exact ==> r == exact_count(self@, query@),
            search_sound(self@) && (stored_ties_agree(self@, query@) || stored_kth_unshared(self@, query@))
                ==> r == exact_count(self@, query@),
            counts_some_stored_run(self@, query@, r),
            self@.mode == SearchMode::Exact ==> *final(stats) == *old(stats),
            old(stats).partitions_visited == 0 ==> final(stats).partitions_visited
                <= self@.partitions.len(),
            self@.mode != SearchMode::Exact && old(stats).partitions_visited == 0
                && self@.partitions.len() > 0 ==> final(stats).partitions_visited >= 1,
    {
        proof {
            use_type_invariant(self);
            self.lemma_view();
        }
        let best = match self.search_mode {
            SearchMode::Exact => self.exact_best(query),
            SearchMode::Specialist => self.specialist_best(query, false, stats),
            SearchMode::KeyFirst => self.specialist_best(query, true, stats),
        };
        proof {
            if self.search_mode == SearchMode::Exact {
                lemma_exact_candidates_stored(self@, query@, self@.nodes.len() as int);
            }
        }
        sum_labels(&best)
    }

    /// Fraud count (0 to 5) of a query: how many of its K nearest references are fraud.
    pub fn predict_fraud_count(&self, query: &[i16; PACKED_DIMS]) -> (r: u8)
        ensures
            self@.mode == SearchMode::Exact ==> r == exact_count(self@, query@),
            search_sound(self@) && (stored_ties_agree(self@, query@) || stored_kth_unshared(self@, query@))
                ==> r == exact_count(self@, query@),
            counts_some_stored_run(self@, query@, r),
            labels_are_bits(self@) ==> r <= K,
    {
        let mut stats = SearchStats::new();
        let r = self.predict_fraud_count_inner(query, &mut stats);
        proof {
            use_type_invariant(self);
            self.lemma_view();
            if labels_are_bits(self@) {
                lemma_count_at_most_k(self@, query@, r);
            }
        }
        r
    }

    /// `predict_fraud_count` together with counters of the work the search did.
    pub fn predict_fraud_count_with_stats(&self, query: &[i16; PACKED_DIMS]) -> (r: (u8, SearchStats))
        ensures
            self@.mode == SearchMode::Exact ==> r.0 == exact_count(self@, query@),
            search_sound(self@) && (stored_ties_agree(self@, query@) || stored_kth_unshared(self@, query@))
                ==> r.0 == exact_count(self@, query@),
            counts_some_stored_run(self@, query@, r.0),
            self@.mode == SearchMode::Exact ==> r.1.partitions_visited == 0 && r.1.nodes_visited == 0
                && r.1.leaves_scanned == 0 && r.1.blocks_scanned == 0,
            r.1.partitions_visited <= self@.partitions.len(),
            self@.mode != SearchMode::Exact && self@.partitions.len() > 0 ==> r.1.partitions_visited >= 1,
            labels_are_bits(self@) ==> r.0 <= K,
    {
        let mut stats = SearchStats::new();
        let count = self.predict_fraud_count_inner(query, &mut stats);
        proof {
            use_type_invariant(self);
            self.lemma_view();
            if labels_are_bits(self@) {
                lemma_count_at_most_k(self@, query@, count);
            }
        }
        (count, stats)
    }

    /// Fraud count of the flat scan over every stored block, whatever the search mode.
    pub fn predict_fraud_count_exact(&self, query: &[i16; PACKED_DIMS]) -> (r: u8)
        ensures
            r == exact_count(self@, query@),
            labels_are_bits(self@) ==> r <= K,
    {
        let best = self.exact_best(query);
        proof {
            use_type_invariant(self);
            self.lemma_view();
            if labels_are_bits(self@) {
                lemma_exact_candidates_stored(self@, query@, self@.nodes.len() as int);
                lemma_count_at_most_k(self@, query@, label_sum(best@));
            }
        }
        sum_labels(&best)
    }

    /// The counts of the image's header (the node count leaves out the empty leaf that
    /// the reader keeps after the directory).
    pub fn metadata(&self) -> (md: IndexMetadata)
        ensures
            md.reference_count == self@.reference_count,
            md.partition_count == self@.partitions.len(),
            md.node_count == self@.nodes.len() - 1,
            md.block_count == self@.blocks,
    {
        proof {
            use_type_invariant(self);
            self.lemma_view();
        }
        IndexMetadata {
            reference_count: self.reference_count,
            partition_count: self.partitions.len(),
            node_count: self.nodes.len() - 1,
            block_count: self.block_count,
        }
    }
}

proof fn lemma_exact_candidates_stored(m: IndexModel, q: Seq<i16>, n: int)
    requires
        well_formed(m),
        n <= m.nodes.len(),
    ensures
        all_stored(m, q, exact_candidates(m, q, n)),
    decreases n,
{
    if n > 0 {
        lemma_exact_candidates_stored(m, q, n - 1);
        let node = m.nodes[n - 1];
        if is_leaf(node) {
            assert(node_fits(m.nodes, n - 1, m.blocks as int));
            lemma_leaf_candidates_stored(m, q, node, blocks_of(node.len as int));
            lemma_all_stored_concat(
                m,
                q,
                exact_candidates(m, q, n - 1),
                leaf_candidates(m, q, node, blocks_of(node.len as int)),
            );
        } else {
            assert(exact_candidates(m, q, n) =~= exact_candidates(m, q, n - 1));
        }
    }
}

} // verus!
