//! Partition of chunks among lanes.
//!
//! Chunks are assigned to lanes by a permutation that depends on a seed alone: the same seed gives
//! the same partition, and each chunk belongs to exactly one lane.

use vstd::prelude::*;
use vstd::arithmetic::div_mod::{lemma_fundamental_div_mod, lemma_fundamental_div_mod_converse};

verus! {

/// What a lane has done.
#[derive(Debug, Clone, Copy, PartialEq, Eq, Structural)]
pub struct LaneStats {
    /// Number of chunks that the lane has read.
    pub chunks_processed: usize,
    /// Their size in the file.
    pub compressed_bytes: u64,
    /// Their size without filters.
    pub decompressed_bytes: u64,
}

impl Default for LaneStats {
    fn default() -> (s: Self)
        ensures
            s == no_work(),
    {
        LaneStats { chunks_processed: 0, compressed_bytes: 0, decompressed_bytes: 0 }
    }
}

/// The statistics of a lane that has done nothing.
pub open spec fn no_work() -> LaneStats {
    LaneStats { chunks_processed: 0, compressed_bytes: 0, decompressed_bytes: 0 }
}

/// The sum, or the largest number of 64 bits where it is larger.
pub open spec fn capped_sum(a: u64, b: int) -> u64 {
    if a + b > u64::MAX {
        u64::MAX
    } else {
        (a + b) as u64
    }
}

fn capped_add(a: u64, b: usize) -> (c: u64)
    ensures
        c == capped_sum(a, b as int),
{
    match a.checked_add(b as u64) {
        Some(c) => c,
        None => u64::MAX,
    }
}

impl LaneStats {
    /// The statistics with one more chunk.
    pub open spec fn with_chunk(self, compressed: int, decompressed: int) -> LaneStats {
        LaneStats {
            chunks_processed: (self.chunks_processed + 1) as usize,
            compressed_bytes: capped_sum(self.compressed_bytes, compressed),
            decompressed_bytes: capped_sum(self.decompressed_bytes, decompressed),
        }
    }

    /// Counts one more chunk.
    pub fn record_chunk(&mut self, compressed: usize, decompressed: usize)
        requires
            old(self).chunks_processed < usize::MAX,
        ensures
            *final(self) == old(self).with_chunk(compressed as int, decompressed as int),
    {
        *self = LaneStats {
            chunks_processed: self.chunks_processed + 1,
            compressed_bytes: capped_add(self.compressed_bytes, compressed),
            decompressed_bytes: capped_add(self.decompressed_bytes, decompressed),
        };
    }
}

/// What all lanes have done.
#[derive(Debug, Clone)]
pub struct PartitionStats {
    /// Number of chunks.
    pub total_chunks: usize,
    /// What each lane has done.
    pub per_lane: Vec<LaneStats>,
}

impl PartitionStats {
    /// The statistics of lanes that have done nothing.
    pub fn new(num_lanes: usize) -> (s: Self)
        ensures
            s.total_chunks == 0,
            s.per_lane@ == Seq::new(num_lanes as nat, |l: int| no_work()),
    {
        let mut per_lane: Vec<LaneStats> = Vec::with_capacity(num_lanes);
        while per_lane.len() < num_lanes
            invariant
                per_lane@.len() <= num_lanes,
                per_lane@ =~= Seq::new(per_lane@.len(), |l: int| no_work()),
            decreases num_lanes - per_lane@.len(),
        {
            per_lane.push(LaneStats::default());
        }
        PartitionStats { total_chunks: 0, per_lane }
    }
}

// ---- Partitions ----

/// Whether each index in the lane is that of a chunk.
pub open spec fn is_lane(lane: Seq<usize>, count: int) -> bool {
    forall|k: int| 0 <= k < lane.len() ==> #[trigger] lane[k] < count
}

/// Whether index `i` stands at a place in the lanes.
pub open spec fn stands_at(lanes: Seq<Seq<usize>>, i: int, l: int, k: int) -> bool {
    0 <= l < lanes.len() && 0 <= k < lanes[l].len() && lanes[l][k] == i
}

/// Whether index `i` has a place in the lanes.
pub open spec fn has_place(lanes: Seq<Seq<usize>>, i: int) -> bool {
    exists|l: int, k: int| #[trigger] stands_at(lanes, i, l, k)
}

/// Whether each chunk has exactly one place in the lanes.
pub open spec fn is_partition(lanes: Seq<Seq<usize>>, count: int) -> bool {
    &&& forall|l: int| 0 <= l < lanes.len() ==> is_lane(#[trigger] lanes[l], count)
    &&& forall|i: int| 0 <= i < count ==> #[trigger] has_place(lanes, i)
    &&& forall|i: int, l: int, k: int, m: int, j: int|
        #[trigger] stands_at(lanes, i, l, k) && #[trigger] stands_at(lanes, i, m, j) ==> l == m && k
            == j
}

// ---- The permutation ----

/// The factor of the generator.
pub const FACTOR: u64 = 6364136223846793005;

/// The increment of the generator.
pub const INCREMENT: u64 = 1442695040888963407;

/// The state of the generator after one step.
pub open spec fn next_state(state: u64) -> u64 {
    state.wrapping_mul(FACTOR).wrapping_add(INCREMENT)
}

/// The index below `n` that a state of the generator picks.
pub open spec fn picked(state: u64, n: int) -> int {
    (state / 0x1_0000_0000) as int % n
}

/// The list with two of its elements exchanged.
pub open spec fn exchanged(p: Seq<usize>, i: int, j: int) -> Seq<usize> {
    p.update(i, p[j]).update(j, p[i])
}

/// The list after its elements up to the `i`-th have been exchanged at random, from the last to
/// the first.
pub open spec fn shuffled(p: Seq<usize>, i: int, state: u64) -> Seq<usize>
    decreases i,
{
    if i <= 0 {
        p
    } else {
        let s = next_state(state);
        shuffled(exchanged(p, i, picked(s, i + 1)), i - 1, s)
    }
}

/// The order in which the chunks are dealt to the lanes.
pub open spec fn order_of(count: nat, seed: u64) -> Seq<usize> {
    shuffled(Seq::new(count, |i: int| i as usize), count - 1, seed)
}

/// The number of lanes that are used: there is always one.
pub open spec fn lanes_in_use(num_lanes: usize) -> nat {
    if num_lanes == 0 {
        1
    } else {
        num_lanes as nat
    }
}

/// The number of chunks that lane `l` gets out of the first `n`.
pub open spec fn share(n: int, lanes: int, l: int) -> nat {
    if n > l {
        ((n - l - 1) / lanes + 1) as nat
    } else {
        0
    }
}

/// The first `n` of the chunks in an order, dealt to lanes one after the other.
pub open spec fn dealt(order: Seq<usize>, lanes: nat, n: int) -> Seq<Seq<usize>> {
    Seq::new(lanes, |l: int| Seq::new(share(n, lanes as int, l), |k: int| order[k * lanes + l]))
}

/// The partition of `count` chunks.
pub open spec fn partition_of(count: nat, num_lanes: usize, seed: u64) -> Seq<Seq<usize>> {
    dealt(order_of(count, seed), lanes_in_use(num_lanes), count as int)
}

/// Whether a list holds each index below its length exactly once.
pub open spec fn is_order(p: Seq<usize>) -> bool {
    &&& forall|i: int| 0 <= i < p.len() ==> #[trigger] p[i] < p.len()
    &&& forall|i: int, j: int| 0 <= i < p.len() && 0 <= j < p.len() && p[i] == p[j] ==> i == j
    &&& forall|v: int| 0 <= v < p.len() ==> #[trigger] occurs(p, v)
}

/// Whether the index occurs in the list.
pub open spec fn occurs(p: Seq<usize>, v: int) -> bool {
    exists|i: int| 0 <= i < p.len() && #[trigger] p[i] == v
}

proof fn lemma_exchange_keeps_order(p: Seq<usize>, i: int, j: int)
    requires
        is_order(p),
        0 <= i < p.len(),
        0 <= j < p.len(),
    ensures
        is_order(exchanged(p, i, j)),
        exchanged(p, i, j).len() == p.len(),
{
    let q = exchanged(p, i, j);
    assert forall|v: int| 0 <= v < q.len() implies #[trigger] occurs(q, v) by {
        assert(occurs(p, v));
        let a = choose|a: int| 0 <= a < p.len() && #[trigger] p[a] == v;
        let b = if a == i {
            j
        } else if a == j {
            i
        } else {
            a
        };
        assert(q[b] == v);
    }
    assert forall|a: int, b: int|
        0 <= a < q.len() && 0 <= b < q.len() && q[a] == q[b] implies a == b by {
        let x = if a == i {
            j
        } else if a == j {
            i
        } else {
            a
        };
        let y = if b == i {
            j
        } else if b == j {
            i
        } else {
            b
        };
        assert(q[a] == p[x]);
        assert(q[b] == p[y]);
    }
    assert forall|a: int| 0 <= a < q.len() implies #[trigger] q[a] < q.len() by {
        assert(p[a] < p.len());
        assert(p[i] < p.len());
        assert(p[j] < p.len());
    }
}

proof fn lemma_shuffle_keeps_order(p: Seq<usize>, i: int, state: u64)
    requires
        is_order(p),
        i < p.len(),
    ensures
        is_order(shuffled(p, i, state)),
        shuffled(p, i, state).len() == p.len(),
    decreases i,
{
    if i > 0 {
        let s = next_state(state);
        let j = picked(s, i + 1);
        lemma_fundamental_div_mod((s / 0x1_0000_0000) as int, i + 1);
        lemma_exchange_keeps_order(p, i, j);
        lemma_shuffle_keeps_order(exchanged(p, i, j), i - 1, s);
    }
}

/// The chunks are dealt in an order that holds each chunk exactly once, whatever the seed is.
pub proof fn law_order_holds_each_chunk(count: nat, seed: u64)
    requires
        count <= usize::MAX,
    ensures
        order_of(count, seed).len() == count,
        is_order(order_of(count, seed)),
{
    let p = Seq::new(count, |i: int| i as usize);
    assert forall|v: int| 0 <= v < p.len() implies #[trigger] occurs(p, v) by {
        assert(p[v] == v);
    }
    assert(is_order(p));
    lemma_shuffle_keeps_order(p, count - 1, seed);
}

/// Which place a chunk gets: the `j`-th in the order goes to lane `j % lanes`.
proof fn lemma_place(n: int, lanes: int, j: int)
    requires
        0 <= j < n,
        lanes > 0,
    ensures
        0 <= j % lanes < lanes,
        0 <= j / lanes < share(n, lanes, j % lanes),
        (j / lanes) * lanes + j % lanes == j,
{
    lemma_fundamental_div_mod(j, lanes);
    assert((j / lanes) * lanes + j % lanes == j && 0 <= j % lanes < lanes && j / lanes >= 0)
        by (nonlinear_arith)
        requires
            j == lanes * (j / lanes) + j % lanes,
            0 <= j % lanes < lanes,
            0 <= j,
    ;
    let l = j % lanes;
    let q = j / lanes;
    assert(n - l - 1 >= q * lanes);
    assert((n - l - 1) / lanes >= q) by (nonlinear_arith)
        requires
            n - l - 1 >= q * lanes,
            lanes > 0,
    ;
}

/// A place in a lane is that of one chunk.
proof fn lemma_index(n: int, lanes: int, l: int, k: int)
    requires
        0 <= l < lanes,
        0 <= k < share(n, lanes, l),
    ensures
        0 <= k * lanes + l < n,
        (k * lanes + l) % lanes == l,
        (k * lanes + l) / lanes == k,
{
    let j = k * lanes + l;
    assert(0 <= j < n) by (nonlinear_arith)
        requires
            j == k * lanes + l,
            0 <= l < lanes,
            0 <= k <= (n - l - 1) / lanes,
            n > l,
    ;
    lemma_fundamental_div_mod_converse(j, lanes, k, l);
}

/// Each chunk belongs to exactly one lane, whatever the seed and the number of lanes are.
pub proof fn law_partition_is_disjoint_and_complete(count: nat, num_lanes: usize, seed: u64)
    requires
        count <= usize::MAX,
    ensures
        partition_of(count, num_lanes, seed).len() == lanes_in_use(num_lanes),
        is_partition(partition_of(count, num_lanes, seed), count as int),
{
    let order = order_of(count, seed);
    let n = count as int;
    let lanes = lanes_in_use(num_lanes) as int;
    let parts = partition_of(count, num_lanes, seed);
    law_order_holds_each_chunk(count, seed);
    assert forall|l: int| 0 <= l < parts.len() implies is_lane(#[trigger] parts[l], n) by {
        assert forall|k: int| 0 <= k < parts[l].len() implies #[trigger] parts[l][k] < n by {
            lemma_index(n, lanes, l, k);
            assert(order[k * lanes + l] < order.len());
        }
    }
    assert forall|i: int| 0 <= i < n implies #[trigger] has_place(parts, i) by {
        assert(occurs(order, i));
        let j = choose|j: int| 0 <= j < order.len() && #[trigger] order[j] == i;
        lemma_place(n, lanes, j);
        assert(stands_at(parts, i, j % lanes, j / lanes));
    }
    assert forall|i: int, l: int, k: int, m: int, j: int|
        #[trigger] stands_at(parts, i, l, k) && #[trigger] stands_at(parts, i, m, j) implies l == m
        && k == j by {
        lemma_index(n, lanes, l, k);
        lemma_index(n, lanes, m, j);
        assert(order[k * lanes + l] == order[j * lanes + m]);
    }
}

/// The lanes get the same number of chunks, or one more.
pub proof fn law_partition_is_balanced(
    count: nat,
    num_lanes: usize,
    seed: u64,
    l: int,
    m: int,
)
    requires
        0 <= l < lanes_in_use(num_lanes),
        0 <= m < lanes_in_use(num_lanes),
    ensures
        partition_of(count, num_lanes, seed)[l].len() <= partition_of(
            count,
            num_lanes,
            seed,
        )[m].len() + 1,
{
    let n = count as int;
    let lanes = lanes_in_use(num_lanes) as int;
    if n > l {
        if n > m {
            assert((n - l - 1) / lanes <= (n - m - 1) / lanes + 1) by (nonlinear_arith)
                requires
                    0 <= l < lanes,
                    0 <= m < lanes,
            ;
        } else {
            assert((n - l - 1) / lanes == 0) by (nonlinear_arith)
                requires
                    0 <= n - l - 1 < lanes,
            ;
        }
    }
}

/// The list of the indices below `count`.
fn first_indices(count: usize) -> (p: Vec<usize>)
    ensures
        p@ == Seq::new(count as nat, |i: int| i as usize),
{
    let mut p: Vec<usize> = Vec::with_capacity(count);
    while p.len() < count
        invariant
            p@.len() <= count,
            p@ =~= Seq::new(p@.len(), |i: int| i as usize),
        decreases count - p@.len(),
    {
        let i: usize = p.len();
        p.push(i);
    }
    p
}

fn shuffle(count: usize, seed: u64) -> (p: Vec<usize>)
    ensures
        p@ == order_of(count as nat, seed),
{
    let mut p = first_indices(count);
    if count == 0 {
        return p;
    }
    let ghost goal = order_of(count as nat, seed);
    let mut state: u64 = seed;
    let mut i: usize = count - 1;
    while i > 0
        invariant
            i < count,
            p@.len() == count,
            shuffled(p@, i as int, state) == goal,
        decreases i,
    {
        state = state.wrapping_mul(FACTOR).wrapping_add(INCREMENT);
        let pick: u64 = state / 0x1_0000_0000;
        assert(i < 0xffff_ffff_ffff_ffffu64) by {
            assert(count <= usize::MAX);
        }
        let j: usize = (pick % (i as u64 + 1)) as usize;
        let ghost before = p@;
        let a: usize = p[i];
        let b: usize = p[j];
        p.set(i, b);
        p.set(j, a);
        assert(p@ =~= exchanged(before, i as int, j as int));
        i -= 1;
    }
    p
}

/// Assigns chunks to lanes.
///
/// The order in which the chunks are dealt is a pseudorandom permutation that depends on the seed
/// alone.
pub fn partition_chunks(count: usize, num_lanes: usize, seed: u64) -> (lanes: Vec<Vec<usize>>)
    ensures
        lanes.deep_view() == partition_of(count as nat, num_lanes, seed),
        is_partition(lanes.deep_view(), count as int),
{
    let used: usize = if num_lanes == 0 {
        1
    } else {
        num_lanes
    };
    let order = shuffle(count, seed);
    proof {
        law_order_holds_each_chunk(count as nat, seed);
        law_partition_is_disjoint_and_complete(count as nat, num_lanes, seed);
    }
    let mut lanes: Vec<Vec<usize>> = Vec::with_capacity(used);
    while lanes.len() < used
        invariant
            lanes@.len() <= used,
            used == lanes_in_use(num_lanes),
            used > 0,
            order@.len() == count,
            forall|l: int|
                0 <= l < lanes@.len() ==> (#[trigger] lanes@[l])@ =~= Seq::new(
                    share(count as int, used as int, l),
                    |k: int| order@[k * used + l],
                ),
        decreases used - lanes@.len(),
    {
        let l: usize = lanes.len();
        let lane = deal(&order, used, l);
        lanes.push(lane);
    }
    proof {
        let parts = partition_of(count as nat, num_lanes, seed);
        assert forall|l: int| 0 <= l < parts.len() implies lanes.deep_view()[l] =~= parts[l] by {
            assert(lanes@[l]@ =~= parts[l]);
        }
        assert(lanes.deep_view() =~= parts);
    }
    lanes
}

/// The chunks of one lane.
fn deal(order: &Vec<usize>, lanes: usize, l: usize) -> (lane: Vec<usize>)
    requires
        l < lanes,
    ensures
        lane@ == Seq::new(
            share(order@.len() as int, lanes as int, l as int),
            |k: int| order@[k * lanes + l],
        ),
{
    let ghost n = order@.len() as int;
    let ghost step = lanes as int;
    let count: usize = order.len();
    let mut lane: Vec<usize> = Vec::new();
    let mut j: usize = l;
    let mut more: bool = j < count;
    proof {
        assert(0 * step + l == l) by (nonlinear_arith);
    }
    while more
        invariant
            n == order@.len(),
            count == n,
            step == lanes,
            l < lanes,
            more ==> j < n && j == lane@.len() * step + l,
            !more ==> lane@.len() * step + l >= n,
            lane@.len() > 0 ==> (lane@.len() - 1) * step + l < n,
            forall|k: int|
                0 <= k < lane@.len() ==> #[trigger] lane@[k] == order@[k * step + l],
        decreases n - lane@.len() + if more { 1int } else { 0int },
    {
        let ghost k = lane@.len() as int;
        assert(k * step >= k) by (nonlinear_arith)
            requires
                k >= 0,
                step >= 1,
        ;
        lane.push(order[j]);
        assert((k + 1) * step + l == k * step + l + step) by (nonlinear_arith);
        assert((k + 1) * step == k * step + step) by (nonlinear_arith);
        match j.checked_add(lanes) {
            Some(next) => {
                more = next < count;
                j = next;
            },
            None => {
                more = false;
            },
        }
    }
    proof {
        let k = lane@.len() as int;
        if n > l {
            if k == 0 {
                assert(k * step == 0) by (nonlinear_arith)
                    requires
                        k == 0,
                ;
            }
            assert(k > 0);
            assert((n - l - 1) / step == k - 1) by (nonlinear_arith)
                requires
                    step > 0,
                    (k - 1) * step + l < n,
                    k * step + l >= n,
            ;
        } else if k > 0 {
            assert((k - 1) * step >= 0) by (nonlinear_arith)
                requires
                    k > 0,
                    step > 0,
            ;
        }
        assert(lane@ =~= Seq::new(share(n, step, l as int), |i: int| order@[i * lanes + l]));
    }
    lane
}

} // verus!
