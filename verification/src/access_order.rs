//! Which chunks a cache keeps, which an index finds, and which accesses are foreseen.

use vstd::prelude::*;
use crate::chunk_cache::{self, CacheModel, ChunkInfoModel, SlotModel};
use crate::sweep::{self, SweepModel};

verus! {

// ---- The cache ----

proof fn lemma_oldest_is_least(slots: Seq<SlotModel>, n: int, i: int)
    requires
        0 <= i < n <= slots.len(),
    ensures
        0 <= chunk_cache::oldest(slots, n) < n,
        slots[chunk_cache::oldest(slots, n)].last_access <= slots[i].last_access,
    decreases n,
{
    if n > 1 {
        lemma_oldest_is_least(slots, n - 1, 0);
        if i < n - 1 {
            lemma_oldest_is_least(slots, n - 1, i);
        }
    }
}

/// Making room removes no slot that was accessed after one that stays.
proof fn lemma_room(m: CacheModel, need: int, i: int, j: int)
    requires
        m.wf(),
        0 <= need <= m.max_bytes,
        0 <= i < m.slots.len(),
        0 <= j < m.slots.len(),
        m.with_room(need).slots.contains(m.slots[i]),
        !m.with_room(need).slots.contains(m.slots[j]),
    ensures
        m.slots[j].last_access <= m.slots[i].last_access,
    decreases m.slots.len(),
{
    let n = m.slots.len() as int;
    let o = chunk_cache::oldest(m.slots, n);
    lemma_oldest_is_least(m.slots, n, i);
    if j != o {
        chunk_cache::lemma_without_oldest(m);
        let next = m.without_oldest();
        assert(m.with_room(need) == next.with_room(need)) by {
            if !(m.slots.len() >= m.max_slots || m.current_bytes + need > m.max_bytes) {
                assert(m.with_room(need) == m);
                assert(m.slots.contains(m.slots[j]));
            }
        }
        chunk_cache::lemma_with_room(next, need);
        let room = next.with_room(need);
        let k = choose|k: int| 0 <= k < room.slots.len() && room.slots[k] == m.slots[i];
        assert(next.slots.contains(room.slots[k]));
        let i2 = choose|i2: int| 0 <= i2 < next.slots.len() && next.slots[i2] == m.slots[i];
        let j2 = if j == n - 1 {
            o
        } else {
            j
        };
        assert(next.slots[j2] == m.slots[j]);
        lemma_room(next, need, i2, j2);
    }
}

proof fn lemma_cached(m: CacheModel, i: int)
    requires
        m.wf(),
        0 <= i < m.slots.len(),
    ensures
        m.cached(m.slots[i].coord) == Some(m.slots[i].data),
{
    let c = m.slots[i].coord;
    chunk_cache::lemma_slot_of(m.slots, c, 0);
    let k = chunk_cache::slot_of(m.slots, c, 0);
    if k < i {
        assert(m.slots[k].coord != m.slots[i].coord);
    } else if i < k {
        assert(m.slots[i].coord != c);
    }
}

/// Where data takes the place of other data, those leave that were not accessed for the longest
/// time: no chunk leaves that was accessed after one that stays.
pub proof fn law_least_recent_leave(
    m: CacheModel,
    coord: Seq<u64>,
    data: Seq<u8>,
    i: int,
    j: int,
)
    requires
        m.wf(),
        m.max_slots > 0,
        m.cached(coord) is None,
        0 <= i < m.slots.len(),
        0 <= j < m.slots.len(),
        m.with_data(coord, data).cached(m.slots[i].coord) is Some,
        m.with_data(coord, data).cached(m.slots[j].coord) is None,
    ensures
        m.slots[j].last_access <= m.slots[i].last_access,
{
    lemma_cached(m, i);
    lemma_cached(m, j);
    chunk_cache::lemma_slot_of(m.slots, coord, 0);
    if data.len() <= m.max_bytes {
        let need = data.len() as int;
        let room = m.with_room(need);
        let after = m.with_data(coord, data);
        chunk_cache::lemma_with_room(m, need);
        chunk_cache::lemma_with_data(m, coord, data);
        let n = room.slots.len() as int;
        assert(room.slots.contains(m.slots[i])) by {
            let c = m.slots[i].coord;
            chunk_cache::lemma_slot_of(after.slots, c, 0);
            let k = chunk_cache::slot_of(after.slots, c, 0);
            assert(after.slots[k].coord == c);
            assert(after.slots[n].coord == coord);
            assert(k < n);
            assert(after.slots[k] == room.slots[k]);
            assert(m.slots.contains(room.slots[k]));
            let e = choose|e: int| 0 <= e < m.slots.len() && m.slots[e] == room.slots[k];
            lemma_cached(m, e);
            if e < i {
                assert(m.slots[e].coord != m.slots[i].coord);
            } else if i < e {
                assert(m.slots[i].coord != m.slots[e].coord);
            }
        }
        if room.slots.contains(m.slots[j]) {
            let k = choose|k: int| 0 <= k < room.slots.len() && room.slots[k] == m.slots[j];
            assert(after.slots[k] == m.slots[j]);
            lemma_cached(after, k);
        }
        lemma_room(m, need, i, j);
    }
}

/// Data takes the place of no other data where there is room for it.
pub proof fn law_nothing_leaves_where_there_is_room(
    m: CacheModel,
    coord: Seq<u64>,
    data: Seq<u8>,
    other: Seq<u64>,
)
    requires
        m.wf(),
        m.slots.len() < m.max_slots,
        m.current_bytes + data.len() <= m.max_bytes,
        m.cached(other) is Some,
    ensures
        m.with_data(coord, data).cached(other) == m.cached(other),
{
    let after = m.with_data(coord, data);
    chunk_cache::lemma_slot_of(m.slots, other, 0);
    chunk_cache::lemma_slot_of(m.slots, coord, 0);
    let i = chunk_cache::slot_of(m.slots, other, 0);
    assert(m.with_room(data.len() as int) == m);
    chunk_cache::lemma_with_data(m, coord, data);
    assert(after.slots[i].coord == other && after.slots[i].data == m.slots[i].data);
    lemma_cached(after, i);
}

proof fn lemma_last_left(m: CacheModel, need: int) -> (j: int)
    requires
        m.wf(),
        0 <= need <= m.max_bytes,
        m.with_room(need).slots.len() < m.slots.len(),
    ensures
        0 <= j < m.slots.len(),
        !m.with_room(need).slots.contains(m.slots[j]),
        m.with_room(need).slots.len() + 1 >= m.max_slots || m.with_room(need).current_bytes
            + m.slots[j].data.len() + need > m.max_bytes,
    decreases m.slots.len(),
{
    let n = m.slots.len() as int;
    let o = chunk_cache::oldest(m.slots, n);
    lemma_oldest_is_least(m.slots, n, 0);
    chunk_cache::lemma_without_oldest(m);
    let next = m.without_oldest();
    chunk_cache::lemma_with_room(next, need);
    let room = m.with_room(need);
    assert(room == next.with_room(need));
    if room.slots.len() < next.slots.len() {
        let k = lemma_last_left(next, need);
        if k == o {
            n - 1
        } else {
            k
        }
    } else {
        assert(room == next) by {
            if next.slots.len() > 0 && (next.slots.len() >= next.max_slots || next.current_bytes
                + need > next.max_bytes) {
                chunk_cache::lemma_without_oldest(next);
                chunk_cache::lemma_with_room(next.without_oldest(), need);
            }
        }
        assert forall|k: int| 0 <= k < next.slots.len() implies next.slots[k] != m.slots[o] by {
            if k == o {
                assert(m.slots[o].coord != m.slots[n - 1].coord);
            } else if k < o {
                assert(m.slots[k].coord != m.slots[o].coord);
            } else {
                assert(m.slots[o].coord != m.slots[k].coord);
            }
        }
        o
    }
}

/// No more data leaves than is needed: one of the chunks that left would, had it stayed, have left
/// no room.
pub proof fn law_no_more_leave_than_needed(m: CacheModel, need: int)
    requires
        m.wf(),
        0 <= need <= m.max_bytes,
        m.with_room(need).slots.len() < m.slots.len(),
    ensures
        exists|j: int|
            0 <= j < m.slots.len() && !m.with_room(need).slots.contains(#[trigger] m.slots[j]) && (
            m.with_room(need).slots.len() + 1 >= m.max_slots || m.with_room(need).current_bytes
                + m.slots[j].data.len() + need > m.max_bytes),
{
    let j = lemma_last_left(m, need);
    assert(!m.with_room(need).slots.contains(m.slots[j]));
}

/// What is read is the newest in the cache.
pub proof fn law_what_is_read_is_newest(m: CacheModel, coord: Seq<u64>, i: int, j: int)
    requires
        m.wf(),
        m.tick < u64::MAX,
        forall|k: int| 0 <= k < m.slots.len() ==> (#[trigger] m.slots[k]).last_access <= m.tick,
        0 <= i < m.slots.len(),
        0 <= j < m.slots.len(),
        i != j,
        m.slots[i].coord == coord,
    ensures
        m.read(coord).slots.len() == m.slots.len(),
        m.read(coord).slots[i].last_access > m.read(coord).slots[j].last_access,
        m.read(coord).slots[j] == m.slots[j],
        m.read(coord).slots[i].last_access <= m.read(coord).tick,
{
    chunk_cache::lemma_slot_of(m.slots, coord, 0);
    let k = chunk_cache::slot_of(m.slots, coord, 0);
    if k < i {
        assert(m.slots[k].coord != m.slots[i].coord);
    } else if i < k {
        assert(m.slots[i].coord != coord);
    }
}

/// Whether two coordinates agree on the first `n` axes but for axis `e`.
pub open spec fn agree_but(a: Seq<u64>, b: Seq<u64>, n: int, e: int) -> bool {
    forall|j: int| 0 <= j < n && j != e ==> #[trigger] a[j] == b[j]
}

proof fn lemma_no_change(a: Seq<u64>, b: Seq<u64>, n: int)
    ensures
        chunk_cache::changes(a, b, n) == 0 <==> (forall|j: int|
            0 <= j < n ==> #[trigger] a[j] == b[j]),
    decreases n,
{
    if n > 0 {
        lemma_no_change(a, b, n - 1);
    }
}

proof fn lemma_one_change(a: Seq<u64>, b: Seq<u64>, n: int)
    ensures
        chunk_cache::changes(a, b, n) <= 1 <==> (exists|e: int| agree_but(a, b, n, e)),
    decreases n,
{
    if n > 0 {
        lemma_one_change(a, b, n - 1);
        lemma_no_change(a, b, n - 1);
        let before = n - 1;
        if chunk_cache::changes(a, b, n) <= 1 {
            if a[n - 1] != b[n - 1] {
                assert(agree_but(a, b, n, n - 1));
            } else {
                let e = choose|e: int| agree_but(a, b, before, e);
                assert(agree_but(a, b, n, e));
            }
        }
        if exists|e: int| agree_but(a, b, n, e) {
            let e = choose|e: int| agree_but(a, b, n, e);
            assert(agree_but(a, b, n - 1, e));
            if a[n - 1] != b[n - 1] {
                assert(e == n - 1);
            }
        }
    } else {
        assert(agree_but(a, b, n, 0));
    }
}

/// An access is counted as sequential where it differs from the last one along one axis at most,
/// and as random otherwise. The first access counts as neither.
pub proof fn law_sequential_accesses(m: CacheModel, coord: Seq<u64>)
    requires
        m.stats.sequential_count < u64::MAX,
        m.stats.random_count < u64::MAX,
        m.last_coord matches Some(prev) ==> prev.len() == coord.len(),
    ensures
        m.read(coord).last_coord == Some(coord),
        m.last_coord is None ==> m.read(coord).stats == m.stats,
        m.last_coord matches Some(prev) ==> {
            let near = exists|e: int| agree_but(prev, coord, coord.len() as int, e);
            &&& m.read(coord).stats.sequential_count == m.stats.sequential_count + if near {
                1int
            } else {
                0
            }
            &&& m.read(coord).stats.random_count == m.stats.random_count + if near {
                0int
            } else {
                1
            }
        },
{
    if let Some(prev) = m.last_coord {
        lemma_one_change(prev, coord, coord.len() as int);
    }
}

// ---- The index ----

/// What an index finds for a coordinate.
pub open spec fn looked_up(index: Seq<(Seq<u64>, ChunkInfoModel)>, coord: Seq<u64>) -> Option<
    ChunkInfoModel,
> {
    let i = chunk_cache::entry_of(index, coord, 0);
    if i < index.len() {
        Some(index[i].1)
    } else {
        None
    }
}

proof fn lemma_entry_is(index: Seq<(Seq<u64>, ChunkInfoModel)>, coord: Seq<u64>, from: int, at: int)
    requires
        0 <= from <= at <= index.len(),
        at < index.len() ==> index[at].0 == coord,
        forall|j: int| from <= j < at ==> (#[trigger] index[j]).0 != coord,
    ensures
        chunk_cache::entry_of(index, coord, from) == at,
    decreases at - from,
{
    if from < at {
        assert(index[from].0 != coord);
        lemma_entry_is(index, coord, from + 1, at);
    }
}

proof fn lemma_with_entry(
    index: Seq<(Seq<u64>, ChunkInfoModel)>,
    coord: Seq<u64>,
    info: ChunkInfoModel,
    other: Seq<u64>,
)
    ensures
        looked_up(chunk_cache::with_entry(index, coord, info), other) == if other == coord {
            Some(info)
        } else {
            looked_up(index, other)
        },
{
    let all = chunk_cache::with_entry(index, coord, info);
    let i = chunk_cache::entry_of(index, coord, 0);
    let k = chunk_cache::entry_of(index, other, 0);
    chunk_cache::lemma_entry_of(index, coord, 0);
    chunk_cache::lemma_entry_of(index, other, 0);
    if other == coord {
        assert forall|j: int| 0 <= j < i implies (#[trigger] all[j]).0 != coord by {
            assert(all[j] == index[j]);
        }
        lemma_entry_is(all, coord, 0, i);
    } else {
        let at = if k < index.len() {
            k
        } else {
            all.len() as int
        };
        assert forall|j: int| 0 <= j < at implies (#[trigger] all[j]).0 != other by {
            if j < index.len() && j != i {
                assert(all[j] == index[j]);
            }
        }
        lemma_entry_is(all, other, 0, at);
    }
}

/// An index finds for the coordinate of a chunk that chunk, or the last one of several with the same
/// coordinate.
pub proof fn law_index_finds_each_chunk(chunks: Seq<ChunkInfoModel>, rank: int, n: int, k: int)
    requires
        0 <= k < n <= chunks.len(),
        forall|j: int|
            k < j < n ==> chunk_cache::spatial((#[trigger] chunks[j]).offsets, rank)
                != chunk_cache::spatial(chunks[k].offsets, rank),
    ensures
        looked_up(
            chunk_cache::index_of(chunks, rank, n),
            chunk_cache::spatial(chunks[k].offsets, rank),
        ) == Some(chunks[k]),
    decreases n,
{
    let c = chunk_cache::spatial(chunks[k].offsets, rank);
    let last = chunk_cache::spatial(chunks[n - 1].offsets, rank);
    lemma_with_entry(chunk_cache::index_of(chunks, rank, n - 1), last, chunks[n - 1], c);
    if k < n - 1 {
        assert(chunk_cache::spatial(chunks[n - 1].offsets, rank) != c);
        law_index_finds_each_chunk(chunks, rank, n - 1, k);
    }
}

/// An index finds nothing for a coordinate that no chunk has.
pub proof fn law_index_finds_no_other(
    chunks: Seq<ChunkInfoModel>,
    rank: int,
    n: int,
    coord: Seq<u64>,
)
    requires
        0 <= n <= chunks.len(),
        forall|j: int|
            0 <= j < n ==> chunk_cache::spatial((#[trigger] chunks[j]).offsets, rank) != coord,
    ensures
        looked_up(chunk_cache::index_of(chunks, rank, n), coord) is None,
    decreases n,
{
    if n > 0 {
        let last = chunk_cache::spatial(chunks[n - 1].offsets, rank);
        assert(last != coord);
        lemma_with_entry(chunk_cache::index_of(chunks, rank, n - 1), last, chunks[n - 1], coord);
        law_index_finds_no_other(chunks, rank, n - 1, coord);
    }
}

proof fn lemma_known(m: CacheModel, a: Seq<Seq<u64>>, b: Seq<Seq<u64>>, n: int)
    requires
        0 <= n <= b.len(),
    ensures
        m.known(a + b, a.len() + n) == m.known(a, a.len() as int) + m.known(b, n),
    decreases n,
{
    if n > 0 {
        lemma_known(m, a, b, n - 1);
        assert((a + b)[a.len() + n - 1] == b[n - 1]);
    } else {
        lemma_known_front(m, a, b, a.len() as int);
    }
}

proof fn lemma_known_front(m: CacheModel, a: Seq<Seq<u64>>, b: Seq<Seq<u64>>, n: int)
    requires
        0 <= n <= a.len(),
    ensures
        m.known(a + b, n) == m.known(a, n),
    decreases n,
{
    if n > 0 {
        lemma_known_front(m, a, b, n - 1);
        assert((a + b)[n - 1] == a[n - 1]);
    }
}

/// A hint counts the coordinates for which the index finds a chunk: those of two lists are as many
/// as those of both together, and one counts if and only if the index finds a chunk for it. It
/// changes nothing else.
pub proof fn law_hint_counts_what_is_indexed(
    m: CacheModel,
    a: Seq<Seq<u64>>,
    b: Seq<Seq<u64>>,
    coord: Seq<u64>,
)
    requires
        m.stats.sequential_count + m.known(a, a.len() as int) <= u64::MAX,
    ensures
        m.known(a + b, (a + b).len() as int) == m.known(a, a.len() as int) + m.known(
            b,
            b.len() as int,
        ),
        m.known(seq![coord], 1) == if m.index is Some && looked_up(m.index->0, coord) is Some {
            1nat
        } else {
            0
        },
        m.hinted(a).stats.sequential_count == m.stats.sequential_count + m.known(
            a,
            a.len() as int,
        ),
        m.hinted(a).stats.random_count == m.stats.random_count,
        m.hinted(a).slots == m.slots,
        m.hinted(a).index == m.index,
        m.hinted(a).last_coord == m.last_coord,
{
    lemma_known(m, a, b, b.len() as int);
    reveal_with_fuel(CacheModel::known, 2);
}

/// A size is rounded up to the next multiple of 64, and by less than that.
pub proof fn law_sizes_are_rounded_up_to_lines(n: int)
    requires
        n >= 0,
    ensures
        chunk_cache::aligned(n) % 64 == 0,
        n <= chunk_cache::aligned(n) < n + 64,
{
}

// ---- Sweeps ----

/// Accesses that start at `base` and go on along one axis with equal steps.
pub open spec fn straight(base: Seq<u64>, axis: int, step: int, n: nat) -> Seq<Seq<u64>> {
    Seq::new(n, |i: int| base.update(axis, (base[axis] + step * i) as u64))
}

/// Whether the first `n` places of a straight sweep are coordinates.
pub open spec fn on_axis(start: u64, step: int, n: int) -> bool {
    forall|i: int| 0 <= i < n ==> 0 <= start + #[trigger] (step * i) <= i64::MAX
}

proof fn lemma_changes(base: Seq<u64>, axis: int, step: int, len: nat, d: int, n: int)
    requires
        0 <= axis < base.len(),
        0 <= d < base.len(),
        step != 0,
        0 <= n < len,
        on_axis(base[axis], step, len as int),
    ensures
        sweep::changes_along(straight(base, axis, step, len), d, n) == if d == axis {
            n
        } else {
            0
        },
    decreases n,
{
    if n > 0 {
        let h = straight(base, axis, step, len);
        lemma_changes(base, axis, step, len, d, n - 1);
        assert(0 <= base[axis] + step * n <= i64::MAX);
        assert(0 <= base[axis] + step * (n - 1) <= i64::MAX);
        assert(step * n == step * (n - 1) + step) by (nonlinear_arith);
        assert(h[n] == base.update(axis, (base[axis] + step * n) as u64));
        assert(h[n - 1] == base.update(axis, (base[axis] + step * (n - 1)) as u64));
    }
}

proof fn lemma_busiest_axis(base: Seq<u64>, axis: int, step: int, len: nat, n: int)
    requires
        0 <= axis < n <= base.len(),
        step != 0,
        len >= 3,
        on_axis(base[axis], step, len as int),
    ensures
        sweep::busiest(straight(base, axis, step, len), n) == axis,
    decreases n,
{
    let h = straight(base, axis, step, len);
    if n > 1 {
        lemma_changes(base, axis, step, len, n - 1, len - 1);
        if axis < n - 1 {
            lemma_busiest_axis(base, axis, step, len, n - 1);
            lemma_changes(base, axis, step, len, axis, len - 1);
        } else {
            lemma_busiest_in(h, n - 1);
            lemma_changes(base, axis, step, len, sweep::busiest(h, n - 1), len - 1);
        }
    }
}

proof fn lemma_busiest_in(h: Seq<Seq<u64>>, n: int)
    requires
        n >= 1,
    ensures
        0 <= sweep::busiest(h, n) < n,
    decreases n,
{
    if n > 1 {
        lemma_busiest_in(h, n - 1);
    }
}

proof fn lemma_no_other(base: Seq<u64>, axis: int, step: int, len: nat, n: int)
    requires
        0 <= axis < base.len(),
        0 <= n <= base.len(),
        step != 0,
        len >= 3,
        on_axis(base[axis], step, len as int),
    ensures
        sweep::other_activity(straight(base, axis, step, len), axis, n) == 0,
    decreases n,
{
    if n > 0 {
        lemma_no_other(base, axis, step, len, n - 1);
        lemma_changes(base, axis, step, len, n - 1, len - 1);
    }
}

proof fn lemma_predictions(last: Seq<u64>, d: int, step: int, i: int, n: int)
    requires
        0 <= d < last.len(),
        last[d] <= i64::MAX,
        1 <= i <= n + 1,
        forall|j: int| 1 <= j <= n ==> 0 <= last[d] + #[trigger] (step * j) <= i64::MAX,
    ensures
        sweep::predictions(last, d, step, i, n) == Seq::new(
            (n + 1 - i) as nat,
            |j: int| last.update(d, (last[d] + step * (i + j)) as u64),
        ),
    decreases n + 1 - i,
{
    if i <= n {
        lemma_predictions(last, d, step, i + 1, n);
        assert(0 <= last[d] + step * i <= i64::MAX);
        let rest = sweep::predictions(last, d, step, i + 1, n);
        let all = Seq::new(
            (n + 1 - i) as nat,
            |j: int| last.update(d, (last[d] + step * (i + j)) as u64),
        );
        let first = seq![last.update(d, (sweep::signed(last[d]) + step * i) as u64)];
        assert forall|j: int| 0 <= j < all.len() implies (first + rest)[j] == all[j] by {
            if j > 0 {
                assert(rest[j - 1] == last.update(d, (last[d] + step * (i + 1 + (j - 1))) as u64));
            }
        }
        assert(first + rest =~= all);
    } else {
        assert(sweep::predictions(last, d, step, i, n) =~= Seq::new(
            (n + 1 - i) as nat,
            |j: int| last.update(d, (last[d] + step * (i + j)) as u64),
        ));
    }
}

/// A sweep along one axis with equal steps, forward or backward, is recognised from the third access
/// on, named by its axis, and continued: the next accesses are foreseen in their order.
#[verifier::spinoff_prover]
#[verifier::rlimit(40)]
pub proof fn law_straight_sweep_is_continued(
    s: SweepModel,
    coord: Seq<u64>,
    base: Seq<u64>,
    axis: int,
    step: int,
    ndims: int,
    len: nat,
)
    requires
        len >= 3,
        step != 0,
        0 <= axis < ndims <= base.len(),
        on_axis(base[axis], step, len + s.prefetch_count),
        s.next_history(coord) == straight(base, axis, step, len),
    ensures
        s.recorded(coord, ndims).direction == if axis == ndims - 1 {
            "row_major"
        } else if axis == 0 {
            "column_major"
        } else {
            "slice_major"
        },
        s.recorded(coord, ndims).predicted_next == Seq::new(
            s.prefetch_count as nat,
            |j: int| base.update(axis, (base[axis] + step * (len + j)) as u64),
        ),
        s.recorded(coord, ndims).history == straight(base, axis, step, len),
{
    let h = straight(base, axis, step, len);
    assert(on_axis(base[axis], step, len as int)) by {
        assert forall|i: int| 0 <= i < len implies 0 <= base[axis] + #[trigger] (step * i)
            <= i64::MAX by {
            assert(0 <= base[axis] + step * i <= i64::MAX);
        }
    }
    lemma_busiest_axis(base, axis, step, len, ndims);
    lemma_changes(base, axis, step, len, axis, len - 1);
    lemma_no_other(base, axis, step, len, ndims);
    assert forall|i: int| 0 <= i < h.len() implies (#[trigger] h[i]).len() >= ndims by {
        assert(h[i] == base.update(axis, (base[axis] + step * i) as u64));
    }
    assert(SweepModel::sweeps(h, ndims));
    let e = len - 1;
    assert(0 <= base[axis] + step * 0 <= i64::MAX);
    assert(0 <= base[axis] + step * e <= i64::MAX);
    assert(step * 0 == 0);
    assert(h[0] == base.update(axis, (base[axis] + step * 0) as u64));
    assert(h.last() == base.update(axis, (base[axis] + step * e) as u64));
    assert(sweep::average_step(h, axis) == step) by {
        let total = sweep::signed(h.last()[axis]) - sweep::signed(h[0][axis]);
        assert(total == step * e);
        assert(sweep::activity(h, axis) == e);
        if step > 0 {
            assert(step * e >= 0) by (nonlinear_arith)
                requires
                    step > 0,
                    e > 0,
            ;
            vstd::arithmetic::div_mod::lemma_div_multiples_vanish(step, e);
            assert(step * e == e * step) by (nonlinear_arith);
        } else {
            assert(step * e < 0) by (nonlinear_arith)
                requires
                    step < 0,
                    e > 0,
            ;
            vstd::arithmetic::div_mod::lemma_div_multiples_vanish(-step, e);
            assert(-(step * e) == e * (-step)) by (nonlinear_arith);
        }
    }
    let last = h.last();
    let n = s.prefetch_count as int;
    assert forall|j: int| 1 <= j <= n implies 0 <= last[axis] + #[trigger] (step * j)
        <= i64::MAX by {
        assert(0 <= base[axis] + step * (e + j) <= i64::MAX);
        assert(step * (e + j) == step * e + step * j) by (nonlinear_arith);
    }
    lemma_predictions(last, axis, step, 1, n);
    let found = s.recorded(coord, ndims).predicted_next;
    assert forall|j: int| 0 <= j < n implies found[j] == base.update(
        axis,
        (base[axis] + step * (len + j)) as u64,
    ) by {
        assert(step * e + step * (1 + j) == step * (len + j)) by (nonlinear_arith)
            requires
                e == len - 1,
        ;
        assert(found[j] == last.update(axis, (last[axis] + step * (1 + j)) as u64));
        assert(found[j] =~= base.update(axis, (base[axis] + step * (len + j)) as u64));
    }
    assert(found =~= Seq::new(
        s.prefetch_count as nat,
        |j: int| base.update(axis, (base[axis] + step * (len + j)) as u64),
    ));
}

proof fn lemma_busiest_is_most(h: Seq<Seq<u64>>, n: int, d: int)
    requires
        0 <= d < n,
    ensures
        0 <= sweep::busiest(h, n) < n,
        sweep::activity(h, d) <= sweep::activity(h, sweep::busiest(h, n)),
        d > sweep::busiest(h, n) ==> sweep::activity(h, d) < sweep::activity(
            h,
            sweep::busiest(h, n),
        ),
    decreases n,
{
    if n > 1 {
        lemma_busiest_in(h, n - 1);
        if d < n - 1 {
            lemma_busiest_is_most(h, n - 1, d);
        }
    }
}

proof fn lemma_others(h: Seq<Seq<u64>>, best: int, n: int, d: int)
    requires
        0 <= d < n,
        d != best,
    ensures
        sweep::activity(h, d) <= sweep::other_activity(h, best, n),
    decreases n,
{
    if d < n - 1 {
        lemma_others(h, best, n - 1, d);
    }
}

/// A sweep goes along the axis on which the accesses change most often, or the last one of several
/// such. They change on it in at least half as many steps as there are accesses, and at least twice
/// as often as on any other axis.
pub proof fn law_sweep_goes_along_the_busiest_axis(
    s: SweepModel,
    coord: Seq<u64>,
    ndims: int,
    d: int,
)
    requires
        SweepModel::sweeps(s.next_history(coord), ndims),
        0 <= d < ndims,
    ensures
        ({
            let h = s.next_history(coord);
            let best = sweep::busiest(h, ndims);
            &&& 0 <= best < ndims
            &&& sweep::activity(h, d) <= sweep::activity(h, best)
            &&& d > best ==> sweep::activity(h, d) < sweep::activity(h, best)
            &&& d != best ==> 2 * sweep::activity(h, d) <= sweep::activity(h, best)
            &&& 2 * sweep::activity(h, best) + 1 >= h.len()
            &&& h.len() >= 3
        }),
{
    let h = s.next_history(coord);
    let best = sweep::busiest(h, ndims);
    lemma_busiest_is_most(h, ndims, d);
    if d != best {
        lemma_others(h, best, ndims, d);
    }
}

/// Where the accesses change on two axes equally often, and nowhere more often, there is no sweep,
/// and nothing is foreseen.
pub proof fn law_two_busy_axes_are_no_sweep(
    s: SweepModel,
    coord: Seq<u64>,
    ndims: int,
    a: int,
    b: int,
)
    requires
        0 <= a < ndims,
        0 <= b < ndims,
        a != b,
        sweep::activity(s.next_history(coord), a) == sweep::activity(s.next_history(coord), b) > 0,
        forall|d: int|
            0 <= d < ndims ==> #[trigger] sweep::activity(s.next_history(coord), d)
                <= sweep::activity(s.next_history(coord), a),
    ensures
        s.recorded(coord, ndims).direction == "random",
        s.recorded(coord, ndims).predicted_next.len() == 0,
{
    let h = s.next_history(coord);
    let best = sweep::busiest(h, ndims);
    lemma_busiest_is_most(h, ndims, a);
    assert(sweep::activity(h, best) <= sweep::activity(h, a));
    let other = if best == a {
        b
    } else {
        a
    };
    lemma_others(h, best, ndims, other);
}

proof fn lemma_changes_join(g: Seq<Seq<u64>>, x: Seq<u64>, d: int, n: int)
    requires
        0 <= n < g.len(),
    ensures
        sweep::changes_along(g.push(x), d, n) == sweep::changes_along(g, d, n),
    decreases n,
{
    if n > 0 {
        lemma_changes_join(g, x, d, n - 1);
        assert(g.push(x)[n] == g[n] && g.push(x)[n - 1] == g[n - 1]);
    }
}

/// One more access adds a change on each axis on which it differs from the access before it.
pub proof fn law_changes_are_counted(g: Seq<Seq<u64>>, x: Seq<u64>, d: int)
    requires
        g.len() > 0,
    ensures
        sweep::activity(g.push(x), d) == sweep::activity(g, d) + if g.last()[d] != x[d] {
            1nat
        } else {
            0
        },
        sweep::activity(seq![x], d) == 0,
{
    lemma_changes_join(g, x, d, g.len() - 1);
    assert(g.push(x)[g.len() as int] == x && g.push(x)[g.len() - 1] == g.last());
}

/// Nothing is foreseen after fewer than three accesses.
pub proof fn law_two_accesses_are_no_sweep(s: SweepModel, coord: Seq<u64>, ndims: int)
    requires
        s.next_history(coord).len() < 3,
    ensures
        s.recorded(coord, ndims).direction == "random",
        s.recorded(coord, ndims).predicted_next.len() == 0,
{
}

/// The window holds the latest accesses: those before, but for the oldest one where the window is
/// full, and the new one.
pub proof fn law_window_holds_the_latest(s: SweepModel, coord: Seq<u64>, ndims: int, i: int)
    requires
        s.window_size > 0,
        s.history.len() <= s.window_size,
        0 <= i < s.recorded(coord, ndims).history.len(),
    ensures
        s.recorded(coord, ndims).history.len() == if s.history.len() < s.window_size {
            s.history.len() + 1
        } else {
            s.window_size as nat
        },
        s.recorded(coord, ndims).history[i] == s.history.push(coord)[s.history.len() + 1
            - s.recorded(coord, ndims).history.len() + i],
{
}

} // verus!
