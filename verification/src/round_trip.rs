//! Laws that tie reading to writing, and reading through a cache to reading without one.

use vstd::prelude::*;
use vstd::arithmetic::div_mod::*;
use crate::chunk_cache::{CacheModel, ChunkInfoModel};
use crate::chunked_read::ChunkedModel;
use crate::data_layout::DataLayoutModel;
use crate::dataspace::DataspaceModel;
use crate::error::ErrorModel;
use crate::filter_pipeline::PipelineModel;
use crate::sweep::SweepModel;

verus! {

// ---- Caches ----

/// Whether no two chunks have the same coordinate.
pub open spec fn distinct_coords(m: ChunkedModel, chunks: Seq<ChunkInfoModel>) -> bool {
    forall|i: int, j: int|
        0 <= i < j < chunks.len() ==> m.coord(#[trigger] chunks[i]) != m.coord(#[trigger] chunks[j])
}

/// Whether the data is that of the chunk with the given coordinate.
pub open spec fn is_data_of(
    m: ChunkedModel,
    d: Seq<u8>,
    pipeline: Option<PipelineModel>,
    chunks: Seq<ChunkInfoModel>,
    coord: Seq<u64>,
    data: Seq<u8>,
) -> bool {
    exists|j: int|
        0 <= j < chunks.len() && m.coord(#[trigger] chunks[j]) == coord
            && crate::chunked_read::data_of(d, chunks[j], pipeline, m.size) == Ok::<
            Seq<u8>,
            ErrorModel,
        >(data)
}

/// Whether the cache can take what it is offered, and holds nothing but what the file holds: its
/// index, if it has one, is that of the chunks, and the data in each slot is that of its chunk.
pub open spec fn is_coherent(
    m: ChunkedModel,
    d: Seq<u8>,
    pipeline: Option<PipelineModel>,
    chunks: Seq<ChunkInfoModel>,
    c: CacheModel,
) -> bool {
    &&& c.wf()
    &&& m.admitted(d, chunks, pipeline, c)
    &&& c.index matches Some(index) ==> index == crate::chunk_cache::index_of(
        chunks,
        m.rank(),
        chunks.len() as int,
    )
    &&& forall|i: int|
        0 <= i < c.slots.len() ==> is_data_of(
            m,
            d,
            pipeline,
            chunks,
            (#[trigger] c.slots[i]).coord,
            c.slots[i].data,
        )
}

/// The index of chunks with distinct coordinates lists them as they are.
proof fn lemma_index_of_distinct(m: ChunkedModel, chunks: Seq<ChunkInfoModel>, n: int)
    requires
        distinct_coords(m, chunks),
        0 <= n <= chunks.len(),
    ensures
        ({
            let index = crate::chunk_cache::index_of(chunks, m.rank(), n);
            &&& index.len() == n
            &&& forall|i: int|
                0 <= i < n ==> (#[trigger] index[i]).0 == m.coord(chunks[i]) && index[i].1
                    == chunks[i]
        }),
    decreases n,
{
    if n > 0 {
        lemma_index_of_distinct(m, chunks, n - 1);
        let before = crate::chunk_cache::index_of(chunks, m.rank(), n - 1);
        let coord = m.coord(chunks[n - 1]);
        crate::chunk_cache::lemma_entry_of(before, coord, 0);
        let e = crate::chunk_cache::entry_of(before, coord, 0);
        if e < before.len() {
            assert(before[e].0 == m.coord(chunks[e]));
            assert(m.coord(chunks[e]) != m.coord(chunks[n - 1]));
        }
    }
}

/// One step through a coherent cache places the data that the file holds, and keeps the cache
/// coherent.
proof fn lemma_coherent_step(
    m: ChunkedModel,
    d: Seq<u8>,
    pipeline: Option<PipelineModel>,
    chunks: Seq<ChunkInfoModel>,
    c: CacheModel,
    k: int,
    out: Seq<u8>,
)
    requires
        distinct_coords(m, chunks),
        is_coherent(m, d, pipeline, chunks, c),
        0 <= k < chunks.len(),
        m.all_data(d, chunks, pipeline, k) is Ok,
    ensures
        ({
            let (r, after) = m.cached_step(d, chunks[k], pipeline, out, c);
            &&& is_coherent(m, d, pipeline, chunks, after)
            &&& after.index == c.index
            &&& r == match crate::chunked_read::data_of(d, chunks[k], pipeline, m.size) {
                Ok(data) => Ok(m.placed(out, chunks[k], data)),
                Err(e) => Err(e),
            }
        }),
{
    let coord = m.coord(chunks[k]);
    let c1 = c.read(coord);
    crate::chunk_cache::lemma_slot_of(c.slots, coord, 0);
    crate::chunk_cache::lemma_touched(c, coord);
    assert(is_coherent(m, d, pipeline, chunks, c1)) by {
        assert forall|i: int| 0 <= i < c1.slots.len() implies is_data_of(
            m,
            d,
            pipeline,
            chunks,
            (#[trigger] c1.slots[i]).coord,
            c1.slots[i].data,
        ) by {
            assert(c.touched(coord).slots[i].coord == c.slots[i].coord);
            assert(is_data_of(
                m,
                d,
                pipeline,
                chunks,
                c.slots[i].coord,
                c.slots[i].data,
            ));
        }
    }
    match c.cached(coord) {
        Some(data) => {
            let i = crate::chunk_cache::slot_of(c.slots, coord, 0);
            assert(is_data_of(m, d, pipeline, chunks, c.slots[i].coord, c.slots[i].data));
            let j = choose|j: int|
                0 <= j < chunks.len() && m.coord(#[trigger] chunks[j]) == coord
                    && crate::chunked_read::data_of(d, chunks[j], pipeline, m.size) == Ok::<
                    Seq<u8>,
                    ErrorModel,
                >(data);
            if j < k {
                assert(m.coord(chunks[j]) != m.coord(chunks[k]));
            } else if k < j {
                assert(m.coord(chunks[k]) != m.coord(chunks[j]));
            }
        },
        None => {
            if let Ok(data) = crate::chunked_read::data_of(d, chunks[k], pipeline, m.size) {
                crate::chunk_cache::lemma_with_data(c1, coord, data);
                let c2 = c1.with_data(coord, data);
                if data.len() <= c1.max_bytes {
                    crate::chunk_cache::lemma_with_room(c1, data.len() as int);
                }
                assert forall|i: int| 0 <= i < c2.slots.len() implies is_data_of(
                    m,
                    d,
                    pipeline,
                    chunks,
                    (#[trigger] c2.slots[i]).coord,
                    c2.slots[i].data,
                ) by {
                    let s = c2.slots[i];
                    if s.coord == coord && s.data == data {
                        assert(m.coord(chunks[k]) == coord);
                    } else {
                        let j = choose|j: int|
                            0 <= j < c1.slots.len() && (#[trigger] c1.slots[j]).coord == s.coord
                                && c1.slots[j].data == s.data;
                        assert(is_data_of(
                            m,
                            d,
                            pipeline,
                            chunks,
                            c1.slots[j].coord,
                            c1.slots[j].data,
                        ));
                    }
                }
            }
        },
    }
}

/// What all steps through a coherent cache give.
proof fn lemma_coherent_steps(
    m: ChunkedModel,
    d: Seq<u8>,
    pipeline: Option<PipelineModel>,
    chunks: Seq<ChunkInfoModel>,
    c: CacheModel,
    out: Seq<u8>,
    n: int,
)
    requires
        distinct_coords(m, chunks),
        is_coherent(m, d, pipeline, chunks, c),
        0 <= n <= chunks.len(),
    ensures
        ({
            let (r, after) = m.cached_steps(d, chunks, pipeline, out, c, n);
            &&& is_coherent(m, d, pipeline, chunks, after)
            &&& r == match m.all_data(d, chunks, pipeline, n) {
                Ok(data) => Ok(m.assembled(out, chunks, data, n)),
                Err(e) => Err(e),
            }
        }),
    decreases n,
{
    if n > 0 {
        lemma_coherent_steps(m, d, pipeline, chunks, c, out, n - 1);
        let (r, c1) = m.cached_steps(d, chunks, pipeline, out, c, n - 1);
        if let Ok(done) = r {
            lemma_coherent_step(m, d, pipeline, chunks, c1, n - 1, done);
            lemma_assembled_prefix(m, d, pipeline, chunks, out, n);
        }
    }
}

/// Assembling the first chunks does not depend on the data of later ones.
proof fn lemma_assembled_prefix(
    m: ChunkedModel,
    d: Seq<u8>,
    pipeline: Option<PipelineModel>,
    chunks: Seq<ChunkInfoModel>,
    out: Seq<u8>,
    n: int,
)
    requires
        0 < n <= chunks.len(),
    ensures
        m.all_data(d, chunks, pipeline, n) matches Ok(data) ==> ({
            &&& m.all_data(d, chunks, pipeline, n - 1) matches Ok(before)
            &&& data == before.push(data.last())
            &&& data.len() == n
            &&& m.assembled(out, chunks, data, n - 1) == m.assembled(out, chunks, before, n - 1)
        }),
{
    if let Ok(data) = m.all_data(d, chunks, pipeline, n) {
        let before = m.all_data(d, chunks, pipeline, n - 1)->Ok_0;
        lemma_all_data_len(m, d, chunks, pipeline, n - 1);
        lemma_assembled_agree(m, chunks, data, before, out, n - 1);
    }
}

proof fn lemma_all_data_len(
    m: ChunkedModel,
    d: Seq<u8>,
    chunks: Seq<ChunkInfoModel>,
    pipeline: Option<PipelineModel>,
    n: int,
)
    requires
        n >= 0,
    ensures
        m.all_data(d, chunks, pipeline, n) matches Ok(data) ==> data.len() == n,
    decreases n,
{
    if n > 0 {
        lemma_all_data_len(m, d, chunks, pipeline, n - 1);
    }
}

proof fn lemma_assembled_agree(
    m: ChunkedModel,
    chunks: Seq<ChunkInfoModel>,
    a: Seq<Seq<u8>>,
    b: Seq<Seq<u8>>,
    out: Seq<u8>,
    n: int,
)
    requires
        n <= a.len(),
        n <= b.len(),
        forall|i: int| 0 <= i < n ==> a[i] == b[i],
    ensures
        m.assembled(out, chunks, a, n) == m.assembled(out, chunks, b, n),
    decreases n,
{
    if n > 0 {
        lemma_assembled_agree(m, chunks, a, b, out, n - 1);
    }
}

/// Reading through a coherent cache gives what reading without a cache gives, and leaves the cache
/// coherent.
pub proof fn law_cached_read_is_plain_read(
    d: Seq<u8>,
    layout: DataLayoutModel,
    space: DataspaceModel,
    size: u32,
    pipeline: Option<PipelineModel>,
    os: u8,
    ls: u8,
    c: CacheModel,
)
    requires
        crate::chunked_read::chunked_model(layout, space, size, os, ls) matches Ok(m) ==> (m.chunks(
            d,
        ) matches Ok(chunks) ==> distinct_coords(m, chunks) && is_coherent(
            m,
            d,
            pipeline,
            chunks,
            c,
        )),
        crate::chunked_read::chunked_model(layout, space, size, os, ls) matches Ok(m) ==> (m.chunks(
            d,
        ) is Err ==> c.index is None),
    ensures
        ({
            let (r, after) = crate::chunked_read::cached_data(
                d,
                layout,
                space,
                size,
                pipeline,
                os,
                ls,
                c,
            );
            &&& r == crate::chunked_read::chunked_data(d, layout, space, size, pipeline, os, ls)
            &&& crate::chunked_read::chunked_model(layout, space, size, os, ls) matches Ok(m) ==> (
            m.chunks(d) matches Ok(chunks) ==> is_coherent(m, d, pipeline, chunks, after))
        }),
{
    if let Ok(m) = crate::chunked_read::chunked_model(layout, space, size, os, ls) {
        if let Ok(chunks) = m.chunks(d) {
            let n = chunks.len() as int;
            lemma_index_of_distinct(m, chunks, n);
            let c1 = m.indexed(d, c)->Ok_0;
            let out = Seq::new(
                crate::chunked_read::output_size(space, size) as nat,
                |i: int| 0u8,
            );
            assert(crate::chunked_read::listed(c1.index->0) =~= chunks);
            assert(is_coherent(m, d, pipeline, chunks, c1)) by {
                assert forall|i: int| 0 <= i < c1.slots.len() implies is_data_of(
                    m,
                    d,
                    pipeline,
                    chunks,
                    (#[trigger] c1.slots[i]).coord,
                    c1.slots[i].data,
                ) by {
                    assert(is_data_of(
                        m,
                        d,
                        pipeline,
                        chunks,
                        c.slots[i].coord,
                        c.slots[i].data,
                    ));
                }
            }
            lemma_coherent_steps(m, d, pipeline, chunks, c1, out, n);
        }
    }
}

proof fn lemma_swept_steps(
    m: ChunkedModel,
    d: Seq<u8>,
    pipeline: Option<PipelineModel>,
    chunks: Seq<ChunkInfoModel>,
    c: CacheModel,
    s: SweepModel,
    out: Seq<u8>,
    n: int,
)
    requires
        distinct_coords(m, chunks),
        is_coherent(m, d, pipeline, chunks, c),
        0 <= n <= chunks.len(),
    ensures
        ({
            let (r, after, _) = m.swept_steps(d, chunks, pipeline, out, c, s, n);
            &&& is_coherent(m, d, pipeline, chunks, after)
            &&& r == match m.all_data(d, chunks, pipeline, n) {
                Ok(data) => Ok(m.assembled(out, chunks, data, n)),
                Err(e) => Err(e),
            }
        }),
    decreases n,
{
    if n > 0 {
        lemma_swept_steps(m, d, pipeline, chunks, c, s, out, n - 1);
        let (r, c1, s1) = m.swept_steps(d, chunks, pipeline, out, c, s, n - 1);
        if let Ok(done) = r {
            let (c2, s2) = m.swept(m.coord(chunks[n - 1]), c1, s1);
            assert(is_coherent(m, d, pipeline, chunks, c2)) by {
                assert forall|i: int| 0 <= i < c2.slots.len() implies is_data_of(
                    m,
                    d,
                    pipeline,
                    chunks,
                    (#[trigger] c2.slots[i]).coord,
                    c2.slots[i].data,
                ) by {
                    assert(c2.slots[i] == c1.slots[i]);
                    assert(is_data_of(
                        m,
                        d,
                        pipeline,
                        chunks,
                        c1.slots[i].coord,
                        c1.slots[i].data,
                    ));
                }
            }
            lemma_coherent_step(m, d, pipeline, chunks, c2, n - 1, done);
            lemma_assembled_prefix(m, d, pipeline, chunks, out, n);
        }
    }
}

/// Reading through a coherent cache with a sweep context gives what reading without them gives,
/// and leaves the cache coherent.
pub proof fn law_swept_read_is_plain_read(
    d: Seq<u8>,
    layout: DataLayoutModel,
    space: DataspaceModel,
    size: u32,
    pipeline: Option<PipelineModel>,
    os: u8,
    ls: u8,
    c: CacheModel,
    s: SweepModel,
)
    requires
        crate::chunked_read::chunked_model(layout, space, size, os, ls) matches Ok(m) ==> (m.chunks(
            d,
        ) matches Ok(chunks) ==> distinct_coords(m, chunks) && is_coherent(
            m,
            d,
            pipeline,
            chunks,
            c,
        )),
        crate::chunked_read::chunked_model(layout, space, size, os, ls) matches Ok(m) ==> (m.chunks(
            d,
        ) is Err ==> c.index is None),
    ensures
        ({
            let (r, after, _) = crate::chunked_read::swept_data(
                d,
                layout,
                space,
                size,
                pipeline,
                os,
                ls,
                c,
                s,
            );
            &&& r == crate::chunked_read::chunked_data(d, layout, space, size, pipeline, os, ls)
            &&& crate::chunked_read::chunked_model(layout, space, size, os, ls) matches Ok(m) ==> (
            m.chunks(d) matches Ok(chunks) ==> is_coherent(m, d, pipeline, chunks, after))
        }),
{
    if let Ok(m) = crate::chunked_read::chunked_model(layout, space, size, os, ls) {
        if let Ok(chunks) = m.chunks(d) {
            let n = chunks.len() as int;
            lemma_index_of_distinct(m, chunks, n);
            let c1 = m.indexed(d, c)->Ok_0;
            let out = Seq::new(
                crate::chunked_read::output_size(space, size) as nat,
                |i: int| 0u8,
            );
            assert(crate::chunked_read::listed(c1.index->0) =~= chunks);
            assert(is_coherent(m, d, pipeline, chunks, c1)) by {
                assert forall|i: int| 0 <= i < c1.slots.len() implies is_data_of(
                    m,
                    d,
                    pipeline,
                    chunks,
                    (#[trigger] c1.slots[i]).coord,
                    c1.slots[i].data,
                ) by {
                    assert(is_data_of(
                        m,
                        d,
                        pipeline,
                        chunks,
                        c.slots[i].coord,
                        c.slots[i].data,
                    ));
                }
            }
            lemma_swept_steps(m, d, pipeline, chunks, c1, s, out, n);
        }
    }
}

// ---- Splitting and assembling ----

/// What is left of element `p` behind the first `d` axes.
pub open spec fn remainder(p: int, dims: Seq<usize>, d: int) -> int
    decreases d,
{
    if d <= 0 {
        p
    } else {
        remainder(p, dims, d - 1) % crate::grid::tail(dims, d) as int
    }
}

/// The coordinate of element `p` along axis `d`.
pub open spec fn coordinate(p: int, dims: Seq<usize>, d: int) -> int {
    remainder(p, dims, d) / crate::grid::tail(dims, d + 1) as int
}

/// The index, over the first `n` axes, of the chunk that holds element `p`.
pub open spec fn owner(p: int, shape: Seq<u64>, chunk: Seq<u64>, n: int) -> int
    decreases n,
{
    if n <= 0 {
        0
    } else {
        owner(p, shape, chunk, n - 1) * crate::grid::counts_of(shape, chunk)[n - 1] + coordinate(
            p,
            crate::grid::words(shape),
            n - 1,
        ) / chunk[n - 1] as int
    }
}

/// Whether the extents fit in the machine word, and those of a chunk are positive.
pub open spec fn are_extents(shape: Seq<u64>, chunk: Seq<u64>) -> bool {
    &&& chunk.len() == shape.len()
    &&& forall|i: int| 0 <= i < chunk.len() ==> 0 < #[trigger] chunk[i] <= usize::MAX
    &&& forall|i: int| 0 <= i < shape.len() ==> #[trigger] shape[i] <= usize::MAX
}

proof fn lemma_tail_positive(dims: Seq<usize>, d: int)
    requires
        0 <= d <= dims.len(),
        crate::grid::tail(dims, 0) > 0,
    ensures
        crate::grid::tail(dims, d) > 0,
        d < dims.len() ==> dims[d] > 0,
    decreases d,
{
    if d > 0 {
        lemma_tail_positive(dims, d - 1);
        let a = dims[d - 1] as int;
        let b = crate::grid::tail(dims, d) as int;
        assert(b > 0) by (nonlinear_arith)
            requires
                a * b > 0,
                b >= 0,
        ;
    }
    if d < dims.len() {
        let a = dims[d] as int;
        let b = crate::grid::tail(dims, d + 1) as int;
        assert(a > 0) by (nonlinear_arith)
            requires
                a * b > 0,
                a >= 0,
        ;
    }
}

/// The remainder and the coordinate of an element are within their extents.
proof fn lemma_coordinate(p: int, dims: Seq<usize>, d: int)
    requires
        0 <= d <= dims.len(),
        0 <= p < crate::grid::tail(dims, 0),
    ensures
        0 <= remainder(p, dims, d) < crate::grid::tail(dims, d),
        d < dims.len() ==> 0 <= coordinate(p, dims, d) < dims[d],
    decreases d,
{
    lemma_tail_positive(dims, d);
    if d > 0 {
        lemma_coordinate(p, dims, d - 1);
        lemma_mod_bound(remainder(p, dims, d - 1), crate::grid::tail(dims, d) as int);
    }
    if d < dims.len() {
        lemma_tail_positive(dims, d + 1);
        let r = remainder(p, dims, d);
        let t = crate::grid::tail(dims, d + 1) as int;
        let n = dims[d] as int;
        let c = r / t;
        lemma_fundamental_div_mod(r, t);
        lemma_mod_bound(r, t);
        lemma_div_pos_is_pos(r, t);
        assert(c < n) by (nonlinear_arith)
            requires
                r == t * c + r % t,
                r % t >= 0,
                r < n * t,
                t > 0,
        ;
    }
}

/// A coordinate lies in one of the chunks along its axis.
proof fn lemma_chunk_count(g: int, extent: int, chunk: int)
    requires
        0 <= g < extent,
        chunk > 0,
    ensures
        0 <= g / chunk < crate::grid::ceil_div(extent, chunk),
        (g / chunk) * chunk <= g < (g / chunk) * chunk + chunk,
{
    lemma_fundamental_div_mod(g, chunk);
    lemma_mod_bound(g, chunk);
    lemma_div_pos_is_pos(g, chunk);
    crate::grid::lemma_ceil_div(extent, chunk);
    let q = g / chunk;
    let n = crate::grid::ceil_div(extent, chunk);
    assert(q * chunk == chunk * q) by (nonlinear_arith);
    assert(q < n) by (nonlinear_arith)
        requires
            chunk * n >= extent,
            g < extent,
            chunk * q <= g,
            chunk > 0,
    ;
}

/// The owner of an element is one of the chunks, and its offsets are those in front of the
/// coordinates of the element.
proof fn lemma_owner(p: int, shape: Seq<u64>, chunk: Seq<u64>, n: int)
    requires
        are_extents(shape, chunk),
        0 <= n <= shape.len(),
        0 <= p < crate::grid::tail(crate::grid::words(shape), 0),
    ensures
        ({
            let counts = crate::grid::counts_of(shape, chunk);
            let i = owner(p, shape, chunk, n);
            let off = crate::grid::offsets_to(i, counts, chunk, n);
            &&& 0 <= i < crate::dataspace::product(counts, n)
            &&& off.len() == n
            &&& forall|d: int|
                0 <= d < n ==> ({
                    let g = coordinate(p, crate::grid::words(shape), d);
                    #[trigger] off[d] == (g / chunk[d] as int) * chunk[d]
                })
        }),
    decreases n,
{
    let dims = crate::grid::words(shape);
    let counts = crate::grid::counts_of(shape, chunk);
    if n > 0 {
        lemma_owner(p, shape, chunk, n - 1);
        lemma_coordinate(p, dims, n - 1);
        assert(0 < chunk[n - 1] <= usize::MAX && shape[n - 1] <= usize::MAX);
        let g = coordinate(p, dims, n - 1);
        let ch = chunk[n - 1] as int;
        lemma_chunk_count(g, shape[n - 1] as int, ch);
        crate::grid::lemma_ceil_div(shape[n - 1] as int, ch);
        let q = g / ch;
        let c = counts[n - 1] as int;
        let before = owner(p, shape, chunk, n - 1);
        let i = owner(p, shape, chunk, n);
        let prod = crate::dataspace::product(counts, n - 1) as int;
        lemma_fundamental_div_mod_converse(i, c, before, q);
        assert(0 <= before * c + q < prod * c) by (nonlinear_arith)
            requires
                0 <= before < prod,
                0 <= q < c,
        ;
        let inner = crate::grid::offsets_to(before, counts, chunk, n - 1);
        let off = crate::grid::offsets_to(i, counts, chunk, n);
        assert(off == inner.push((q * ch) as u64));
        assert forall|d: int| 0 <= d < n implies ({
            let g = coordinate(p, dims, d);
            #[trigger] off[d] == (g / chunk[d] as int) * chunk[d]
        }) by {
            if d < n - 1 {
                assert(inner[d] == off[d]);
            }
        }
    }
}

/// An element lies inside a chunk whose offsets are in front of its coordinates.
proof fn lemma_inside_owner(
    p: int,
    shape: Seq<u64>,
    chunk: Seq<u64>,
    off: Seq<u64>,
    d: int,
)
    requires
        are_extents(shape, chunk),
        0 <= d <= shape.len(),
        0 <= p < crate::grid::tail(crate::grid::words(shape), 0),
        off.len() == shape.len(),
        forall|k: int|
            0 <= k < shape.len() ==> ({
                let g = coordinate(p, crate::grid::words(shape), k);
                #[trigger] off[k] == (g / chunk[k] as int) * chunk[k]
            }),
    ensures
        crate::grid::inside(
            remainder(p, crate::grid::words(shape), d),
            d,
            crate::grid::words(off),
            crate::grid::words(chunk),
            crate::grid::words(shape),
        ) is Some,
    decreases shape.len() - d,
{
    let dims = crate::grid::words(shape);
    lemma_coordinate(p, dims, d);
    if d < shape.len() {
        lemma_tail_positive(dims, d + 1);
        lemma_inside_owner(p, shape, chunk, off, d + 1);
        let g = coordinate(p, dims, d);
        assert(0 < chunk[d] <= usize::MAX && shape[d] <= usize::MAX);
        lemma_chunk_count(g, shape[d] as int, chunk[d] as int);
        assert(off[d] == (g / chunk[d] as int) * chunk[d]);
        assert(off[d] <= usize::MAX);
        assert(remainder(p, dims, d + 1) == remainder(p, dims, d) % crate::grid::tail(
            dims,
            d + 1,
        ) as int);
    }
}

/// Each element of a data set lies in one of its chunks.
pub proof fn law_chunks_cover(p: int, shape: Seq<u64>, chunk: Seq<u64>)
    requires
        are_extents(shape, chunk),
        shape.len() > 0,
        0 <= p < crate::grid::tail(crate::grid::words(shape), 0),
    ensures
        exists|i: int|
            0 <= i < crate::chunked_write::chunk_total(shape, chunk) && covers(
                i,
                p,
                shape,
                chunk,
            ),
{
    let n = shape.len() as int;
    lemma_owner(p, shape, chunk, n);
    let i = owner(p, shape, chunk, n);
    let off = crate::grid::offsets_of(i, crate::grid::counts_of(shape, chunk), chunk);
    lemma_inside_owner(p, shape, chunk, off, 0);
    assert(covers(i, p, shape, chunk));
}

/// Whether chunk `i` holds element `p`.
pub open spec fn covers(i: int, p: int, shape: Seq<u64>, chunk: Seq<u64>) -> bool {
    crate::grid::inside(
        p,
        0,
        crate::grid::words(
            crate::grid::offsets_of(i, crate::grid::counts_of(shape, chunk), chunk),
        ),
        crate::grid::words(chunk),
        crate::grid::words(shape),
    ) is Some
}

/// Whether the chunks of the model are those that `raw` is split into.
pub open spec fn are_pieces(
    m: ChunkedModel,
    chunks: Seq<ChunkInfoModel>,
    data: Seq<Seq<u8>>,
    raw: Seq<u8>,
    chunk: Seq<u64>,
) -> bool {
    &&& m.rank() == m.dims.len()
    &&& m.chunk_words() == crate::grid::words(chunk)
    &&& chunk.len() == m.dims.len()
    &&& chunks.len() == data.len()
    &&& chunks.len() == crate::chunked_write::chunk_total(m.dims, chunk)
    &&& forall|i: int|
        0 <= i < chunks.len() ==> ((#[trigger] chunks[i]).offsets, data[i])
            == crate::chunked_write::chunk_of(raw, m.dims, chunk, m.size as int, i)
}

/// What is assembled of the first `n` pieces of `raw`: where one of them covers an element, its
/// bytes are those of `raw`.
proof fn lemma_assembled_pieces(
    m: ChunkedModel,
    chunks: Seq<ChunkInfoModel>,
    data: Seq<Seq<u8>>,
    raw: Seq<u8>,
    chunk: Seq<u64>,
    out: Seq<u8>,
    n: int,
)
    requires
        are_pieces(m, chunks, data, raw, chunk),
        are_extents(m.dims, chunk),
        m.dims.len() > 0,
        m.size > 0,
        raw.len() == crate::grid::tail(m.dim_words(), 0) * m.size,
        out.len() == raw.len(),
        0 <= n <= chunks.len(),
    ensures
        ({
            let a = m.assembled(out, chunks, data, n);
            &&& a.len() == raw.len()
            &&& forall|k: int|
                0 <= k < raw.len() ==> (#[trigger] a[k] == raw[k] || (a[k] == out[k] && forall|i: int|
                    0 <= i < n ==> !#[trigger] covers(i, k / m.size as int, m.dims, chunk)))
        }),
    decreases n,
{
    if n > 0 {
        lemma_assembled_pieces(m, chunks, data, raw, chunk, out, n - 1);
        let before = m.assembled(out, chunks, data, n - 1);
        let a = m.assembled(out, chunks, data, n);
        let size = m.size as int;
        let i = n - 1;
        let counts = crate::grid::counts_of(m.dims, chunk);
        let offsets = crate::grid::offsets_of(i, counts, chunk);
        let off = crate::grid::words(offsets);
        let cd = crate::grid::words(chunk);
        let dd = crate::grid::words(m.dims);
        assert((chunks[i].offsets, data[i]) == crate::chunked_write::chunk_of(
            raw,
            m.dims,
            chunk,
            size,
            i,
        ));
        lemma_offsets_len(i, counts, chunk, counts.len() as int);
        assert(crate::chunk_cache::spatial(chunks[i].offsets, m.rank()) == offsets);
        assert forall|k: int| 0 <= k < raw.len() implies (#[trigger] a[k] == raw[k] || (a[k]
            == out[k] && forall|j: int|
            0 <= j < n ==> !#[trigger] covers(j, k / size, m.dims, chunk))) by {
            let p = k / size;
            lemma_fundamental_div_mod(k, size);
            lemma_mod_bound(k, size);
            lemma_div_pos_is_pos(k, size);
            crate::grid::lemma_inside_place(p, 0, off, cd, dd);
            match crate::grid::inside(p, 0, off, cd, dd) {
                Some(f) => {
                    let t = crate::grid::tail(cd, 0) as int;
                    let r = k % size;
                    assert(f * size + size <= t * size) by (nonlinear_arith)
                        requires
                            f + 1 <= t,
                            size > 0,
                    ;
                    assert(f * size >= 0) by (nonlinear_arith)
                        requires
                            f >= 0,
                            size > 0,
                    ;
                    lemma_fundamental_div_mod_converse(f * size + r, size, f, r);
                    let total = crate::grid::tail(dd, 0) as int;
                    assert(p * size == size * p) by (nonlinear_arith);
                    assert(p * size + size <= total * size) by (nonlinear_arith)
                        requires
                            k == size * p + r,
                            r >= 0,
                            k < total * size,
                            size > 0,
                    ;
                    assert(a[k] == raw[k]);
                },
                None => {
                    assert(!covers(i, p, m.dims, chunk));
                    assert(a[k] == before[k]);
                },
            }
        }
    } else {
        assert(m.assembled(out, chunks, data, n) == out);
    }
}

proof fn lemma_offsets_len(index: int, counts: Seq<u64>, chunk: Seq<u64>, n: int)
    requires
        n >= 0,
    ensures
        crate::grid::offsets_to(index, counts, chunk, n).len() == n,
    decreases n,
{
    if n > 0 {
        lemma_offsets_len(index / counts[n - 1] as int, counts, chunk, n - 1);
    }
}

/// Assembling the pieces that a data set was split into gives the data set back.
pub proof fn law_assembling_undoes_splitting(
    m: ChunkedModel,
    chunks: Seq<ChunkInfoModel>,
    data: Seq<Seq<u8>>,
    raw: Seq<u8>,
    chunk: Seq<u64>,
    out: Seq<u8>,
)
    requires
        are_pieces(m, chunks, data, raw, chunk),
        are_extents(m.dims, chunk),
        m.size > 0,
        raw.len() == crate::grid::tail(m.dim_words(), 0) * m.size,
        out.len() == raw.len(),
    ensures
        m.assembled(out, chunks, data, chunks.len() as int) == raw,
{
    let n = chunks.len() as int;
    if m.dims.len() == 0 {
        assert(n == 1);
        assert((chunks[0].offsets, data[0]) == crate::chunked_write::chunk_of(
            raw,
            m.dims,
            chunk,
            m.size as int,
            0,
        ));
        assert(m.assembled(out, chunks, data, 0) == out);
        assert(m.assembled(out, chunks, data, 1) =~= raw);
    } else {
        lemma_assembled_pieces(m, chunks, data, raw, chunk, out, n);
        let a = m.assembled(out, chunks, data, n);
        assert forall|k: int| 0 <= k < raw.len() implies a[k] == raw[k] by {
            let size = m.size as int;
            let p = k / size;
            let total = crate::grid::tail(m.dim_words(), 0) as int;
            lemma_fundamental_div_mod(k, size);
            lemma_mod_bound(k, size);
            lemma_div_pos_is_pos(k, size);
            assert(p < total) by (nonlinear_arith)
                requires
                    k == size * p + k % size,
                    k % size >= 0,
                    k < total * size,
                    size > 0,
            ;
            law_chunks_cover(p, m.dims, chunk);
            let i = choose|i: int|
                0 <= i < crate::chunked_write::chunk_total(m.dims, chunk) && covers(
                    i,
                    p,
                    m.dims,
                    chunk,
                );
            assert(covers(i, p, m.dims, chunk));
            assert(a[k] == raw[k]);
        }
        assert(a =~= raw);
    }
}

} // verus!
