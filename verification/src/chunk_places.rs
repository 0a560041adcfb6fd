//! Where chunks and their elements lie in a data set.

use vstd::prelude::*;
use crate::chunk_cache::ChunkInfoModel;
use crate::chunked_read::{self, ChunkedModel};
use crate::data_layout::DataLayoutModel;
use crate::dataspace::DataspaceModel;
use crate::error::ErrorModel;
use crate::filter_pipeline::PipelineModel;
use crate::grid;
use crate::traversal::Tree;

verus! {

// ---- Elements ----

/// The number of the element with the given coordinates from axis `d` on: the last axis varies
/// fastest.
pub open spec fn flat(c: Seq<int>, dims: Seq<usize>, d: int) -> int
    decreases dims.len() - d,
{
    if d >= dims.len() {
        0
    } else {
        c[d] * grid::tail(dims, d + 1) + flat(c, dims, d + 1)
    }
}

/// Whether there is an element with the given coordinates.
pub open spec fn within(c: Seq<int>, dims: Seq<usize>) -> bool {
    &&& c.len() == dims.len()
    &&& forall|i: int| 0 <= i < dims.len() ==> 0 <= #[trigger] c[i] < dims[i]
}

proof fn lemma_flat_bound(c: Seq<int>, dims: Seq<usize>, d: int)
    requires
        within(c, dims),
        0 <= d <= dims.len(),
    ensures
        0 <= flat(c, dims, d) < grid::tail(dims, d),
    decreases dims.len() - d,
{
    if d < dims.len() {
        lemma_flat_bound(c, dims, d + 1);
        let t = grid::tail(dims, d + 1) as int;
        let n = dims[d] as int;
        let f = flat(c, dims, d + 1);
        assert(0 <= c[d] < dims[d]);
        assert(0 <= c[d] * t && c[d] * t + f < n * t) by (nonlinear_arith)
            requires
                0 <= c[d],
                c[d] + 1 <= n,
                0 <= f < t,
        ;
    }
}

/// The sum of two lists of coordinates.
pub open spec fn moved(c: Seq<int>, off: Seq<usize>) -> Seq<int> {
    Seq::new(c.len(), |i: int| c[i] + off[i])
}

proof fn lemma_inside(
    l: Seq<int>,
    d: int,
    off: Seq<usize>,
    chunk: Seq<usize>,
    dims: Seq<usize>,
)
    requires
        0 <= d <= chunk.len(),
        chunk.len() == dims.len(),
        off.len() == dims.len(),
        within(l, chunk),
        within(moved(l, off), dims),
    ensures
        grid::inside(flat(moved(l, off), dims, d), d, off, chunk, dims) == Some(flat(l, chunk, d)),
    decreases chunk.len() - d,
{
    let g = moved(l, off);
    if d < chunk.len() {
        lemma_inside(l, d + 1, off, chunk, dims);
        lemma_flat_bound(g, dims, d + 1);
        let t = grid::tail(dims, d + 1) as int;
        let f = flat(g, dims, d + 1);
        assert(0 <= g[d] < dims[d]);
        assert(0 <= l[d] < chunk[d]);
        vstd::arithmetic::div_mod::lemma_fundamental_div_mod_converse(g[d] * t + f, t, g[d], f);
        assert(g[d] - off[d] == l[d]);
    }
}

/// Overlaying a chunk puts each of its elements that lies in the data set in its place, the offset
/// of the chunk and the place in the chunk added axis by axis, and leaves all other elements as they
/// are.
#[verifier::rlimit(30)]
pub proof fn law_chunk_elements_are_placed(
    out: Seq<u8>,
    data: Seq<u8>,
    off: Seq<usize>,
    chunk: Seq<usize>,
    dims: Seq<usize>,
    size: int,
    l: Seq<int>,
    r: int,
)
    requires
        size > 0,
        chunk.len() == dims.len(),
        off.len() == dims.len(),
        within(l, chunk),
        within(moved(l, off), dims),
        0 <= r < size,
        out.len() == grid::tail(dims, 0) * size,
        data.len() == grid::tail(chunk, 0) * size,
    ensures
        grid::overlaid(out, data, off, chunk, dims, size)[flat(moved(l, off), dims, 0) * size + r]
            == data[flat(l, chunk, 0) * size + r],
{
    let p = flat(moved(l, off), dims, 0);
    let f = flat(l, chunk, 0);
    lemma_inside(l, 0, off, chunk, dims);
    lemma_flat_bound(l, chunk, 0);
    lemma_flat_bound(moved(l, off), dims, 0);
    let n = grid::tail(dims, 0) as int;
    let m = grid::tail(chunk, 0) as int;
    assert(0 <= p * size && p * size + size <= n * size) by (nonlinear_arith)
        requires
            0 <= p,
            p + 1 <= n,
            size > 0,
    ;
    assert(0 <= f * size && f * size + size <= m * size) by (nonlinear_arith)
        requires
            0 <= f,
            f + 1 <= m,
            size > 0,
    ;
    vstd::arithmetic::div_mod::lemma_fundamental_div_mod_converse(p * size + r, size, p, r);
}

proof fn lemma_outside(
    g: Seq<int>,
    d: int,
    i: int,
    off: Seq<usize>,
    chunk: Seq<usize>,
    dims: Seq<usize>,
)
    requires
        0 <= d <= i < chunk.len(),
        chunk.len() == dims.len(),
        off.len() == dims.len(),
        within(g, dims),
        !(off[i] <= g[i] < off[i] + chunk[i]),
    ensures
        grid::inside(flat(g, dims, d), d, off, chunk, dims) is None,
    decreases i - d,
{
    lemma_flat_bound(g, dims, d + 1);
    let t = grid::tail(dims, d + 1) as int;
    let f = flat(g, dims, d + 1);
    assert(0 <= g[d] < dims[d]);
    vstd::arithmetic::div_mod::lemma_fundamental_div_mod_converse(g[d] * t + f, t, g[d], f);
    if d < i {
        lemma_outside(g, d + 1, i, off, chunk, dims);
    }
}

/// Overlaying a chunk leaves the elements that lie beside it, on any axis, as they are.
#[verifier::rlimit(30)]
pub proof fn law_other_elements_are_kept(
    out: Seq<u8>,
    data: Seq<u8>,
    off: Seq<usize>,
    chunk: Seq<usize>,
    dims: Seq<usize>,
    size: int,
    g: Seq<int>,
    i: int,
    r: int,
)
    requires
        size > 0,
        chunk.len() == dims.len(),
        off.len() == dims.len(),
        within(g, dims),
        0 <= i < dims.len(),
        !(off[i] <= g[i] < off[i] + chunk[i]),
        0 <= r < size,
        out.len() == grid::tail(dims, 0) * size,
    ensures
        grid::overlaid(out, data, off, chunk, dims, size)[flat(g, dims, 0) * size + r] == out[flat(
            g,
            dims,
            0,
        ) * size + r],
{
    let p = flat(g, dims, 0);
    lemma_outside(g, 0, i, off, chunk, dims);
    lemma_flat_bound(g, dims, 0);
    let n = grid::tail(dims, 0) as int;
    assert(0 <= p * size && p * size + size <= n * size) by (nonlinear_arith)
        requires
            0 <= p,
            p + 1 <= n,
            size > 0,
    ;
    vstd::arithmetic::div_mod::lemma_fundamental_div_mod_converse(p * size + r, size, p, r);
}

proof fn lemma_place(l: Seq<int>, d: int, off: Seq<usize>, chunk: Seq<usize>, dims: Seq<usize>)
    requires
        0 <= d <= chunk.len(),
        chunk.len() == dims.len(),
        off.len() == dims.len(),
        within(l, chunk),
    ensures
        grid::place(flat(l, chunk, d), d, off, chunk, dims) == if (forall|i: int|
            d <= i < dims.len() ==> #[trigger] moved(l, off)[i] < dims[i]) {
            Some(flat(moved(l, off), dims, d))
        } else {
            None
        },
    decreases chunk.len() - d,
{
    let g = moved(l, off);
    if d < chunk.len() {
        lemma_place(l, d + 1, off, chunk, dims);
        lemma_flat_bound(l, chunk, d + 1);
        let t = grid::tail(chunk, d + 1) as int;
        let f = flat(l, chunk, d + 1);
        assert(0 <= l[d] < chunk[d]);
        vstd::arithmetic::div_mod::lemma_fundamental_div_mod_converse(l[d] * t + f, t, l[d], f);
        assert(g[d] == off[d] + l[d]);
        if g[d] < dims[d] && (forall|i: int| d + 1 <= i < dims.len() ==> #[trigger] g[i]
            < dims[i]) {
            assert forall|i: int| d <= i < dims.len() implies #[trigger] g[i] < dims[i] by {
                if i > d {
                    assert(g[i] < dims[i]);
                }
            }
        }
    }
}

/// A chunk that is cut out of a data set holds each element of the data set that it covers, at the
/// place that is left when the offset of the chunk is taken away axis by axis, and zeros beyond the
/// data set.
#[verifier::rlimit(30)]
pub proof fn law_chunk_holds_what_it_covers(
    raw: Seq<u8>,
    off: Seq<usize>,
    chunk: Seq<usize>,
    dims: Seq<usize>,
    size: int,
    l: Seq<int>,
    r: int,
)
    requires
        size > 0,
        chunk.len() == dims.len(),
        off.len() == dims.len(),
        within(l, chunk),
        0 <= r < size,
        raw.len() == grid::tail(dims, 0) * size,
    ensures
        grid::extracted(raw, off, chunk, dims, size).len() == grid::tail(chunk, 0) * size,
        grid::extracted(raw, off, chunk, dims, size)[flat(l, chunk, 0) * size + r] == if within(
            moved(l, off),
            dims,
        ) {
            raw[flat(moved(l, off), dims, 0) * size + r]
        } else {
            0
        },
{
    let g = moved(l, off);
    let f = flat(l, chunk, 0);
    lemma_place(l, 0, off, chunk, dims);
    lemma_flat_bound(l, chunk, 0);
    let m = grid::tail(chunk, 0) as int;
    assert(0 <= m * size && 0 <= f * size && f * size + size <= m * size) by (nonlinear_arith)
        requires
            0 <= f,
            f + 1 <= m,
            size > 0,
    ;
    vstd::arithmetic::div_mod::lemma_fundamental_div_mod_converse(f * size + r, size, f, r);
    assert forall|i: int| 0 <= i < dims.len() implies 0 <= #[trigger] g[i] by {
        assert(0 <= l[i] < chunk[i]);
    }
    if within(g, dims) {
        assert forall|i: int| 0 <= i < dims.len() implies #[trigger] g[i] < dims[i] by {}
        let p = flat(g, dims, 0);
        let n = grid::tail(dims, 0) as int;
        lemma_flat_bound(g, dims, 0);
        assert(p * size + size <= n * size) by (nonlinear_arith)
            requires
                p + 1 <= n,
                size > 0,
        ;
    }
}

// ---- Chunks ----

/// The number of the chunk with the given coordinates in the grid, by the first `n` axes: the last
/// axis varies fastest.
pub open spec fn number_of(c: Seq<int>, counts: Seq<u64>, n: int) -> int
    decreases n,
{
    if n <= 0 {
        0
    } else {
        number_of(c, counts, n - 1) * counts[n - 1] + c[n - 1]
    }
}

proof fn lemma_offsets(c: Seq<int>, counts: Seq<u64>, chunk: Seq<u64>, n: int)
    requires
        0 <= n <= counts.len(),
        counts.len() <= chunk.len(),
        c.len() == counts.len(),
        forall|i: int| 0 <= i < counts.len() ==> 0 <= #[trigger] c[i] < counts[i],
        forall|i: int|
            0 <= i < counts.len() ==> #[trigger] c[i] * chunk[i] <= u64::MAX,
    ensures
        grid::offsets_to(number_of(c, counts, n), counts, chunk, n).len() == n,
        forall|k: int|
            0 <= k < n ==> (#[trigger] grid::offsets_to(
                number_of(c, counts, n),
                counts,
                chunk,
                n,
            )[k]) == c[k] * chunk[k],
    decreases n,
{
    if n > 0 {
        let before = number_of(c, counts, n - 1);
        let m = counts[n - 1] as int;
        let e = c[n - 1];
        assert(0 <= c[n - 1] < counts[n - 1]);
        lemma_offsets(c, counts, chunk, n - 1);
        vstd::arithmetic::div_mod::lemma_fundamental_div_mod_converse(before * m + e, m, before, e);
        assert(c[n - 1] * chunk[n - 1] <= u64::MAX);
        assert(0 <= e * chunk[n - 1]) by (nonlinear_arith)
            requires
                0 <= e,
        ;
    }
}

/// Chunks are numbered row by row: the chunk with coordinates `c` in the grid has its offset `c`
/// chunks from the origin on each axis.
#[verifier::rlimit(30)]
pub proof fn law_chunks_are_numbered_row_by_row(c: Seq<int>, counts: Seq<u64>, chunk: Seq<u64>)
    requires
        counts.len() == chunk.len(),
        c.len() == counts.len(),
        forall|i: int| 0 <= i < counts.len() ==> 0 <= #[trigger] c[i] < counts[i],
        forall|i: int|
            0 <= i < counts.len() ==> #[trigger] c[i] * chunk[i] <= u64::MAX,
    ensures
        grid::offsets_of(number_of(c, counts, counts.len() as int), counts, chunk) == Seq::new(
            counts.len(),
            |k: int| (c[k] * chunk[k]) as u64,
        ),
{
    let n = counts.len() as int;
    lemma_offsets(c, counts, chunk, n);
    let read = grid::offsets_of(number_of(c, counts, n), counts, chunk);
    assert(read =~= Seq::new(counts.len(), |k: int| (c[k] * chunk[k]) as u64));
}

/// There are as many chunks along an axis as it takes to cover it, and no more.
#[verifier::rlimit(30)]
pub proof fn law_chunks_cover_each_axis(dims: Seq<u64>, chunk: Seq<u64>, i: int)
    requires
        0 <= i < chunk.len(),
        chunk.len() <= dims.len(),
        chunk[i] > 0,
    ensures
        grid::counts_of(dims, chunk).len() == chunk.len(),
        grid::counts_of(dims, chunk)[i] * chunk[i] >= dims[i],
        dims[i] > 0 ==> (grid::counts_of(dims, chunk)[i] - 1) * chunk[i] < dims[i],
        dims[i] == 0 ==> grid::counts_of(dims, chunk)[i] == 0,
{
    let a = dims[i] as int;
    let b = chunk[i] as int;
    let q = a / b;
    let r = a % b;
    vstd::arithmetic::div_mod::lemma_fundamental_div_mod(a, b);
    vstd::arithmetic::div_mod::lemma_mod_bound(a, b);
    vstd::arithmetic::div_mod::lemma_div_pos_is_pos(a, b);
    let n = grid::ceil_div(a, b);
    assert(q <= a) by (nonlinear_arith)
        requires
            a == b * q + r,
            b >= 1,
            r >= 0,
            q >= 0,
    ;
    assert(r == 0 ==> n == q);
    assert(r != 0 ==> n == q + 1);
    assert((q + 1) * b == b * q + b) by (nonlinear_arith);
    assert(q * b == b * q) by (nonlinear_arith);
    assert((q - 1) * b == b * q - b) by (nonlinear_arith);
    if r != 0 {
        assert(q < a) by (nonlinear_arith)
            requires
                a == b * q + r,
                b >= 1,
                r >= 1,
                q >= 0,
        ;
    }
    assert(grid::counts_of(dims, chunk)[i] == n);
    if a == 0 {
        assert(q == 0 && r == 0) by (nonlinear_arith)
            requires
                a == 0,
                a == b * q + r,
                b >= 1,
                0 <= r,
                q >= 0,
        ;
    }
}

/// Where chunks stand one behind the other, without an index, the one with coordinates `c` in the
/// grid stands behind as many chunks as its number says.
#[verifier::rlimit(30)]
pub proof fn law_implicit_chunks_stand_in_order(
    base: u64,
    dims: Seq<u64>,
    chunk: Seq<u32>,
    size: u32,
    i: int,
)
    requires
        chunked_read::implicit_readable(base, dims, chunk, size),
        0 <= i < chunked_read::implicit_count(dims, chunk, size),
    ensures
        ({
            let wide = Seq::new(chunk.len(), |k: int| chunk[k] as u64);
            let bytes = crate::dataspace::product(wide, chunk.len() as int) * size;
            let all = chunked_read::implicit_chunks(base, dims, chunk, size);
            &&& all.len() == chunked_read::implicit_count(dims, chunk, size)
            &&& all[i].address == base + i * bytes
            &&& all[i].filter_mask == 0
            &&& bytes <= u32::MAX ==> all[i].chunk_size == bytes
            &&& all[i].offsets == grid::offsets_of(i, grid::counts_of(dims, wide), wide)
        }),
{
    let wide = Seq::new(chunk.len(), |k: int| chunk[k] as u64);
    assert(wide =~= grid::widened(chunk, chunk.len() as int));
    let bytes = crate::dataspace::product(wide, chunk.len() as int) * size;
    let n = chunked_read::implicit_count(dims, chunk, size) as int;
    assert(0 <= i * bytes && i * bytes <= (n - 1) * bytes) by (nonlinear_arith)
        requires
            0 <= i <= n - 1,
            bytes >= 0,
    ;
}

// ---- Data sets ----

/// The data of a chunk are the bytes that stand at its address, decoded by the filters if there are
/// any and the mask of the chunk is zero.
#[verifier::rlimit(30)]
pub proof fn law_chunk_data_stand_at_the_address(
    d: Seq<u8>,
    info: ChunkInfoModel,
    stored: Seq<u8>,
    pipeline: Option<PipelineModel>,
    size: u32,
)
    requires
        d.len() <= usize::MAX,
        info.address <= usize::MAX,
        info.chunk_size == stored.len(),
        crate::places::stands(d, info.address as int, stored),
    ensures
        pipeline is None || info.filter_mask != 0 ==> chunked_read::data_of(d, info, pipeline, size)
            == Ok::<Seq<u8>, ErrorModel>(stored),
        pipeline is Some && info.filter_mask == 0 ==> chunked_read::data_of(d, info, pipeline, size)
            == crate::filters::decompressed(
            pipeline->0.filters,
            pipeline->0.filters.len() as int,
            stored,
            size,
        ),
{
}

proof fn lemma_all_data(
    m: ChunkedModel,
    d: Seq<u8>,
    chunks: Seq<ChunkInfoModel>,
    data: Seq<Seq<u8>>,
    pipeline: Option<PipelineModel>,
    n: int,
)
    requires
        0 <= n <= chunks.len(),
        chunks.len() == data.len(),
        forall|i: int|
            0 <= i < chunks.len() ==> chunked_read::data_of(
                d,
                #[trigger] chunks[i],
                pipeline,
                m.size,
            ) == Ok::<Seq<u8>, ErrorModel>(data[i]),
    ensures
        m.all_data(d, chunks, pipeline, n) == Ok::<Seq<Seq<u8>>, ErrorModel>(data.take(n)),
    decreases n,
{
    if n > 0 {
        lemma_all_data(m, d, chunks, data, pipeline, n - 1);
        let c = chunks[n - 1];
        assert(chunked_read::data_of(d, c, pipeline, m.size) == Ok::<Seq<u8>, ErrorModel>(
            data[n - 1],
        ));
        assert(data.take(n - 1).push(data[n - 1]) =~= data.take(n));
    } else {
        assert(data.take(0) =~= Seq::<Seq<u8>>::empty());
    }
}

/// A data set whose chunks are in a B-tree is read back: if the leaves of the tree, at whatever
/// depth, list the pieces that it was split into, and their data are what they were, reading gives
/// the data set.
#[verifier::rlimit(30)]
pub proof fn law_data_in_a_tree_is_read_back(
    d: Seq<u8>,
    t: Tree<ChunkInfoModel>,
    m: ChunkedModel,
    data: Seq<Seq<u8>>,
    raw: Seq<u8>,
    chunk: Seq<u64>,
    space: DataspaceModel,
    pipeline: Option<PipelineModel>,
)
    requires
        m.version == 3,
        m.address <= usize::MAX,
        d.len() <= usize::MAX,
        crate::utils::is_width(m.os),
        crate::chunk_tree::tree_stands(
            d,
            m.address as int,
            t,
            m.chunk_dimensions.len() as int,
            m.os,
        ),
        space.dimensions == m.dims,
        m.rank() == m.dims.len(),
        forall|i: int|
            0 <= i < data.len() ==> chunked_read::data_of(
                d,
                #[trigger] crate::traversal::leaves(t)[i],
                pipeline,
                m.size,
            ) == Ok::<Seq<u8>, ErrorModel>(data[i]),
        split_by_tree(m, t, data, raw, chunk),
        m.size > 0,
        raw.len() == grid::tail(m.dim_words(), 0) * m.size,
        chunked_read::output_size(space, m.size) == raw.len(),
    ensures
        chunked_read::chunked_data(
            d,
            DataLayoutModel::Chunked {
                chunk_dimensions: m.chunk_dimensions,
                btree_address: Some(m.address),
                version: 3,
                chunk_index_type: m.index_type,
                single_chunk_filtered_size: m.filtered_size,
                single_chunk_filter_mask: m.filter_mask,
            },
            space,
            m.size,
            pipeline,
            m.os,
            m.ls,
        ) == Ok::<Seq<u8>, ErrorModel>(raw),
{
    let chunks = crate::traversal::leaves(t);
    let n = chunks.len() as int;
    crate::chunk_tree::law_chunk_tree_is_read_back(
        d,
        m.address as int,
        t,
        m.chunk_dimensions.len() as int,
        m.os,
    );
    lemma_all_data(m, d, chunks, data, pipeline, n);
    assert(data.take(n) =~= data);
    let out = Seq::new(raw.len(), |i: int| 0u8);
    // The leaves hold one more offset than there are axes.
    let cut = Seq::new(chunks.len(), |i: int| spatial_chunk(chunks[i], m.rank()));
    crate::round_trip::law_assembling_undoes_splitting(m, cut, data, raw, chunk, out);
    lemma_same_places(m, chunks, cut, data, out, n);
}

/// A chunk with its offsets cut down to the axes of the data set.
pub open spec fn spatial_chunk(c: ChunkInfoModel, rank: int) -> ChunkInfoModel {
    ChunkInfoModel { offsets: c.offsets.take(rank), ..c }
}

/// Whether the leaves of a tree list the pieces that `raw` is split into: each with its offset on
/// each axis of the data set, followed by one within the element.
pub open spec fn split_by_tree(
    m: ChunkedModel,
    t: Tree<ChunkInfoModel>,
    data: Seq<Seq<u8>>,
    raw: Seq<u8>,
    chunk: Seq<u64>,
) -> bool {
    let chunks = crate::traversal::leaves(t);
    &&& crate::round_trip::are_extents(m.dims, chunk)
    &&& forall|i: int|
        0 <= i < chunks.len() ==> (#[trigger] chunks[i]).offsets.len() == m.dims.len() + 1
    &&& crate::round_trip::are_pieces(
        m,
        Seq::new(chunks.len(), |i: int| spatial_chunk(chunks[i], m.dims.len() as int)),
        data,
        raw,
        chunk,
    )
}

proof fn lemma_same_places(
    m: ChunkedModel,
    chunks: Seq<ChunkInfoModel>,
    cut: Seq<ChunkInfoModel>,
    data: Seq<Seq<u8>>,
    out: Seq<u8>,
    n: int,
)
    requires
        m.rank() >= 0,
        0 <= n <= chunks.len(),
        cut == Seq::new(chunks.len(), |i: int| spatial_chunk(chunks[i], m.rank())),
        forall|i: int|
            0 <= i < chunks.len() ==> (#[trigger] chunks[i]).offsets.len() == m.rank() + 1,
    ensures
        m.assembled(out, chunks, data, n) == m.assembled(out, cut, data, n),
    decreases n,
{
    if n > 0 {
        lemma_same_places(m, chunks, cut, data, out, n - 1);
        let c = chunks[n - 1];
        assert(c.offsets.len() == m.rank() + 1);
        assert(crate::chunk_cache::spatial(c.offsets, m.rank())
            =~= crate::chunk_cache::spatial(c.offsets.take(m.rank()), m.rank()));
    }
}

} // verus!
