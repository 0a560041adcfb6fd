//! The contents of chunks: what filters make of them, and in which order they are read.

use vstd::prelude::*;
use crate::chunk_cache::ChunkInfoModel;
use crate::chunked_read;
use crate::error::{ErrorModel, FormatError};
use crate::filter_pipeline::{FilterModel, PipelineModel};
use crate::filters;
use crate::parallel_read;
use crate::places;

verus! {

// ---- Filters ----

/// Shuffling has the ID 2, and fletcher32 the ID 3: it puts the checksum of the data behind them.
/// Filters with an ID above these are refused.
pub proof fn law_kinds_of_filters(f: FilterModel, d: Seq<u8>, size: u32)
    ensures
        f.filter_id == 2 ==> filters::applied(f, d, size) == Ok::<Seq<u8>, ErrorModel>(
            filters::shuffle_of(d, size),
        ),
        f.filter_id == 3 ==> filters::applied(f, d, size) == Ok::<Seq<u8>, ErrorModel>(
            d + places::field(filters::fletcher32_of(d) as int, 4),
        ),
        f.filter_id == 0 || f.filter_id > 3 ==> filters::applied(f, d, size) == Err::<
            Seq<u8>,
            ErrorModel,
        >(ErrorModel::Plain(FormatError::UnsupportedFilter(f.filter_id))),
        f.filter_id == 0 || f.filter_id > 3 ==> filters::undone(f, d, size) == Err::<
            Seq<u8>,
            ErrorModel,
        >(ErrorModel::Plain(FormatError::UnsupportedFilter(f.filter_id))),
{
}

/// Data with another checksum behind them than theirs are refused.
pub proof fn law_wrong_fletcher_sum_is_refused(f: FilterModel, d: Seq<u8>, sum: u32, size: u32)
    requires
        f.filter_id == 3,
    ensures
        filters::undone(f, d + places::field(sum as int, 4), size) == if sum
            == filters::fletcher32_of(d) {
            Ok::<Seq<u8>, ErrorModel>(d)
        } else {
            Err(
                ErrorModel::Plain(
                    FormatError::Fletcher32Mismatch {
                        expected: sum,
                        computed: filters::fletcher32_of(d),
                    },
                ),
            )
        },
{
    let tail = places::field(sum as int, 4);
    let all = d + tail;
    places::lemma_field_len(sum as int, 4);
    places::lemma_whole(all);
    places::lemma_parts(all, 0, d, tail);
    places::lemma_u32(all, d.len() as int, sum as int);
    assert(all.subrange(0, all.len() - 4) =~= d);
}

proof fn lemma_compressed(
    a: Seq<FilterModel>,
    b: Seq<FilterModel>,
    i: int,
    d: Seq<u8>,
    size: u32,
)
    requires
        0 <= i <= a.len(),
    ensures
        filters::compressed(a + b, i, d, size) == match filters::compressed(a, i, d, size) {
            Err(e) => Err(e),
            Ok(x) => filters::compressed(a + b, a.len() as int, x, size),
        },
    decreases a.len() - i,
{
    if i < a.len() {
        assert((a + b)[i] == a[i]);
        match filters::applied(a[i], d, size) {
            Ok(x) => {
                lemma_compressed(a, b, i + 1, x, size);
            },
            Err(_) => {},
        }
    }
}

proof fn lemma_shifted(a: Seq<FilterModel>, b: Seq<FilterModel>, i: int, d: Seq<u8>, size: u32)
    requires
        0 <= i <= b.len(),
    ensures
        filters::compressed(a + b, a.len() + i, d, size) == filters::compressed(b, i, d, size),
    decreases b.len() - i,
{
    if i < b.len() {
        assert((a + b)[a.len() + i] == b[i]);
        match filters::applied(b[i], d, size) {
            Ok(x) => {
                lemma_shifted(a, b, i + 1, x, size);
            },
            Err(_) => {},
        }
    }
}

proof fn lemma_decompressed(a: Seq<FilterModel>, b: Seq<FilterModel>, n: int, d: Seq<u8>, size: u32)
    requires
        0 <= n <= b.len(),
    ensures
        filters::decompressed(a + b, a.len() + n, d, size) == match filters::decompressed(
            b,
            n,
            d,
            size,
        ) {
            Err(e) => Err(e),
            Ok(x) => filters::decompressed(a, a.len() as int, x, size),
        },
    decreases n,
{
    if n > 0 {
        assert((a + b)[a.len() + n - 1] == b[n - 1]);
        match filters::undone(b[n - 1], d, size) {
            Ok(x) => {
                lemma_decompressed(a, b, n - 1, x, size);
            },
            Err(_) => {},
        }
    } else {
        lemma_front(a, b, a.len() as int, d, size);
    }
}

proof fn lemma_front(a: Seq<FilterModel>, b: Seq<FilterModel>, n: int, d: Seq<u8>, size: u32)
    requires
        0 <= n <= a.len(),
    ensures
        filters::decompressed(a + b, n, d, size) == filters::decompressed(a, n, d, size),
    decreases n,
{
    if n > 0 {
        assert((a + b)[n - 1] == a[n - 1]);
        match filters::undone(a[n - 1], d, size) {
            Ok(x) => {
                lemma_front(a, b, n - 1, x, size);
            },
            Err(_) => {},
        }
    }
}

/// Data pass through the filters in their order, and back through them in the reverse order: through
/// the filters of a first list before those of a second one, and back through those of the second
/// one first. A list of one filter does what the filter does.
pub proof fn law_filters_follow_each_other(
    a: Seq<FilterModel>,
    b: Seq<FilterModel>,
    f: FilterModel,
    d: Seq<u8>,
    size: u32,
)
    ensures
        filters::compressed(a + b, 0, d, size) == match filters::compressed(a, 0, d, size) {
            Err(e) => Err(e),
            Ok(x) => filters::compressed(b, 0, x, size),
        },
        filters::decompressed(a + b, (a + b).len() as int, d, size) == match filters::decompressed(
            b,
            b.len() as int,
            d,
            size,
        ) {
            Err(e) => Err(e),
            Ok(x) => filters::decompressed(a, a.len() as int, x, size),
        },
        filters::compressed(seq![f], 0, d, size) == filters::applied(f, d, size),
        filters::decompressed(seq![f], 1, d, size) == filters::undone(f, d, size),
{
    lemma_compressed(a, b, 0, d, size);
    if let Ok(x) = filters::compressed(a, 0, d, size) {
        lemma_shifted(a, b, 0, x, size);
    }
    lemma_decompressed(a, b, b.len() as int, d, size);
    reveal_with_fuel(filters::compressed, 2);
    reveal_with_fuel(filters::decompressed, 2);
}

/// Whether all filters shuffle or put a checksum behind the data.
pub open spec fn are_exact(fs: Seq<FilterModel>) -> bool {
    forall|i: int|
        0 <= i < fs.len() ==> (#[trigger] fs[i]).filter_id == 2 || fs[i].filter_id == 3
}

proof fn lemma_exact(fs: Seq<FilterModel>, d: Seq<u8>, size: u32)
    requires
        are_exact(fs),
    ensures
        filters::compressed(fs, 0, d, size) matches Ok(out) && filters::decompressed(
            fs,
            fs.len() as int,
            out,
            size,
        ) == Ok::<Seq<u8>, ErrorModel>(d),
    decreases fs.len(),
{
    if fs.len() > 0 {
        let a = fs.drop_last();
        let f = fs.last();
        assert(fs =~= a + seq![f]);
        assert(fs[fs.len() - 1].filter_id == f.filter_id);
        assert forall|i: int| 0 <= i < a.len() implies (#[trigger] a[i]).filter_id == 2
            || a[i].filter_id == 3 by {
            assert(a[i] == fs[i]);
        }
        lemma_exact(a, d, size);
        let x = filters::compressed(a, 0, d, size)->Ok_0;
        law_filters_follow_each_other(a, seq![f], f, d, size);
        law_filters_follow_each_other(a, seq![f], f, x, size);
        filters::law_filter_round_trip(f, x, size);
        let out = filters::applied(f, x, size)->Ok_0;
        law_filters_follow_each_other(a, seq![f], f, out, size);
    }
}

/// The data of a chunk that has passed through filters that shuffle or put a checksum behind the data
/// are read as they were before, from where they stand in the file.
pub proof fn law_filtered_chunk_is_read_back(
    d: Seq<u8>,
    info: ChunkInfoModel,
    pipeline: PipelineModel,
    data: Seq<u8>,
    size: u32,
)
    requires
        are_exact(pipeline.filters),
        d.len() <= usize::MAX,
        info.address <= usize::MAX,
        info.filter_mask == 0,
        filters::compressed(pipeline.filters, 0, data, size) matches Ok(stored) && info.chunk_size
            == stored.len() && places::stands(d, info.address as int, stored),
    ensures
        chunked_read::data_of(d, info, Some(pipeline), size) == Ok::<Seq<u8>, ErrorModel>(data),
{
    lemma_exact(pipeline.filters, data, size);
}

// ---- Lists of chunks ----

/// The data of several chunks are the data of each of them, in their order, and if one of them cannot
/// be read the error is that of the first such.
pub proof fn law_each_chunk_is_read(
    d: Seq<u8>,
    chunks: Seq<ChunkInfoModel>,
    pipeline: Option<PipelineModel>,
    size: u32,
    n: int,
)
    requires
        0 <= n <= chunks.len(),
    ensures
        match parallel_read::chunks_data(d, chunks, pipeline, size, n) {
            Ok(all) => {
                &&& all.len() == n
                &&& forall|i: int|
                    0 <= i < n ==> chunked_read::data_of(d, chunks[i], pipeline, size) == Ok::<
                        Seq<u8>,
                        ErrorModel,
                    >(#[trigger] all[i])
            },
            Err(e) => exists|i: int|
                #![trigger chunks[i]]
                0 <= i < n && chunked_read::data_of(d, chunks[i], pipeline, size) == Err::<
                    Seq<u8>,
                    ErrorModel,
                >(e) && (forall|j: int|
                    0 <= j < i ==> chunked_read::data_of(
                        d,
                        #[trigger] chunks[j],
                        pipeline,
                        size,
                    ) is Ok),
        },
    decreases n,
{
    if n > 0 {
        law_each_chunk_is_read(d, chunks, pipeline, size, n - 1);
        match parallel_read::chunks_data(d, chunks, pipeline, size, n - 1) {
            Ok(done) => {
                match chunked_read::data_of(d, chunks[n - 1], pipeline, size) {
                    Ok(data) => {
                        let all = done.push(data);
                        assert forall|i: int| 0 <= i < n implies chunked_read::data_of(
                            d,
                            chunks[i],
                            pipeline,
                            size,
                        ) == Ok::<Seq<u8>, ErrorModel>(#[trigger] all[i]) by {
                            if i < n - 1 {
                                assert(all[i] == done[i]);
                            }
                        }
                    },
                    Err(_) => {
                        assert forall|j: int| 0 <= j < n - 1 implies chunked_read::data_of(
                            d,
                            #[trigger] chunks[j],
                            pipeline,
                            size,
                        ) is Ok by {
                            assert(done[j] == done[j]);
                        }
                        assert(chunks[n - 1] == chunks[n - 1]);
                    },
                }
            },
            Err(_) => {},
        }
    }
}

/// A lane reads the chunks that it was given, in their order, each under its number, and counts them
/// and their bytes.
pub proof fn law_lane_reads_its_chunks(
    d: Seq<u8>,
    chunks: Seq<ChunkInfoModel>,
    pipeline: PipelineModel,
    size: u32,
    lane: Seq<usize>,
    n: int,
)
    requires
        0 <= n <= lane.len() <= usize::MAX,
    ensures
        parallel_read::lane_of(d, chunks, pipeline, size, lane, n) matches Ok(done) ==> {
            &&& done.items.len() == n
            &&& done.stats.chunks_processed == n
            &&& forall|k: int|
                0 <= k < n ==> (#[trigger] done.items[k]).0 == lane[k] && chunked_read::data_of(
                    d,
                    chunks[lane[k] as int],
                    Some(pipeline),
                    size,
                ) == Ok::<Seq<u8>, ErrorModel>(done.items[k].1)
        },
    decreases n,
{
    if n > 0 {
        law_lane_reads_its_chunks(d, chunks, pipeline, size, lane, n - 1);
        if let Ok(done) = parallel_read::lane_of(d, chunks, pipeline, size, lane, n) {
            let before = parallel_read::lane_of(d, chunks, pipeline, size, lane, n - 1)->Ok_0;
            assert forall|k: int| 0 <= k < n implies (#[trigger] done.items[k]).0 == lane[k]
                && chunked_read::data_of(d, chunks[lane[k] as int], Some(pipeline), size) == Ok::<
                Seq<u8>,
                ErrorModel,
            >(done.items[k].1) by {
                if k < n - 1 {
                    assert(done.items[k] == before.items[k]);
                }
            }
        }
    }
}

} // verus!
