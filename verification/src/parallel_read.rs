//! Parallel chunk decompression with lane partitioning.
//!
//! When reading a chunked+compressed dataset with many chunks, this module
//! uses lane-partitioned parallel decompression: each lane receives a
//! disjoint subset of chunks, so that there is no overlap and no coordination.

use vstd::prelude::*;
use vstd::slice::slice_to_vec;
use crate::chunk_cache::{ChunkInfo, ChunkInfoModel};
use crate::chunked_read::read_chunk;
use crate::error::{ErrorModel, FormatError};
use crate::filter_pipeline::{FilterPipeline, PipelineModel};
use crate::lane_partition::{partition_chunks, LaneStats, PartitionStats};

verus! {

broadcast use vstd::std_specs::control_flow::group_control_flow_axioms;

/// Threshold: only use parallel decompression when chunk count exceeds this.
pub const PARALLEL_THRESHOLD: usize = 4;

/// Returns `true` if the parallel path should be used for the given chunk count.
pub fn should_use_parallel(chunk_count: usize) -> (r: bool)
    ensures
        r == (chunk_count > PARALLEL_THRESHOLD),
{
    chunk_count > PARALLEL_THRESHOLD
}

// ---- One chunk after the other ----

/// The data of the first `n` chunks.
pub open spec fn chunks_data(
    d: Seq<u8>,
    chunks: Seq<ChunkInfoModel>,
    pipeline: Option<PipelineModel>,
    size: u32,
    n: int,
) -> Result<Seq<Seq<u8>>, ErrorModel>
    decreases n,
{
    if n <= 0 {
        Ok(Seq::empty())
    } else {
        match chunks_data(d, chunks, pipeline, size, n - 1) {
            Err(e) => Err(e),
            Ok(done) => match crate::chunked_read::data_of(d, chunks[n - 1], pipeline, size) {
                Err(e) => Err(e),
                Ok(data) => Ok(done.push(data)),
            },
        }
    }
}

/// An error of one chunk is the error of all.
proof fn lemma_chunk_error(
    d: Seq<u8>,
    chunks: Seq<ChunkInfoModel>,
    pipeline: Option<PipelineModel>,
    size: u32,
    k: int,
    n: int,
)
    requires
        0 <= k <= n,
        chunks_data(d, chunks, pipeline, size, k) is Err,
    ensures
        chunks_data(d, chunks, pipeline, size, n) == chunks_data(d, chunks, pipeline, size, k),
    decreases n - k,
{
    if k < n {
        lemma_chunk_error(d, chunks, pipeline, size, k, n - 1);
    }
}

/// Decompress chunks sequentially (fallback when parallel is not warranted).
pub fn decompress_chunks_sequential(
    file_data: &[u8],
    chunks: &[ChunkInfo],
    pipeline: Option<&FilterPipeline>,
    chunk_total_bytes: usize,
    element_size: u32,
) -> (r: Result<Vec<Vec<u8>>, FormatError>)
    ensures
        crate::error::outcome(r) == chunks_data(
            file_data@,
            chunks.deep_view(),
            match pipeline {
                Some(p) => Some(p.deep_view()),
                None => None,
            },
            element_size,
            chunks@.len() as int,
        ),
{
    let ghost all = chunks.deep_view();
    let ghost pl = match pipeline {
        Some(p) => Some(p.deep_view()),
        None => None,
    };
    let mut result: Vec<Vec<u8>> = Vec::with_capacity(chunks.len());
    let mut k: usize = 0;
    assert(result.deep_view() =~= Seq::<Seq<u8>>::empty());
    while k < chunks.len()
        invariant
            k <= chunks@.len(),
            all == chunks.deep_view(),
            all.len() == chunks@.len(),
            pl == (match pipeline {
                Some(p) => Some(p.deep_view()),
                None => None,
            }),
            chunks_data(file_data@, all, pl, element_size, k as int) == Ok::<
                Seq<Seq<u8>>,
                ErrorModel,
            >(result.deep_view()),
        decreases chunks@.len() - k,
    {
        assert(all[k as int] == chunks@[k as int].deep_view());
        match read_chunk(file_data, &chunks[k], pipeline, chunk_total_bytes, element_size) {
            Ok(data) => {
                let ghost before = result.deep_view();
                let ghost added = data@;
                assert(data.deep_view() =~= data@);
                result.push(data);
                assert(result.deep_view() =~= before.push(added));
            },
            Err(e) => {
                proof {
                    lemma_chunk_error(
                        file_data@,
                        all,
                        pl,
                        element_size,
                        k + 1,
                        all.len() as int,
                    );
                }
                return Err(e);
            },
        }
        k += 1;
    }
    Ok(result)
}

// ---- Lanes ----

/// The work of a lane: the data of its chunks, each with the index of the chunk.
#[derive(Debug)]
pub struct LaneResult {
    pub items: Vec<(usize, Vec<u8>)>,
    pub stats: LaneStats,
}

/// The content of a [`LaneResult`].
pub struct LaneModel {
    pub items: Seq<(usize, Seq<u8>)>,
    pub stats: LaneStats,
}

impl DeepView for LaneResult {
    type V = LaneModel;

    open spec fn deep_view(&self) -> LaneModel {
        LaneModel { items: self.items.deep_view(), stats: self.stats }
    }
}

/// The work of a lane on the first `n` of its chunks.
pub open spec fn lane_of(
    d: Seq<u8>,
    chunks: Seq<ChunkInfoModel>,
    pipeline: PipelineModel,
    size: u32,
    lane: Seq<usize>,
    n: int,
) -> Result<LaneModel, ErrorModel>
    decreases n,
{
    if n <= 0 {
        Ok(LaneModel { items: Seq::empty(), stats: crate::lane_partition::no_work() })
    } else {
        match lane_of(d, chunks, pipeline, size, lane, n - 1) {
            Err(e) => Err(e),
            Ok(done) => {
                let i = lane[n - 1];
                match crate::chunked_read::data_of(d, chunks[i as int], Some(pipeline), size) {
                    Err(e) => Err(e),
                    Ok(data) => Ok(
                        LaneModel {
                            items: done.items.push((i, data)),
                            stats: done.stats.with_chunk(
                                (chunks[i as int].chunk_size as usize) as int,
                                data.len() as int,
                            ),
                        },
                    ),
                }
            },
        }
    }
}

proof fn lemma_lane_error(
    d: Seq<u8>,
    chunks: Seq<ChunkInfoModel>,
    pipeline: PipelineModel,
    size: u32,
    lane: Seq<usize>,
    k: int,
    n: int,
)
    requires
        0 <= k <= n,
        lane_of(d, chunks, pipeline, size, lane, k) is Err,
    ensures
        lane_of(d, chunks, pipeline, size, lane, n) == lane_of(d, chunks, pipeline, size, lane, k),
    decreases n - k,
{
    if k < n {
        lemma_lane_error(d, chunks, pipeline, size, lane, k, n - 1);
    }
}

/// What a lane that has not failed holds.
proof fn lemma_lane_items(
    d: Seq<u8>,
    chunks: Seq<ChunkInfoModel>,
    pipeline: PipelineModel,
    size: u32,
    lane: Seq<usize>,
    n: int,
)
    requires
        0 <= n <= lane.len(),
        lane_of(d, chunks, pipeline, size, lane, n) is Ok,
    ensures
        ({
            let items = lane_of(d, chunks, pipeline, size, lane, n)->Ok_0.items;
            &&& items.len() == n
            &&& forall|k: int|
                0 <= k < n ==> (#[trigger] items[k]).0 == lane[k] && crate::chunked_read::data_of(
                    d,
                    chunks[lane[k] as int],
                    Some(pipeline),
                    size,
                ) == Ok::<Seq<u8>, ErrorModel>(items[k].1)
        }),
    decreases n,
{
    if n > 0 {
        lemma_lane_items(d, chunks, pipeline, size, lane, n - 1);
    }
}

/// Reads the chunks of one lane.
fn decompress_lane(
    file_data: &[u8],
    chunks: &[ChunkInfo],
    pipeline: &FilterPipeline,
    chunk_total_bytes: usize,
    element_size: u32,
    lane: &Vec<usize>,
) -> (r: Result<LaneResult, FormatError>)
    requires
        crate::lane_partition::is_lane(lane@, chunks@.len() as int),
    ensures
        crate::error::outcome(r) == lane_of(
            file_data@,
            chunks.deep_view(),
            pipeline.deep_view(),
            element_size,
            lane@,
            lane@.len() as int,
        ),
{
    let ghost all = chunks.deep_view();
    let ghost pl = pipeline.deep_view();
    let ghost d = file_data@;
    let mut items: Vec<(usize, Vec<u8>)> = Vec::with_capacity(lane.len());
    let mut stats = LaneStats::default();
    let mut k: usize = 0;
    assert(items.deep_view() =~= Seq::<(usize, Seq<u8>)>::empty());
    while k < lane.len()
        invariant
            k <= lane@.len(),
            d == file_data@,
            all == chunks.deep_view(),
            all.len() == chunks@.len(),
            pl == pipeline.deep_view(),
            crate::lane_partition::is_lane(lane@, chunks@.len() as int),
            stats.chunks_processed == k,
            lane_of(d, all, pl, element_size, lane@, k as int) == Ok::<LaneModel, ErrorModel>(
                LaneModel { items: items.deep_view(), stats },
            ),
        decreases lane@.len() - k,
    {
        let i: usize = lane[k];
        assert(all[i as int] == chunks@[i as int].deep_view());
        match read_chunk(file_data, &chunks[i], Some(pipeline), chunk_total_bytes, element_size) {
            Ok(data) => {
                let size: usize = chunks[i].chunk_size as usize;
                stats.record_chunk(size, data.len());
                let ghost before = items.deep_view();
                let ghost added = (i, data@);
                assert(data.deep_view() =~= data@);
                items.push((i, data));
                assert(items.deep_view() =~= before.push(added));
            },
            Err(e) => {
                proof {
                    lemma_lane_error(d, all, pl, element_size, lane@, k + 1, lane@.len() as int);
                }
                return Err(e);
            },
        }
        k += 1;
    }
    Ok(LaneResult { items, stats })
}

/// Reads the chunks of all lanes, in parallel.
///
/// Trusted: `rayon::iter::ParallelIterator::collect` of a `map` over `par_iter` of a `Vec`. It
/// gives what the mapped function returns for each element, in the order of the elements.
#[verifier::external_body]
fn run_lanes(
    file_data: &[u8],
    chunks: &[ChunkInfo],
    pipeline: &FilterPipeline,
    chunk_total_bytes: usize,
    element_size: u32,
    lanes: &Vec<Vec<usize>>,
) -> (results: Vec<Result<LaneResult, FormatError>>)
    requires
        forall|l: int| 0 <= l < lanes@.len() ==> crate::lane_partition::is_lane((#[trigger] lanes@[l])@, chunks@.len() as int),
    ensures
        results@.len() == lanes@.len(),
        forall|l: int|
            0 <= l < lanes@.len() ==> crate::error::outcome(#[trigger] results@[l]) == lane_of(
                file_data@,
                chunks.deep_view(),
                pipeline.deep_view(),
                element_size,
                lanes@[l]@,
                lanes@[l]@.len() as int,
            ),
{
    let lanes = rayon::iter::IntoParallelRefIterator::par_iter(lanes);
    let work = rayon::iter::ParallelIterator::map(
        lanes,
        |lane| {
            decompress_lane(file_data, chunks, pipeline, chunk_total_bytes, element_size, lane)
        },
    );
    rayon::iter::ParallelIterator::collect(work)
}

/// The work of the first `n` lanes.
pub open spec fn lanes_of(
    d: Seq<u8>,
    chunks: Seq<ChunkInfoModel>,
    pipeline: PipelineModel,
    size: u32,
    lanes: Seq<Seq<usize>>,
    n: int,
) -> Result<Seq<LaneModel>, ErrorModel>
    decreases n,
{
    if n <= 0 {
        Ok(Seq::empty())
    } else {
        match lanes_of(d, chunks, pipeline, size, lanes, n - 1) {
            Err(e) => Err(e),
            Ok(done) => match lane_of(
                d,
                chunks,
                pipeline,
                size,
                lanes[n - 1],
                lanes[n - 1].len() as int,
            ) {
                Err(e) => Err(e),
                Ok(lane) => Ok(done.push(lane)),
            },
        }
    }
}

proof fn lemma_lanes_error(
    d: Seq<u8>,
    chunks: Seq<ChunkInfoModel>,
    pipeline: PipelineModel,
    size: u32,
    lanes: Seq<Seq<usize>>,
    k: int,
    n: int,
)
    requires
        0 <= k <= n,
        lanes_of(d, chunks, pipeline, size, lanes, k) is Err,
    ensures
        lanes_of(d, chunks, pipeline, size, lanes, n) == lanes_of(
            d,
            chunks,
            pipeline,
            size,
            lanes,
            k,
        ),
    decreases n - k,
{
    if k < n {
        lemma_lanes_error(d, chunks, pipeline, size, lanes, k, n - 1);
    }
}

/// The data of all chunks is the list of the data of each.
proof fn lemma_all_chunks(
    d: Seq<u8>,
    chunks: Seq<ChunkInfoModel>,
    pipeline: Option<PipelineModel>,
    size: u32,
    out: Seq<Seq<u8>>,
    n: int,
)
    requires
        0 <= n <= out.len(),
        out.len() == chunks.len(),
        forall|i: int|
            0 <= i < out.len() ==> crate::chunked_read::data_of(d, chunks[i], pipeline, size)
                == Ok::<Seq<u8>, ErrorModel>(#[trigger] out[i]),
    ensures
        chunks_data(d, chunks, pipeline, size, n) == Ok::<Seq<Seq<u8>>, ErrorModel>(
            out.subrange(0, n),
        ),
    decreases n,
{
    if n > 0 {
        lemma_all_chunks(d, chunks, pipeline, size, out, n - 1);
        assert(out.subrange(0, n - 1).push(out[n - 1]) =~= out.subrange(0, n));
    } else {
        assert(out.subrange(0, 0) =~= Seq::<Seq<u8>>::empty());
    }
}

/// Whether `out` holds the data of the chunks of the first `k` places of lane `l`, and of all
/// lanes in front of it.
spec fn is_filled(
    d: Seq<u8>,
    chunks: Seq<ChunkInfoModel>,
    pipeline: PipelineModel,
    size: u32,
    lanes: Seq<Seq<usize>>,
    out: Seq<Seq<u8>>,
    l: int,
    k: int,
) -> bool {
    forall|i: int, m: int, j: int|
        #[trigger] crate::lane_partition::stands_at(lanes, i, m, j) && (m < l || m == l && j < k)
            ==> crate::chunked_read::data_of(d, chunks[i], Some(pipeline), size) == Ok::<
            Seq<u8>,
            ErrorModel,
        >(out[i])
}

fn empty_lists(n: usize) -> (lists: Vec<Vec<u8>>)
    ensures
        lists@.len() == n,
{
    let mut lists: Vec<Vec<u8>> = Vec::with_capacity(n);
    while lists.len() < n
        invariant
            lists@.len() <= n,
        decreases n - lists@.len(),
    {
        lists.push(Vec::new());
    }
    lists
}

/// Whether `r` is what the lanes give: the data of all chunks in the order of the chunks, with what
/// each lane has done, or the error of the first lane that fails.
pub open spec fn is_work(
    d: Seq<u8>,
    chunks: Seq<ChunkInfoModel>,
    pipeline: PipelineModel,
    size: u32,
    lanes: Seq<Seq<usize>>,
    r: Result<(Vec<Vec<u8>>, PartitionStats), FormatError>,
) -> bool {
    let work = lanes_of(d, chunks, pipeline, size, lanes, lanes.len() as int);
    match r {
        Ok((data, stats)) => {
            &&& chunks_data(d, chunks, Some(pipeline), size, chunks.len() as int) == Ok::<
                Seq<Seq<u8>>,
                ErrorModel,
            >(data.deep_view())
            &&& stats.total_chunks == chunks.len()
            &&& work matches Ok(done) && stats.per_lane@ == Seq::new(
                done.len(),
                |l: int| done[l].stats,
            )
        },
        Err(e) => work == Err::<Seq<LaneModel>, ErrorModel>(e.deep_view()),
    }
}

/// Lanes succeed if the chunks of each do.
proof fn lemma_lane_succeeds(
    d: Seq<u8>,
    chunks: Seq<ChunkInfoModel>,
    pipeline: PipelineModel,
    size: u32,
    lane: Seq<usize>,
    n: int,
)
    requires
        0 <= n <= lane.len(),
        crate::lane_partition::is_lane(lane, chunks.len() as int),
        forall|i: int|
            0 <= i < chunks.len() ==> crate::chunked_read::data_of(
                d,
                #[trigger] chunks[i],
                Some(pipeline),
                size,
            ) is Ok,
    ensures
        lane_of(d, chunks, pipeline, size, lane, n) is Ok,
    decreases n,
{
    if n > 0 {
        lemma_lane_succeeds(d, chunks, pipeline, size, lane, n - 1);
        let i = lane[n - 1] as int;
        assert(crate::chunked_read::data_of(d, chunks[i], Some(pipeline), size) is Ok);
    }
}

proof fn lemma_lanes_succeed(
    d: Seq<u8>,
    chunks: Seq<ChunkInfoModel>,
    pipeline: PipelineModel,
    size: u32,
    lanes: Seq<Seq<usize>>,
    n: int,
)
    requires
        0 <= n <= lanes.len(),
        forall|l: int|
            0 <= l < lanes.len() ==> crate::lane_partition::is_lane(
                #[trigger] lanes[l],
                chunks.len() as int,
            ),
        forall|i: int|
            0 <= i < chunks.len() ==> crate::chunked_read::data_of(
                d,
                #[trigger] chunks[i],
                Some(pipeline),
                size,
            ) is Ok,
    ensures
        lanes_of(d, chunks, pipeline, size, lanes, n) is Ok,
    decreases n,
{
    if n > 0 {
        lemma_lanes_succeed(d, chunks, pipeline, size, lanes, n - 1);
        let lane = lanes[n - 1];
        lemma_lane_succeeds(d, chunks, pipeline, size, lane, lane.len() as int);
    }
}

/// Each chunk succeeds if all chunks do.
proof fn lemma_each_chunk(
    d: Seq<u8>,
    chunks: Seq<ChunkInfoModel>,
    pipeline: Option<PipelineModel>,
    size: u32,
    i: int,
    n: int,
)
    requires
        0 <= i < n,
        chunks_data(d, chunks, pipeline, size, n) is Ok,
    ensures
        crate::chunked_read::data_of(d, chunks[i], pipeline, size) is Ok,
    decreases n,
{
    if i < n - 1 {
        lemma_each_chunk(d, chunks, pipeline, size, i, n - 1);
    }
}

/// Where the chunks can be read one after the other, the lanes of every partition succeed.
pub proof fn law_lanes_succeed_where_chunks_do(
    d: Seq<u8>,
    chunks: Seq<ChunkInfoModel>,
    pipeline: PipelineModel,
    size: u32,
    lanes: Seq<Seq<usize>>,
)
    requires
        crate::lane_partition::is_partition(lanes, chunks.len() as int),
        chunks_data(d, chunks, Some(pipeline), size, chunks.len() as int) is Ok,
    ensures
        lanes_of(d, chunks, pipeline, size, lanes, lanes.len() as int) is Ok,
{
    assert forall|i: int| 0 <= i < chunks.len() implies crate::chunked_read::data_of(
        d,
        #[trigger] chunks[i],
        Some(pipeline),
        size,
    ) is Ok by {
        lemma_each_chunk(d, chunks, Some(pipeline), size, i, chunks.len() as int);
    }
    lemma_lanes_succeed(d, chunks, pipeline, size, lanes, lanes.len() as int);
}

/// Lanes of one chunk each fail where the chunks do.
proof fn lemma_single_lanes(
    d: Seq<u8>,
    chunks: Seq<ChunkInfoModel>,
    pipeline: PipelineModel,
    size: u32,
    lanes: Seq<Seq<usize>>,
    n: int,
)
    requires
        0 <= n <= lanes.len(),
        forall|l: int| 0 <= l < lanes.len() ==> #[trigger] lanes[l] == seq![l as usize],
        lanes.len() <= usize::MAX,
    ensures
        match lanes_of(d, chunks, pipeline, size, lanes, n) {
            Ok(_) => chunks_data(d, chunks, Some(pipeline), size, n) is Ok,
            Err(e) => chunks_data(d, chunks, Some(pipeline), size, n) == Err::<
                Seq<Seq<u8>>,
                ErrorModel,
            >(e),
        },
    decreases n,
{
    if n > 0 {
        lemma_single_lanes(d, chunks, pipeline, size, lanes, n - 1);
        assert(lanes[n - 1] == seq![(n - 1) as usize]);
        reveal_with_fuel(lane_of, 2);
    }
}

/// One lane for each chunk.
fn single_lanes(count: usize) -> (lanes: Vec<Vec<usize>>)
    ensures
        lanes@.len() == count,
        lanes.deep_view().len() == count,
        forall|l: int| 0 <= l < count ==> #[trigger] lanes.deep_view()[l] == seq![l as usize],
{
    let mut lanes: Vec<Vec<usize>> = Vec::with_capacity(count);
    while lanes.len() < count
        invariant
            lanes@.len() <= count,
            forall|l: int|
                0 <= l < lanes@.len() ==> (#[trigger] lanes@[l])@ =~= seq![l as usize],
        decreases count - lanes@.len(),
    {
        let i: usize = lanes.len();
        let mut lane: Vec<usize> = Vec::with_capacity(1);
        lane.push(i);
        lanes.push(lane);
    }
    proof {
        assert forall|l: int| 0 <= l < count implies #[trigger] lanes.deep_view()[l]
            == seq![l as usize] by {
            assert(lanes.deep_view()[l] =~= lanes@[l]@);
        }
    }
    lanes
}

/// Decompress chunks in parallel, each lane those that are assigned to it.
fn decompress_assigned_chunks(
    file_data: &[u8],
    chunks: &[ChunkInfo],
    pipeline: &FilterPipeline,
    chunk_total_bytes: usize,
    element_size: u32,
    assignments: &Vec<Vec<usize>>,
) -> (r: Result<(Vec<Vec<u8>>, PartitionStats), FormatError>)
    requires
        crate::lane_partition::is_partition(assignments.deep_view(), chunks@.len() as int),
    ensures
        is_work(
            file_data@,
            chunks.deep_view(),
            pipeline.deep_view(),
            element_size,
            assignments.deep_view(),
            r,
        ),
{
    let ghost d = file_data@;
    let ghost all = chunks.deep_view();
    let ghost pl = pipeline.deep_view();
    let ghost lanes = assignments.deep_view();
    let count: usize = chunks.len();
    proof {
        assert forall|l: int| 0 <= l < assignments@.len() implies crate::lane_partition::is_lane(
            (#[trigger] assignments@[l])@,
            count as int,
        ) by {
            assert(lanes[l] =~= assignments@[l]@);
        }
    }
    let mut results = run_lanes(
        file_data,
        chunks,
        pipeline,
        chunk_total_bytes,
        element_size,
        assignments,
    );
    proof {
        assert forall|m: int| 0 <= m < lanes.len() implies crate::error::outcome(
            #[trigger] results@[m],
        ) == lane_of(d, all, pl, element_size, lanes[m], lanes[m].len() as int) by {
            assert(lanes[m] =~= assignments@[m]@);
        }
    }
    let mut per_lane: Vec<LaneStats> = Vec::with_capacity(results.len());
    let mut ordered: Vec<Vec<u8>> = empty_lists(count);
    let ghost mut done = Seq::<LaneModel>::empty();
    let mut l: usize = 0;
    while l < results.len()
        invariant
            l <= results@.len(),
            d == file_data@,
            all == chunks.deep_view(),
            pl == pipeline.deep_view(),
            lanes == assignments.deep_view(),
            count == chunks@.len(),
            all.len() == count,
            results@.len() == lanes.len(),
            crate::lane_partition::is_partition(lanes, count as int),
            forall|m: int|
                0 <= m < lanes.len() ==> crate::error::outcome(#[trigger] results@[m]) == lane_of(
                    d,
                    all,
                    pl,
                    element_size,
                    lanes[m],
                    lanes[m].len() as int,
                ),
            lanes_of(d, all, pl, element_size, lanes, l as int) == Ok::<
                Seq<LaneModel>,
                ErrorModel,
            >(done),
            per_lane@ == Seq::new(l as nat, |m: int| done[m].stats),
            done.len() == l,
            ordered@.len() == count,
            is_filled(d, all, pl, element_size, lanes, ordered.deep_view(), l as int, 0),
        decreases results@.len() - l,
    {
        let ghost lane = lanes[l as int];
        let ghost got = lane_of(d, all, pl, element_size, lane, lane.len() as int);
        assert(crate::error::outcome(results@[l as int]) == got);
        match &results[l] {
            Err(_) => {
                proof {
                    lemma_lanes_error(
                        d,
                        all,
                        pl,
                        element_size,
                        lanes,
                        l + 1,
                        lanes.len() as int,
                    );
                }
                if let Err(e) = results.swap_remove(l) {
                    return Err(e);
                }
            },
            Ok(result) => {
                let ghost items = result.items.deep_view();
                proof {
                    lemma_lane_items(d, all, pl, element_size, lane, lane.len() as int);
                    assert(got == Ok::<LaneModel, ErrorModel>(result.deep_view()));
                }
                let mut k: usize = 0;
                while k < result.items.len()
                    invariant
                        k <= result.items@.len(),
                        l < lanes.len(),
                        lane == lanes[l as int],
                        items == result.items.deep_view(),
                        items.len() == lane.len(),
                        crate::lane_partition::is_partition(lanes, count as int),
                        forall|j: int|
                            0 <= j < lane.len() ==> (#[trigger] items[j]).0 == lane[j]
                                && crate::chunked_read::data_of(
                                d,
                                all[lane[j] as int],
                                Some(pl),
                                element_size,
                            ) == Ok::<Seq<u8>, ErrorModel>(items[j].1),
                        ordered@.len() == count,
                        is_filled(
                            d,
                            all,
                            pl,
                            element_size,
                            lanes,
                            ordered.deep_view(),
                            l as int,
                            k as int,
                        ),
                    decreases result.items@.len() - k,
                {
                    assert(items[k as int] == result.items@[k as int].deep_view());
                    let i: usize = result.items[k].0;
                    assert(crate::lane_partition::is_lane(lanes[l as int], count as int));
                    let ghost before = ordered.deep_view();
                    let data = slice_to_vec(result.items[k].1.as_slice());
                    assert(data@ =~= items[k as int].1);
                    assert(data.deep_view() =~= data@);
                    let ghost new_data = data@;
                    ordered.set(i, data);
                    assert(ordered.deep_view() =~= before.update(i as int, new_data));
                    assert(is_filled(
                        d,
                        all,
                        pl,
                        element_size,
                        lanes,
                        ordered.deep_view(),
                        l as int,
                        k + 1,
                    )) by {
                        assert forall|c: int, m: int, j: int|
                            #[trigger] crate::lane_partition::stands_at(lanes, c, m, j) && (m < l || m == l && j < k
                                + 1) implies crate::chunked_read::data_of(
                            d,
                            all[c],
                            Some(pl),
                            element_size,
                        ) == Ok::<Seq<u8>, ErrorModel>(ordered.deep_view()[c]) by {
                            if m == l && j == k {
                                assert(c == i);
                            } else if c == i {
                                assert(crate::lane_partition::stands_at(lanes, i as int, l as int, k as int));
                            }
                        }
                    }
                    k += 1;
                }
                per_lane.push(result.stats);
                proof {
                    done = done.push(result.deep_view());
                    assert(per_lane@ =~= Seq::new((l + 1) as nat, |m: int| done[m].stats));
                }
            },
        }
        l += 1;
    }
    proof {
        let out = ordered.deep_view();
        assert forall|i: int| 0 <= i < out.len() implies crate::chunked_read::data_of(
            d,
            all[i],
            Some(pl),
            element_size,
        ) == Ok::<Seq<u8>, ErrorModel>(#[trigger] out[i]) by {
            assert(crate::lane_partition::has_place(lanes, i));
            let (m, j) = choose|m: int, j: int| #[trigger] crate::lane_partition::stands_at(lanes, i, m, j);
            assert(crate::lane_partition::stands_at(lanes, i, m, j));
        }
        lemma_all_chunks(d, all, Some(pl), element_size, out, count as int);
        assert(out.subrange(0, count as int) =~= out);
    }
    Ok((ordered, PartitionStats { total_chunks: count, per_lane }))
}

/// Decompress chunks in parallel using lane-partitioned assignment.
///
/// Chunks are assigned to lanes by a seeded pseudorandom permutation. Each lane processes only its
/// assigned chunks: no redundant work, no coordination.
///
/// # Arguments
///
/// * `seed` - Seed for the partition permutation (e.g. dataset address and number of chunks).
/// * `num_lanes` - Number of parallel lanes.
///
/// # Errors
///
/// Returns the error of the first lane that fails.
pub fn decompress_chunks_lane_partitioned(
    file_data: &[u8],
    chunks: &[ChunkInfo],
    pipeline: &FilterPipeline,
    chunk_total_bytes: usize,
    element_size: u32,
    seed: u64,
    num_lanes: usize,
) -> (r: Result<(Vec<Vec<u8>>, PartitionStats), FormatError>)
    ensures
        is_work(
            file_data@,
            chunks.deep_view(),
            pipeline.deep_view(),
            element_size,
            crate::lane_partition::partition_of(chunks@.len(), num_lanes, seed),
            r,
        ),
{
    let assignments = partition_chunks(chunks.len(), num_lanes, seed);
    decompress_assigned_chunks(
        file_data,
        chunks,
        pipeline,
        chunk_total_bytes,
        element_size,
        &assignments,
    )
}

/// Decompress chunks in parallel, each on its own.
///
/// Each chunk is read from `file_data` at the address in the corresponding `ChunkInfo`,
/// decompressed through `pipeline`, and collected in order.
///
/// # Errors
///
/// Returns the error of the first chunk that fails.
pub fn decompress_chunks_parallel(
    file_data: &[u8],
    chunks: &[ChunkInfo],
    pipeline: &FilterPipeline,
    chunk_total_bytes: usize,
    element_size: u32,
) -> (r: Result<Vec<Vec<u8>>, FormatError>)
    ensures
        crate::error::outcome(r) == chunks_data(
            file_data@,
            chunks.deep_view(),
            Some(pipeline.deep_view()),
            element_size,
            chunks@.len() as int,
        ),
{
    let ghost d = file_data@;
    let ghost all = chunks.deep_view();
    let ghost pl = pipeline.deep_view();
    let lanes = single_lanes(chunks.len());
    let ghost n = all.len() as int;
    proof {
        assert forall|i: int, l: int, k: int|
            #[trigger] crate::lane_partition::stands_at(lanes.deep_view(), i, l, k) implies i == l
            && k == 0 by {}
        assert forall|i: int| 0 <= i < n implies #[trigger] crate::lane_partition::has_place(
            lanes.deep_view(),
            i,
        ) by {
            assert(crate::lane_partition::stands_at(lanes.deep_view(), i, i, 0));
        }
    }
    let r = decompress_assigned_chunks(
        file_data,
        chunks,
        pipeline,
        chunk_total_bytes,
        element_size,
        &lanes,
    );
    match r {
        Ok((data, _)) => Ok(data),
        Err(e) => {
            proof {
                lemma_single_lanes(d, all, pl, element_size, lanes.deep_view(), n);
            }
            Err(e)
        },
    }
}

} // verus!
