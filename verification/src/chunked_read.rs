//! Chunked dataset reading: B-tree v1 type 1 traversal and chunk assembly.

use vstd::prelude::*;
use vstd::slice::{slice_subrange, slice_to_vec};
use crate::bytes::{byte_len, order_u16, order_u32, put_fill, tag_at};
use crate::chunk_cache::{
    spatial_coord, AccessStats, CacheModel, ChunkCache, ChunkInfo, ChunkInfoModel,
};
use crate::data_layout::{DataLayout, DataLayoutModel};
use crate::dataspace::{
    checked_product, dims_product, Dataspace, DataspaceModel, DataspaceType,
};
use crate::datatype::Datatype;
use crate::error::{ErrorModel, FormatError};
use crate::extensible_array::{
    can_read_extensible_array, read_extensible_array_chunks, ExtensibleArrayHeader,
};
use crate::filter_pipeline::{FilterPipeline, PipelineModel};
use crate::filters::decompress_chunk;
use crate::fixed_array::{
    can_chunk, can_read_fixed_array, read_fixed_array_chunks, FixedArrayHeader,
};
use crate::grid::{
    checked_tail, checked_total, chunk_counts, copy_chunk_to_output, extent_product, grid_offsets,
    row_strides, to_words, to_words32, widen,
};
use crate::lane_partition::PartitionStats;
use crate::parallel_read::decompress_chunks_lane_partitioned;
pub use crate::sweep::SweepContext;
use crate::sweep::SweepModel;
use crate::text::put_decimal;
use crate::traversal::{Path, Visit};
use crate::utils::{ensure_len, read_offset};

verus! {

broadcast use vstd::std_specs::control_flow::group_control_flow_axioms;

/// Chunks, or the error.
pub type Chunks = Result<Seq<ChunkInfoModel>, ErrorModel>;

// ---- The data of a chunk ----

/// The data of a chunk: what the file holds at its address, with the filters undone unless the
/// mask says that some were not applied.
pub open spec fn data_of(
    d: Seq<u8>,
    info: ChunkInfoModel,
    pipeline: Option<PipelineModel>,
    size: u32,
) -> Result<Seq<u8>, ErrorModel> {
    let a = (info.address as usize) as int;
    let n = (info.chunk_size as usize) as int;
    if a + n > d.len() {
        Err(crate::utils::eof(d, a, n))
    } else {
        let raw = d.subrange(a, a + n);
        if pipeline is Some && info.filter_mask == 0 {
            let fs = pipeline->0.filters;
            crate::filters::decompressed(fs, fs.len() as int, raw, size)
        } else {
            Ok(raw)
        }
    }
}

/// Read and decompress the data of one chunk.
pub fn read_chunk(
    file_data: &[u8],
    chunk_info: &ChunkInfo,
    pipeline: Option<&FilterPipeline>,
    chunk_total_bytes: usize,
    element_size: u32,
) -> (r: Result<Vec<u8>, FormatError>)
    ensures
        ({
            let pl = match pipeline {
                Some(p) => Some(p.deep_view()),
                None => None,
            };
            match r {
                Ok(out) => data_of(file_data@, chunk_info.deep_view(), pl, element_size) == Ok::<
                    Seq<u8>,
                    ErrorModel,
                >(out@),
                Err(e) => data_of(file_data@, chunk_info.deep_view(), pl, element_size) == Err::<
                    Seq<u8>,
                    ErrorModel,
                >(e.deep_view()),
            }
        }),
{
    let c_addr: usize = chunk_info.address as usize;
    let size: usize = chunk_info.chunk_size as usize;
    ensure_len(file_data, c_addr, size)?;
    assert(file_data.len() == file_data@.len());
    let raw_chunk = slice_subrange(file_data, c_addr, c_addr + size);
    match pipeline {
        Some(pl) if chunk_info.filter_mask == 0 => decompress_chunk(
            raw_chunk,
            pl,
            chunk_total_bytes,
            element_size,
        ),
        _ => {
            let copy = slice_to_vec(raw_chunk);
            assert(copy@ =~= raw_chunk@);
            Ok(copy)
        },
    }
}

// ---- B-tree v1 ----

/// The length of a key: chunk size, filter mask and offsets.
pub open spec fn key_size(ndims: int, os: u8) -> int {
    8 + ndims * os
}

/// The number of entries of the node at `p`.
pub open spec fn entries_at(d: Seq<u8>, p: int) -> int {
    crate::bytes::u16_at(d, p + 6) as int
}

/// Where the first key of the node at `p` stands.
pub open spec fn keys_at(p: int, os: u8) -> int {
    p + 8 + 2 * os
}

/// Where entry `i` of the node at `p` stands.
pub open spec fn entry_at(p: int, i: int, ndims: int, os: u8) -> int {
    keys_at(p, os) + i * (key_size(ndims, os) + os)
}

/// Why the node at `p` cannot be read, if so.
pub open spec fn node_error(d: Seq<u8>, p: int, ndims: int, os: u8) -> Option<ErrorModel> {
    let n = entries_at(d, p);
    let needed = n * (key_size(ndims, os) + os) + key_size(ndims, os);
    if !crate::utils::fits(d, p, 8 + 2 * os) {
        Some(crate::utils::eof(d, p, 8 + 2 * os))
    } else if !crate::bytes::has_tag(d, p, seq![0x54, 0x52, 0x45, 0x45]) {
        Some(ErrorModel::Plain(FormatError::InvalidBTreeSignature))
    } else if d[p + 4] != 1 {
        Some(ErrorModel::Plain(FormatError::InvalidBTreeNodeType(d[p + 4])))
    } else if !crate::utils::fits(d, keys_at(p, os), needed) {
        Some(crate::utils::eof(d, keys_at(p, os), needed))
    } else if n > 0 && !crate::utils::is_width(os) {
        Some(ErrorModel::Plain(FormatError::InvalidOffsetSize(os)))
    } else {
        None
    }
}

/// The address in entry `i` of the node at `p`.
pub open spec fn child_at(d: Seq<u8>, p: int, i: int, ndims: int, os: u8) -> u64 {
    crate::utils::uint_at(d, entry_at(p, i, ndims, os) + key_size(ndims, os), os)
}

/// The chunk in entry `i` of the leaf at `p`.
pub open spec fn leaf_chunk(d: Seq<u8>, p: int, i: int, ndims: int, os: u8) -> ChunkInfoModel {
    let q = entry_at(p, i, ndims, os);
    ChunkInfoModel {
        chunk_size: crate::bytes::u32_at(d, q),
        filter_mask: crate::bytes::u32_at(d, q + 4),
        offsets: Seq::new(
            ndims as nat,
            |k: int| crate::utils::uint_at(d, q + 8 + k * os, os),
        ),
        address: child_at(d, p, i, ndims, os),
    }
}

/// What a visit to the node at `p` gives.
pub open spec fn visit_at(d: Seq<u8>, p: int, ndims: int, os: u8) -> Visit<ChunkInfoModel> {
    match node_error(d, p, ndims, os) {
        Some(e) => Visit::Leaf(Err(e)),
        None => if p < 0 {
            Visit::Leaf(Ok(Seq::empty()))
        } else if d[p + 5] == 0 {
            Visit::Leaf(
                Ok(Seq::new(entries_at(d, p) as nat, |i: int| leaf_chunk(d, p, i, ndims, os))),
            )
        } else {
            Visit::Inner(
                crate::traversal::positions(
                    Seq::new(entries_at(d, p) as nat, |i: int| child_at(d, p, i, ndims, os)),
                ),
            )
        },
    }
}

/// What visits to the nodes of a file give.
pub open spec fn visits(d: Seq<u8>, ndims: int, os: u8) -> spec_fn(int) -> Visit<ChunkInfoModel> {
    |p: int| visit_at(d, p, ndims, os)
}

/// The chunks of the tree at `p`: those in its leaves. No path in a file without cycles has more
/// nodes than the file has bytes.
pub open spec fn btree_chunks(d: Seq<u8>, p: int, ndims: int, os: u8) -> Chunks {
    crate::traversal::found(visits(d, ndims, os), p, d.len())
}

/// The bound on the depth of a tree makes no difference: if the leaves of the tree can be reached at
/// all, their chunks are found.
pub proof fn law_depth_is_irrelevant(d: Seq<u8>, p: int, ndims: int, os: u8, depth: nat)
    requires
        crate::traversal::ends(visits(d, ndims, os), p, depth),
    ensures
        btree_chunks(d, p, ndims, os) == crate::traversal::found(
            visits(d, ndims, os),
            p,
            depth,
        ),
{
    let visit = visits(d, ndims, os);
    assert forall|q: int| #[trigger] visit(q) is Inner implies 0 <= q < d.len() by {
        assert(visit(q) == visit_at(d, q, ndims, os));
    }
    assert forall|q: int|
        #[trigger] visit(q) != Visit::Leaf(
            Err::<Seq<ChunkInfoModel>, ErrorModel>(crate::traversal::too_deep()),
        ) by {
        assert(visit(q) == visit_at(d, q, ndims, os));
    }
    crate::traversal::law_traversal_ends(visit, d.len(), p, depth);
}

/// Traverse B-tree v1 type 1 to collect all chunk locations.
///
/// `ndims` is the number of offset dimensions in each key, which equals
/// `chunk_dimensions.len()` from the DataLayout::Chunked message (rank+1).
pub fn collect_chunk_info(
    file_data: &[u8],
    btree_address: u64,
    ndims: usize,
    offset_size: u8,
    _length_size: u8,
) -> (r: Result<Vec<ChunkInfo>, FormatError>)
    ensures
        crate::error::outcome(r) == btree_chunks(
            file_data@,
            (btree_address as usize) as int,
            ndims as int,
            offset_size,
        ),
{
    let ghost p = (btree_address as usize) as int;
    let ghost nd = ndims as int;
    let ghost visit = visits(file_data@, nd, offset_size);
    let limit: usize = byte_len(file_data);
    proof {
        crate::traversal::lemma_start(visit, p, limit as nat);
        assert(visit(p) == visit_at(file_data@, p, nd, offset_size));
    }
    let children = match visit_node(file_data, btree_address, ndims, offset_size)? {
        Node::Leaf(chunks) => {
            return Ok(chunks);
        },
        Node::Inner(children) => children,
    };
    if limit == 0 {
        return Err(FormatError::NestingDepthExceeded);
    }
    let mut path = Path::new(children);
    let mut chunks: Vec<ChunkInfo> = Vec::new();
    let mut done: bool = false;
    assert(chunks.deep_view() =~= Seq::<ChunkInfoModel>::empty());
    while !done
        invariant
            limit == file_data@.len(),
            p == (btree_address as usize) as int,
            nd == ndims,
            visit == visits(file_data@, nd, offset_size),
            path.levels().len() <= limit,
            btree_chunks(file_data@, p, nd, offset_size) == crate::traversal::resumed(
                visit,
                path.levels(),
                chunks.deep_view(),
                limit as nat,
            ),
            done ==> path.levels().len() == 0,
        decreases
                crate::traversal::steps_left(visit, path.levels(), limit as nat),
                if done {
                    0int
                } else {
                    1int
                },
    {
        let ghost before = chunks.deep_view();
        let (next, Ghost(levels)) = path.next_child::<ChunkInfoModel>(
            Ghost(visit),
            Ghost(before),
            Ghost(limit as nat),
        );
        match next {
            None => {
                done = true;
            },
            Some(address) => {
                let ghost q = (address as usize) as int;
                proof {
                    assert(visit(q) == visit_at(file_data@, q, nd, offset_size));
                    if visit(q) is Leaf {
                        crate::traversal::lemma_leaf(visit, levels, before, limit as nat);
                    } else {
                        crate::traversal::lemma_descend(visit, levels, before, limit as nat);
                    }
                }
                let depth: usize = path.len();
                match visit_node(file_data, address, ndims, offset_size)? {
                    Node::Leaf(found) => {
                        let mut rest = found;
                        chunks.append(&mut rest);
                        assert(chunks.deep_view() =~= before + found.deep_view());
                    },
                    Node::Inner(children) => {
                        if depth >= limit {
                            return Err(FormatError::NestingDepthExceeded);
                        }
                        path.descend(children);
                    },
                }
            },
        }
    }
    Ok(chunks)
}

/// A node of the tree.
enum Node {
    /// The chunks of a leaf.
    Leaf(Vec<ChunkInfo>),
    /// The addresses of the children of an inner node.
    Inner(Vec<u64>),
}

/// `n`, or the largest word where it exceeds that.
spec fn word_at_most(n: int) -> usize {
    if n <= usize::MAX {
        n as usize
    } else {
        usize::MAX
    }
}

/// The length of a key, and of all entries of a node and the key behind them.
fn node_room(ndims: usize, offset_size: u8, entries: usize) -> (r: (usize, usize))
    ensures
        ({
            let key = key_size(ndims as int, offset_size);
            &&& r.0 == word_at_most(key)
            &&& r.1 == word_at_most(entries * (key + offset_size) + key)
        }),
{
    let os: usize = offset_size as usize;
    let ghost key = key_size(ndims as int, offset_size);
    let ghost w = entries * (key + offset_size);
    proof {
        assert(ndims * offset_size >= 0) by (nonlinear_arith)
            requires
                ndims >= 0,
                offset_size >= 0,
        ;
        assert(w >= 0 && (entries > 0 ==> w >= key)) by (nonlinear_arith)
            requires
                w == entries * (key + offset_size),
                entries >= 0,
                key >= 8,
                offset_size >= 0,
        ;
        if entries == 0 {
            assert(w == 0);
        }
    }
    let all: usize = match ndims.checked_mul(os) {
        None => {
            return (usize::MAX, usize::MAX);
        },
        Some(n) => n.saturating_add(8),
    };
    let step: usize = match all.checked_add(os) {
        None => {
            return (all, if entries == 0 {
                all
            } else {
                usize::MAX
            });
        },
        Some(n) => n,
    };
    match entries.checked_mul(step) {
        None => (all, usize::MAX),
        Some(n) => (all, n.saturating_add(all)),
    }
}

/// Reads a node.
fn visit_node(file_data: &[u8], btree_address: u64, ndims: usize, offset_size: u8) -> (r: Result<
    Node,
    FormatError,
>)
    ensures
        visit_at(file_data@, (btree_address as usize) as int, ndims as int, offset_size) == match r {
            Err(e) => Visit::Leaf(Err(e.deep_view())),
            Ok(Node::Leaf(chunks)) => Visit::Leaf(Ok(chunks.deep_view())),
            Ok(Node::Inner(children)) => Visit::Inner(crate::traversal::positions(children@)),
        },
{
    let len: usize = byte_len(file_data);
    let offset: usize = btree_address as usize;
    let os: usize = offset_size as usize;
    let ghost p = offset as int;
    let ghost nd = ndims as int;
    // Parse B-tree v1 header
    let header_size: usize = 8 + os * 2;
    ensure_len(file_data, offset, header_size)?;
    if !tag_at(file_data, offset, 0x54, 0x52, 0x45, 0x45) {
        return Err(FormatError::InvalidBTreeSignature);
    }
    let node_type = file_data[offset + 4];
    if node_type != 1 {
        return Err(FormatError::InvalidBTreeNodeType(node_type));
    }
    let node_level = file_data[offset + 5];
    let entries_used: usize = order_u16(slice_subrange(file_data, offset + 6, offset + 8)) as usize;
    let start: usize = offset + header_size;
    // Key size: chunk_size(4) + filter_mask(4) + ndims * offset_size
    proof {
        assert(nd * offset_size >= 0) by (nonlinear_arith)
            requires
                nd >= 0,
                offset_size >= 0,
        ;
    }
    let (key, needed): (usize, usize) = node_room(ndims, offset_size, entries_used);
    let step: usize = key.saturating_add(os);
    ensure_len(file_data, start, needed)?;
    assert(needed <= isize::MAX);
    if entries_used > 0 {
        match offset_size {
            1 | 2 | 4 | 8 => {},
            _ => {
                return Err(FormatError::InvalidOffsetSize(offset_size));
            },
        }
    }
    assert(node_error(file_data@, p, nd, offset_size) is None);
    let mut chunks: Vec<ChunkInfo> = Vec::new();
    let mut children: Vec<u64> = Vec::new();
    assert(chunks.deep_view() =~= Seq::<ChunkInfoModel>::empty());
    let mut i: usize = 0;
    while i < entries_used
        invariant
            len == file_data@.len(),
            len <= isize::MAX,
            os == offset_size,
            p == (btree_address as usize) as int,
            nd == ndims,
            key == key_size(nd, offset_size),
            step == key + os,
            start == keys_at(p, offset_size),
            start + entries_used * step + key <= len,
            node_error(file_data@, p, nd, offset_size) is None,
            entries_used > 0 ==> crate::utils::is_width(offset_size),
            i <= entries_used,
            node_level == 0 ==> chunks.deep_view() == Seq::new(
                i as nat,
                |k: int| leaf_chunk(file_data@, p, k, nd, offset_size),
            ),
            node_level != 0 ==> children@ == Seq::new(
                i as nat,
                |k: int| child_at(file_data@, p, k, nd, offset_size),
            ),
        decreases entries_used - i,
    {
        proof {
            assert(i * step + step <= entries_used * step) by (nonlinear_arith)
                requires
                    i + 1 <= entries_used,
                    step >= 0,
            ;
            assert(i * step >= 0) by (nonlinear_arith)
                requires
                    i >= 0,
                    step >= 0,
            ;
        }
        let pos: usize = start + i * step;
        assert(pos == entry_at(p, i as int, nd, offset_size));
        let address = read_offset(file_data, pos + key, offset_size)?;
        assert(address == child_at(file_data@, p, i as int, nd, offset_size));
        let ghost before = chunks.deep_view();
        if node_level == 0 {
            let info = read_leaf_entry(file_data, pos, ndims, offset_size, address);
            chunks.push(info);
            assert(info.deep_view() == leaf_chunk(file_data@, p, i as int, nd, offset_size));
            assert(chunks.deep_view() =~= Seq::new(
                (i + 1) as nat,
                |k: int| leaf_chunk(file_data@, p, k, nd, offset_size),
            )) by {
                assert(chunks.deep_view() =~= before.push(info.deep_view()));
            }
        } else {
            children.push(address);
            assert(children@ =~= Seq::new(
                (i + 1) as nat,
                |k: int| child_at(file_data@, p, k, nd, offset_size),
            ));
        }
        i += 1;
    }
    if node_level == 0 {
        Ok(Node::Leaf(chunks))
    } else {
        Ok(Node::Inner(children))
    }
}

fn read_leaf_entry(
    file_data: &[u8],
    pos: usize,
    ndims: usize,
    offset_size: u8,
    address: u64,
) -> (info: ChunkInfo)
    requires
        file_data@.len() <= isize::MAX,
        crate::utils::is_width(offset_size),
        pos + key_size(ndims as int, offset_size) <= file_data@.len(),
    ensures
        info.deep_view() == (ChunkInfoModel {
            chunk_size: crate::bytes::u32_at(file_data@, pos as int),
            filter_mask: crate::bytes::u32_at(file_data@, pos + 4),
            offsets: Seq::new(
                ndims as nat,
                |k: int| crate::utils::uint_at(file_data@, pos + 8 + k * offset_size, offset_size),
            ),
            address,
        }),
{
    let os: usize = offset_size as usize;
    proof {
        assert(ndims * offset_size >= 0) by (nonlinear_arith)
            requires
                ndims >= 0,
                offset_size >= 0,
        ;
    }
    let chunk_size = order_u32(slice_subrange(file_data, pos, pos + 4));
    let filter_mask = order_u32(slice_subrange(file_data, pos + 4, pos + 8));
    let mut offsets: Vec<u64> = Vec::with_capacity(ndims);
    let mut kp: usize = pos + 8;
    let mut k: usize = 0;
    assert(0 * offset_size == 0);
    while k < ndims
        invariant
            k <= ndims,
            os == offset_size,
            file_data@.len() <= isize::MAX,
            crate::utils::is_width(offset_size),
            pos + 8 + ndims * offset_size <= file_data@.len(),
            kp == pos + 8 + k * offset_size,
            offsets@.len() == k,
            forall|j: int|
                0 <= j < k ==> #[trigger] offsets@[j] == crate::utils::uint_at(
                    file_data@,
                    pos + 8 + j * offset_size,
                    offset_size,
                ),
        decreases ndims - k,
    {
        proof {
            assert(k * offset_size + offset_size <= ndims * offset_size) by (nonlinear_arith)
                requires
                    k + 1 <= ndims,
                    offset_size >= 0,
            ;
            assert((k + 1) * offset_size == k * offset_size + offset_size) by (nonlinear_arith);
        }
        match read_offset(file_data, kp, offset_size) {
            Ok(v) => {
                offsets.push(v);
            },
            Err(_) => {
                assert(false);
            },
        }
        kp = kp + os;
        k += 1;
    }
    assert(offsets@ =~= Seq::new(
        ndims as nat,
        |k: int| crate::utils::uint_at(file_data@, pos + 8 + k * offset_size, offset_size),
    ));
    ChunkInfo { chunk_size, filter_mask, offsets, address }
}

// ---- Other indexes ----

/// The only chunk of a data set.
pub open spec fn single_chunk(
    chunk: Seq<usize>,
    address: u64,
    size: int,
    rank: int,
    filtered_size: Option<u64>,
    filter_mask: Option<u32>,
) -> ChunkInfoModel {
    ChunkInfoModel {
        chunk_size: match filtered_size {
            Some(n) => n as u32,
            None => (crate::grid::tail(chunk, 0) * size) as usize as u32,
        },
        filter_mask: if filtered_size is Some && filter_mask is Some {
            filter_mask->0
        } else {
            0
        },
        offsets: Seq::new(rank as nat, |i: int| 0u64),
        address,
    }
}

/// The chunk of a dataset that is stored as a single chunk.
pub fn collect_single_chunk_info(
    chunk_dims: &Vec<usize>,
    btree_addr: u64,
    elem_size: usize,
    rank: usize,
    single_filtered_size: Option<u64>,
    single_filter_mask: Option<u32>,
) -> (chunks: Vec<ChunkInfo>)
    requires
        crate::grid::prefixes_fit(chunk_dims@),
        crate::grid::tail(chunk_dims@, 0) * elem_size <= usize::MAX,
    ensures
        chunks.deep_view() == seq![
            single_chunk(
                chunk_dims@,
                btree_addr,
                elem_size as int,
                rank as int,
                single_filtered_size,
                single_filter_mask,
            ),
        ],
{
    proof {
        crate::grid::lemma_total_is_tail(chunk_dims@);
    }
    let chunk_byte_size: usize = extent_product(chunk_dims) * elem_size;
    let (chunk_size, filter_mask): (u32, u32) = match single_filtered_size {
        Some(fs) => match single_filter_mask {
            Some(fm) => (fs as u32, fm),
            None => (fs as u32, 0),
        },
        None => (chunk_byte_size as u32, 0),
    };
    let mut offsets: Vec<u64> = Vec::with_capacity(rank);
    let mut k: usize = 0;
    while k < rank
        invariant
            k <= rank,
            offsets@.len() == k,
            forall|i: int| 0 <= i < k ==> #[trigger] offsets@[i] == 0,
        decreases rank - k,
    {
        offsets.push(0);
        k += 1;
    }
    assert(offsets@ =~= Seq::new(rank as nat, |i: int| 0u64));
    let mut chunks: Vec<ChunkInfo> = Vec::new();
    chunks.push(ChunkInfo { chunk_size, filter_mask, offsets, address: btree_addr });
    assert(chunks.deep_view() =~= seq![
        single_chunk(
            chunk_dims@,
            btree_addr,
            elem_size as int,
            rank as int,
            single_filtered_size,
            single_filter_mask,
        ),
    ]);
    chunks
}

/// The number of chunks of an implicit index.
pub open spec fn implicit_count(dims: Seq<u64>, chunk: Seq<u32>, size: u32) -> nat {
    let g = crate::fixed_array::grid_of(dims, chunk, size);
    crate::dataspace::product(g.counts, g.counts.len() as int)
}

/// The chunks of an implicit index: they follow each other from `base` on.
pub open spec fn implicit_chunks(base: u64, dims: Seq<u64>, chunk: Seq<u32>, size: u32) -> Seq<
    ChunkInfoModel,
> {
    let g = crate::fixed_array::grid_of(dims, chunk, size);
    Seq::new(
        implicit_count(dims, chunk, size),
        |i: int|
            crate::fixed_array::chunk_at(
                g,
                i,
                g.bytes as u64 as u32,
                0,
                (base + i * g.bytes) as u64,
            ),
    )
}

/// Whether the chunks of an implicit index can be listed: they can be counted, and their addresses
/// fit in 64 bits.
pub open spec fn implicit_readable(base: u64, dims: Seq<u64>, chunk: Seq<u32>, size: u32) -> bool {
    let g = crate::fixed_array::grid_of(dims, chunk, size);
    &&& crate::fixed_array::is_chunkable(dims, chunk, size)
    &&& crate::dataspace::is_countable(g.counts)
    &&& implicit_count(dims, chunk, size) > 0 ==> base + (implicit_count(dims, chunk, size) - 1)
        * g.bytes <= u64::MAX
}

/// Generate ChunkInfo entries for an implicit index (v4 index type 2).
///
/// Chunks are stored contiguously starting at `base_address`. No stored index;
/// addresses are computed from the chunk position.
pub fn generate_implicit_chunks(
    base_address: u64,
    dataset_dims: &[u64],
    chunk_dimensions: &[u32],
    element_size: u32,
) -> (chunks: Vec<ChunkInfo>)
    requires
        implicit_readable(base_address, dataset_dims@, chunk_dimensions@, element_size),
    ensures
        chunks.deep_view() == implicit_chunks(
            base_address,
            dataset_dims@,
            chunk_dimensions@,
            element_size,
        ),
{
    let ghost g = crate::fixed_array::grid_of(dataset_dims@, chunk_dimensions@, element_size);
    let chunk = widen(chunk_dimensions, chunk_dimensions.len());
    proof {
        assert forall|i: int| 0 <= i < chunk@.len() implies #[trigger] chunk@[i] > 0 by {
            assert(chunk_dimensions@[i] > 0);
        }
    }
    let chunk_byte_size: u64 = dims_product(&chunk) * (element_size as u64);
    let counts = chunk_counts(dataset_dims, &chunk);
    let total_chunks: u64 = dims_product(&counts);
    let ghost goal = implicit_chunks(
        base_address,
        dataset_dims@,
        chunk_dimensions@,
        element_size,
    );
    let mut chunks: Vec<ChunkInfo> = Vec::new();
    let mut linear_idx: u64 = 0;
    proof {
        if total_chunks > 0 {
            lemma_counts_grid(dataset_dims@, chunk@);
        }
    }
    while linear_idx < total_chunks
        invariant
            linear_idx <= total_chunks,
            total_chunks == goal.len(),
            total_chunks > 0 ==> crate::grid::is_grid(counts@, chunk@),
            counts@ == g.counts,
            chunk@ == g.chunk,
            chunk_byte_size == g.bytes,
            total_chunks > 0 ==> base_address + (total_chunks - 1) * chunk_byte_size <= u64::MAX,
            goal == Seq::new(
                total_chunks as nat,
                |i: int|
                    crate::fixed_array::chunk_at(
                        g,
                        i,
                        g.bytes as u64 as u32,
                        0,
                        (base_address + i * g.bytes) as u64,
                    ),
            ),
            chunks@.len() == linear_idx,
            forall|i: int|
                0 <= i < linear_idx ==> (#[trigger] chunks@[i]).deep_view() == goal[i],
        decreases total_chunks - linear_idx,
    {
        let offsets = grid_offsets(linear_idx, counts.as_slice(), chunk.as_slice());
        proof {
            assert(linear_idx * chunk_byte_size <= (total_chunks - 1) * chunk_byte_size)
                by (nonlinear_arith)
                requires
                    linear_idx <= total_chunks - 1,
                    chunk_byte_size >= 0,
            ;
            assert(linear_idx * chunk_byte_size >= 0) by (nonlinear_arith)
                requires
                    linear_idx >= 0,
                    chunk_byte_size >= 0,
            ;
        }
        chunks.push(
            ChunkInfo {
                chunk_size: chunk_byte_size as u32,
                filter_mask: 0,
                offsets,
                address: base_address + linear_idx * chunk_byte_size,
            },
        );
        linear_idx += 1;
    }
    assert(chunks.deep_view() =~= goal);
    chunks
}

/// Where there are chunks at all, they form a grid.
proof fn lemma_counts_grid(dims: Seq<u64>, chunk: Seq<u64>)
    requires
        chunk.len() <= dims.len(),
        forall|i: int| 0 <= i < chunk.len() ==> #[trigger] chunk[i] > 0,
        crate::dataspace::product(
            crate::grid::counts_of(dims, chunk),
            chunk.len() as int,
        ) > 0,
    ensures
        crate::grid::is_grid(crate::grid::counts_of(dims, chunk), chunk),
{
    let counts = crate::grid::counts_of(dims, chunk);
    assert forall|i: int| 0 <= i < chunk.len() implies #[trigger] dims[i] > 0 by {
        crate::chunked_write::lemma_factor_positive(counts, chunk.len() as int, i);
        assert(chunk[i] > 0);
        if dims[i] == 0 {
            assert(counts[i] == 0) by {
                assert(0int % (chunk[i] as int) == 0) by (nonlinear_arith)
                    requires
                        chunk[i] > 0,
                ;
                assert(0int / (chunk[i] as int) == 0) by (nonlinear_arith)
                    requires
                        chunk[i] > 0,
                ;
            }
        }
    }
    crate::grid::lemma_counts_are_grid(dims, chunk);
}

// ---- Any index ----

/// The chunked layout of a data set, and what is needed to read it.
pub struct ChunkedModel {
    pub chunk_dimensions: Seq<u32>,
    pub address: u64,
    pub version: u8,
    pub index_type: Option<u8>,
    pub filtered_size: Option<u64>,
    pub filter_mask: Option<u32>,
    pub dims: Seq<u64>,
    pub size: u32,
    pub os: u8,
    pub ls: u8,
}

/// An optional number as it is shown in a message.
pub open spec fn shown(n: Option<u8>) -> Seq<char> {
    match n {
        Some(v) => "Some("@ + crate::text::decimal(v as nat) + ")"@,
        None => "None"@,
    }
}

impl ChunkedModel {
    /// The number of axes.
    pub open spec fn rank(self) -> int {
        self.chunk_dimensions.len() - 1
    }

    /// The extents of a chunk.
    pub open spec fn chunk(self) -> Seq<u32> {
        self.chunk_dimensions.subrange(0, self.rank())
    }

    /// The extents of a chunk as machine words.
    pub open spec fn chunk_words(self) -> Seq<usize> {
        crate::grid::words32(self.chunk_dimensions, self.rank())
    }

    /// The extents of the data set as machine words.
    pub open spec fn dim_words(self) -> Seq<usize> {
        crate::grid::words(self.dims)
    }

    /// The chunks that the index holds.
    pub open spec fn chunks(self, d: Seq<u8>) -> Chunks {
        let p = (self.address as usize) as int;
        if self.version == 3 {
            btree_chunks(d, p, self.chunk_dimensions.len() as int, self.os)
        } else if self.version == 4 && self.index_type == Some(1u8) {
            Ok(
                seq![
                    single_chunk(
                        self.chunk_words(),
                        self.address,
                        self.size as int,
                        self.rank(),
                        self.filtered_size,
                        self.filter_mask,
                    ),
                ],
            )
        } else if self.version == 4 && self.index_type == Some(2u8) {
            Ok(implicit_chunks(self.address, self.dims, self.chunk(), self.size))
        } else if self.version == 4 && self.index_type == Some(3u8) {
            match crate::fixed_array::fixed_array_at(d, p, self.os, self.ls) {
                Err(e) => Err(e),
                Ok(h) => crate::fixed_array::fixed_chunks(
                    d,
                    h,
                    self.dims,
                    self.chunk(),
                    self.size,
                    self.os,
                ),
            }
        } else if self.version == 4 && self.index_type == Some(4u8) {
            match crate::extensible_array::extensible_array_at(d, p, self.os, self.ls) {
                Err(e) => Err(e),
                Ok(h) => crate::extensible_array::extensible_chunks(
                    d,
                    h,
                    self.dims,
                    self.chunk(),
                    self.size,
                    self.os,
                ),
            }
        } else {
            Err(
                ErrorModel::ChunkedReadError(
                    "unsupported chunked layout version="@ + crate::text::decimal(
                        self.version as nat,
                    ) + ", index_type="@ + shown(self.index_type),
                ),
            )
        }
    }

    /// Whether the index can be read.
    pub open spec fn index_readable(self, d: Seq<u8>) -> bool {
        let p = (self.address as usize) as int;
        if self.version == 4 && self.index_type == Some(1u8) {
            &&& crate::grid::prefixes_fit(self.chunk_words())
            &&& crate::grid::tail(self.chunk_words(), 0) * self.size <= usize::MAX
        } else if self.version == 4 && self.index_type == Some(2u8) {
            implicit_readable(self.address, self.dims, self.chunk(), self.size)
        } else if self.version == 4 && self.index_type == Some(3u8) {
            crate::fixed_array::fixed_array_at(d, p, self.os, self.ls) matches Ok(h)
                ==> crate::fixed_array::fixed_array_readable(
                d,
                h,
                self.dims,
                self.chunk(),
                self.size,
                self.os,
            )
        } else if self.version == 4 && self.index_type == Some(4u8) {
            crate::extensible_array::extensible_array_at(d, p, self.os, self.ls) matches Ok(h)
                ==> crate::extensible_array::extensible_array_readable(
                d,
                h,
                self.dims,
                self.chunk(),
                self.size,
                self.os,
            )
        } else {
            true
        }
    }

    /// Whether a chunk can be placed in the data set: it has an offset for each axis.
    pub open spec fn placeable(self, info: ChunkInfoModel) -> bool {
        self.rank() <= info.offsets.len()
    }

    /// Whether all counts, strides and sizes of the data set and of its chunks fit in the machine
    /// word.
    pub open spec fn geometry_fits(self) -> bool {
        let cd = self.chunk_words();
        let dd = self.dim_words();
        &&& crate::grid::strides_fit(cd)
        &&& crate::grid::prefixes_fit(cd)
        &&& crate::grid::tail(cd, 0) * self.size <= usize::MAX
        &&& crate::grid::strides_fit(dd)
        &&& crate::grid::tail(dd, 0) <= usize::MAX
        &&& crate::grid::tail(dd, 0) * self.size <= usize::MAX
    }

    /// Whether the given chunks can be placed in the output, and the output fits in memory.
    pub open spec fn assemblable(self, space: DataspaceModel, chunks: Seq<ChunkInfoModel>) -> bool {
        &&& output_fits(space, self.size)
        &&& self.geometry_fits()
        &&& forall|i: int| 0 <= i < chunks.len() ==> self.placeable(#[trigger] chunks[i])
    }

    /// `out` with the data of a chunk in its place.
    pub open spec fn placed(self, out: Seq<u8>, info: ChunkInfoModel, data: Seq<u8>) -> Seq<u8> {
        if self.rank() == 0 {
            Seq::new(
                out.len(),
                |k: int|
                    if k < data.len() {
                        data[k]
                    } else {
                        out[k]
                    },
            )
        } else {
            crate::grid::overlaid(
                out,
                data,
                crate::grid::words(crate::chunk_cache::spatial(info.offsets, self.rank())),
                self.chunk_words(),
                self.dim_words(),
                self.size as int,
            )
        }
    }

    /// The data of the first `n` chunks.
    pub open spec fn all_data(
        self,
        d: Seq<u8>,
        chunks: Seq<ChunkInfoModel>,
        pipeline: Option<PipelineModel>,
        n: int,
    ) -> Result<Seq<Seq<u8>>, ErrorModel>
        decreases n,
    {
        if n <= 0 {
            Ok(Seq::empty())
        } else {
            match self.all_data(d, chunks, pipeline, n - 1) {
                Err(e) => Err(e),
                Ok(done) => match data_of(d, chunks[n - 1], pipeline, self.size) {
                    Err(e) => Err(e),
                    Ok(data) => Ok(done.push(data)),
                },
            }
        }
    }

    /// `out` with the data of the first `n` chunks in their places.
    pub open spec fn assembled(
        self,
        out: Seq<u8>,
        chunks: Seq<ChunkInfoModel>,
        data: Seq<Seq<u8>>,
        n: int,
    ) -> Seq<u8>
        decreases n,
    {
        if n <= 0 {
            out
        } else {
            self.placed(self.assembled(out, chunks, data, n - 1), chunks[n - 1], data[n - 1])
        }
    }
}

/// The number of bytes of the data set.
pub open spec fn output_size(space: DataspaceModel, size: u32) -> int {
    (space.elements() as u64 as usize) * size
}

/// What the layout, the data space and the element size say of a chunked data set, or why it
/// cannot be read.
pub open spec fn chunked_model(
    layout: DataLayoutModel,
    space: DataspaceModel,
    size: u32,
    os: u8,
    ls: u8,
) -> Result<ChunkedModel, ErrorModel> {
    match layout {
        DataLayoutModel::Chunked {
            chunk_dimensions,
            btree_address,
            version,
            chunk_index_type,
            single_chunk_filtered_size,
            single_chunk_filter_mask,
        } => match btree_address {
            None => Err(ErrorModel::ChunkedReadError("no address for chunked layout"@)),
            Some(address) => if space.dimensions.len() != chunk_dimensions.len() - 1 {
                Err(
                    ErrorModel::ChunkedReadError(
                        rank_mismatch(space.dimensions.len(), chunk_dimensions.len()),
                    ),
                )
            } else {
                Ok(
                    ChunkedModel {
                        chunk_dimensions,
                        address,
                        version,
                        index_type: chunk_index_type,
                        filtered_size: single_chunk_filtered_size,
                        filter_mask: single_chunk_filter_mask,
                        dims: space.dimensions,
                        size,
                        os,
                        ls,
                    },
                )
            },
        },
        _ => Err(ErrorModel::ChunkedReadError("expected chunked layout"@)),
    }
}

/// The message for a data space of `a` axes and a layout of `b` extents.
pub open spec fn rank_mismatch(a: nat, b: nat) -> Seq<char> {
    "rank mismatch: dataspace has "@ + crate::text::decimal(a) + " dims, layout has "@
        + crate::text::decimal(b) + " chunk dims (rank="@ + crate::text::decimal((b - 1) as nat)
        + ")"@
}

/// The content of a chunked data set.
pub open spec fn chunked_data(
    d: Seq<u8>,
    layout: DataLayoutModel,
    space: DataspaceModel,
    size: u32,
    pipeline: Option<PipelineModel>,
    os: u8,
    ls: u8,
) -> Result<Seq<u8>, ErrorModel> {
    match chunked_model(layout, space, size, os, ls) {
        Err(e) => Err(e),
        Ok(m) => match m.chunks(d) {
            Err(e) => Err(e),
            Ok(chunks) => match m.all_data(d, chunks, pipeline, chunks.len() as int) {
                Err(e) => Err(e),
                Ok(data) => Ok(
                    m.assembled(
                        Seq::new(output_size(space, size) as nat, |i: int| 0u8),
                        chunks,
                        data,
                        chunks.len() as int,
                    ),
                ),
            },
        },
    }
}

/// Whether the layout has an extent for the elements, where it has an address.
pub open spec fn has_extents(layout: DataLayoutModel) -> bool {
    match layout {
        DataLayoutModel::Chunked { chunk_dimensions, btree_address, .. } => btree_address is Some
            ==> chunk_dimensions.len() > 0,
        _ => true,
    }
}

/// Whether the output of the data set fits in memory.
pub open spec fn output_fits(space: DataspaceModel, size: u32) -> bool {
    &&& space.space_type == crate::dataspace::DataspaceType::Simple
        ==> crate::dataspace::is_countable(space.dimensions)
    &&& output_size(space, size) <= isize::MAX
}

/// Whether a chunked data set can be read: its index can be read, its chunks can be placed, and
/// all counts, strides and sizes fit in the machine word.
pub open spec fn chunked_readable(
    d: Seq<u8>,
    layout: DataLayoutModel,
    space: DataspaceModel,
    size: u32,
    os: u8,
    ls: u8,
) -> bool {
    &&& has_extents(layout)
    &&& chunked_model(layout, space, size, os, ls) matches Ok(m) ==> {
        &&& m.index_readable(d)
        &&& m.chunks(d) matches Ok(chunks) ==> m.assemblable(space, chunks)
    }
}

// ---- Reading ----

/// What is needed to read a chunked data set.
struct ChunkedReader<'a> {
    file_data: &'a [u8],
    dataspace: &'a Dataspace,
    chunk_dimensions: &'a Vec<u32>,
    address: u64,
    version: u8,
    index_type: Option<u8>,
    filtered_size: Option<u64>,
    filter_mask: Option<u32>,
    chunk_dims: Vec<usize>,
    ds_dims: Vec<usize>,
    element_size: u32,
    offset_size: u8,
    length_size: u8,
}

impl<'a> ChunkedReader<'a> {
    spec fn model(&self) -> ChunkedModel {
        ChunkedModel {
            chunk_dimensions: self.chunk_dimensions@,
            address: self.address,
            version: self.version,
            index_type: self.index_type,
            filtered_size: self.filtered_size,
            filter_mask: self.filter_mask,
            dims: self.dataspace.dimensions@,
            size: self.element_size,
            os: self.offset_size,
            ls: self.length_size,
        }
    }

    spec fn wf(&self) -> bool {
        &&& self.chunk_dimensions@.len() > 0
        &&& self.dataspace.dimensions@.len() == self.model().rank()
        &&& self.chunk_dims@ == self.model().chunk_words()
        &&& self.ds_dims@ == self.model().dim_words()
    }

    /// Check that the layout is chunked and fits the data space.
    fn new(
        file_data: &'a [u8],
        layout: &'a DataLayout,
        dataspace: &'a Dataspace,
        datatype: &Datatype,
        offset_size: u8,
        length_size: u8,
    ) -> (r: Result<Self, FormatError>)
        requires
            has_extents(layout.deep_view()),
        ensures
            match r {
                Ok(reader) => {
                    &&& reader.wf()
                    &&& reader.file_data == file_data
                    &&& reader.dataspace == dataspace
                    &&& chunked_model(
                        layout.deep_view(),
                        dataspace.deep_view(),
                        datatype.model().size(),
                        offset_size,
                        length_size,
                    ) == Ok::<ChunkedModel, ErrorModel>(reader.model())
                },
                Err(e) => chunked_model(
                    layout.deep_view(),
                    dataspace.deep_view(),
                    datatype.model().size(),
                    offset_size,
                    length_size,
                ) == Err::<ChunkedModel, ErrorModel>(e.deep_view()),
            },
    {
        match layout {
            DataLayout::Chunked {
                chunk_dimensions,
                btree_address,
                version,
                chunk_index_type,
                single_chunk_filtered_size,
                single_chunk_filter_mask,
            } => {
                let address: u64 = match btree_address {
                    Some(a) => *a,
                    None => {
                        return Err(FormatError::chunked("no address for chunked layout"));
                    },
                };
                // Both v3 and v4 include element size as last dim (rank+1)
                let rank: usize = chunk_dimensions.len() - 1;
                let chunk_dims = to_words32(chunk_dimensions, rank);
                let ds_dims = to_words(&dataspace.dimensions);
                if ds_dims.len() != rank {
                    return Err(
                        mismatch_error(ds_dims.len() as u64, chunk_dimensions.len() as u64),
                    );
                }
                Ok(
                    ChunkedReader {
                        file_data,
                        dataspace,
                        chunk_dimensions,
                        address,
                        version: *version,
                        index_type: *chunk_index_type,
                        filtered_size: *single_chunk_filtered_size,
                        filter_mask: *single_chunk_filter_mask,
                        chunk_dims,
                        ds_dims,
                        element_size: datatype.type_size(),
                        offset_size,
                        length_size,
                    },
                )
            },
            _ => Err(FormatError::chunked("expected chunked layout")),
        }
    }

    /// Collect the chunks, whatever the type of the index.
    fn collect_chunks(&self) -> (r: Result<Vec<ChunkInfo>, FormatError>)
        requires
            self.wf(),
            self.model().index_readable(self.file_data@),
        ensures
            crate::error::outcome(r) == self.model().chunks(self.file_data@),
    {
        let rank: usize = self.chunk_dims.len();
        let ndims: usize = self.chunk_dimensions.len();
        let spatial = slice_subrange(self.chunk_dimensions.as_slice(), 0, rank);
        assert(spatial@ =~= self.model().chunk());
        let dims = self.dataspace.dimensions.as_slice();
        if self.version == 3 {
            return collect_chunk_info(
                self.file_data,
                self.address,
                ndims,
                self.offset_size,
                self.length_size,
            );
        }
        if self.version == 4 {
            match self.index_type {
                Some(1) => {
                    return Ok(
                        collect_single_chunk_info(
                            &self.chunk_dims,
                            self.address,
                            self.element_size as usize,
                            rank,
                            self.filtered_size,
                            self.filter_mask,
                        ),
                    );
                },
                Some(2) => {
                    return Ok(
                        generate_implicit_chunks(self.address, dims, spatial, self.element_size),
                    );
                },
                Some(3) => {
                    let header = FixedArrayHeader::parse(
                        self.file_data,
                        self.address as usize,
                        self.offset_size,
                        self.length_size,
                    )?;
                    return read_fixed_array_chunks(
                        self.file_data,
                        &header,
                        dims,
                        spatial,
                        self.element_size,
                        self.offset_size,
                        self.length_size,
                    );
                },
                Some(4) => {
                    let header = ExtensibleArrayHeader::parse(
                        self.file_data,
                        self.address as usize,
                        self.offset_size,
                        self.length_size,
                    )?;
                    return read_extensible_array_chunks(
                        self.file_data,
                        &header,
                        dims,
                        spatial,
                        self.element_size,
                        self.offset_size,
                        self.length_size,
                    );
                },
                _ => {},
            }
        }
        Err(unsupported_error(self.version, self.index_type))
    }

    /// A buffer of zeros for the data set.
    fn new_output(&self) -> (output: Vec<u8>)
        requires
            output_fits(self.dataspace.deep_view(), self.element_size),
        ensures
            output@ == Seq::new(
                output_size(self.dataspace.deep_view(), self.element_size) as nat,
                |i: int| 0u8,
            ),
    {
        let total_elements: usize = self.dataspace.num_elements() as usize;
        let total_bytes: usize = total_elements * (self.element_size as usize);
        let mut output: Vec<u8> = Vec::with_capacity(total_bytes);
        put_fill(&mut output, 0, total_bytes);
        assert(output@ =~= Seq::new(total_bytes as nat, |i: int| 0u8));
        output
    }

    /// Put the data of a chunk in its place.
    fn place_chunk(
        &self,
        output: &mut Vec<u8>,
        info: &ChunkInfo,
        data: &[u8],
        ds_strides: &Vec<usize>,
        chunk_strides: &Vec<usize>,
    )
        requires
            self.wf(),
            self.model().geometry_fits(),
            self.model().placeable(info.deep_view()),
            crate::grid::are_strides(ds_strides@, self.ds_dims@),
            crate::grid::are_strides(chunk_strides@, self.chunk_dims@),
            self.element_size > 0 ==> old(output)@.len() % self.element_size as nat == 0,
            self.element_size == 0 ==> old(output)@.len() == 0,
        ensures
            final(output)@ == self.model().placed(old(output)@, info.deep_view(), data@),
            final(output)@.len() == old(output)@.len(),
    {
        let rank: usize = self.chunk_dims.len();
        if rank == 0 {
            let copy_len: usize = if data.len() < output.len() {
                data.len()
            } else {
                output.len()
            };
            let mut k: usize = 0;
            while k < copy_len
                invariant
                    k <= copy_len,
                    copy_len <= data@.len(),
                    copy_len <= output@.len(),
                    output@.len() == old(output)@.len(),
                    forall|j: int|
                        0 <= j < output@.len() ==> #[trigger] output@[j] == if j < k {
                            data@[j]
                        } else {
                            old(output)@[j]
                        },
                decreases copy_len - k,
            {
                output.set(k, data[k]);
                k += 1;
            }
            assert(output@ =~= self.model().placed(old(output)@, info.deep_view(), data@));
        } else {
            // B-tree v1 (v3) offsets have rank+1 dims; v4 index offsets have rank dims
            let coord = spatial_coord(info, rank);
            let chunk_offsets = to_words(&coord);
            copy_chunk_to_output(
                data,
                output,
                &chunk_offsets,
                &self.chunk_dims,
                &self.ds_dims,
                ds_strides,
                chunk_strides,
                self.element_size as usize,
            );
        }
    }
}

fn mismatch_error(a: u64, b: u64) -> (e: FormatError)
    requires
        b > 0,
    ensures
        e.deep_view() == ErrorModel::ChunkedReadError(rank_mismatch(a as nat, b as nat)),
{
    let mut text = "rank mismatch: dataspace has ".to_owned();
    put_decimal(&mut text, a);
    text.append(" dims, layout has ");
    put_decimal(&mut text, b);
    text.append(" chunk dims (rank=");
    put_decimal(&mut text, b - 1);
    text.append(")");
    FormatError::ChunkedReadError(text)
}

fn unsupported_error(version: u8, index_type: Option<u8>) -> (e: FormatError)
    ensures
        e.deep_view() == ErrorModel::ChunkedReadError(
            "unsupported chunked layout version="@ + crate::text::decimal(version as nat)
                + ", index_type="@ + shown(index_type),
        ),
{
    let mut text = "unsupported chunked layout version=".to_owned();
    put_decimal(&mut text, version as u64);
    text.append(", index_type=");
    let ghost before = text@;
    match index_type {
        Some(v) => {
            text.append("Some(");
            put_decimal(&mut text, v as u64);
            text.append(")");
        },
        None => {
            text.append("None");
        },
    }
    assert(text@ =~= before + shown(index_type));
    FormatError::ChunkedReadError(text)
}

/// Decompress all chunks.
fn decompress_all_chunks(
    file_data: &[u8],
    chunks: &[ChunkInfo],
    pipeline: Option<&FilterPipeline>,
    chunk_total_bytes: usize,
    element_size: u32,
    Ghost(m): Ghost<ChunkedModel>,
) -> (r: Result<Vec<Vec<u8>>, FormatError>)
    requires
        m.size == element_size,
    ensures
        ({
            let pl = match pipeline {
                Some(p) => Some(p.deep_view()),
                None => None,
            };
            let all = m.all_data(file_data@, chunks.deep_view(), pl, chunks@.len() as int);
            match r {
                Ok(data) => all == Ok::<Seq<Seq<u8>>, ErrorModel>(views(data@)),
                Err(e) => all == Err::<Seq<Seq<u8>>, ErrorModel>(e.deep_view()),
            }
        }),
{
    let mut result: Vec<Vec<u8>> = Vec::with_capacity(chunks.len());
    let ghost infos = chunks.deep_view();
    let ghost pl = match pipeline {
        Some(p) => Some(p.deep_view()),
        None => None,
    };
    let mut k: usize = 0;
    assert(views(result@) =~= Seq::<Seq<u8>>::empty());
    while k < chunks.len()
        invariant
            k <= chunks@.len(),
            m.size == element_size,
            infos == chunks.deep_view(),
            pl == match pipeline {
                Some(p) => Some(p.deep_view()),
                None => None,
            },
            m.all_data(file_data@, infos, pl, k as int) == Ok::<Seq<Seq<u8>>, ErrorModel>(
                views(result@),
            ),
        decreases chunks@.len() - k,
    {
        assert(infos[k as int] == chunks@[k as int].deep_view());
        let ghost before = views(result@);
        let data = match read_chunk(
            file_data,
            &chunks[k],
            pipeline,
            chunk_total_bytes,
            element_size,
        ) {
            Ok(data) => data,
            Err(e) => {
                proof {
                    lemma_data_error(m, file_data@, infos, pl, k + 1, chunks@.len() as int);
                }
                return Err(e);
            },
        };
        result.push(data);
        assert(views(result@) =~= before.push(data@));
        k += 1;
    }
    Ok(result)
}

/// Decompress all chunks with lane-partitioned parallelism and return per-lane diagnostics.
///
/// This is the stats-returning variant for callers who want to inspect the partition balance.
pub fn decompress_all_chunks_with_stats(
    file_data: &[u8],
    chunks: &[ChunkInfo],
    pipeline: &FilterPipeline,
    chunk_total_bytes: usize,
    element_size: u32,
    seed: u64,
    num_lanes: usize,
) -> (r: Result<(Vec<Vec<u8>>, PartitionStats), FormatError>)
    ensures
        crate::parallel_read::is_work(
            file_data@,
            chunks.deep_view(),
            pipeline.deep_view(),
            element_size,
            crate::lane_partition::partition_of(chunks@.len(), num_lanes, seed),
            r,
        ),
{
    decompress_chunks_lane_partitioned(
        file_data,
        chunks,
        pipeline,
        chunk_total_bytes,
        element_size,
        seed,
        num_lanes,
    )
}

/// The contents of the vectors.
pub open spec fn views(data: Seq<Vec<u8>>) -> Seq<Seq<u8>> {
    Seq::new(data.len(), |i: int| data[i]@)
}

/// An error of one chunk is the error of all.
pub proof fn lemma_data_error(
    m: ChunkedModel,
    d: Seq<u8>,
    chunks: Seq<ChunkInfoModel>,
    pipeline: Option<PipelineModel>,
    k: int,
    n: int,
)
    requires
        0 <= k <= n,
        m.all_data(d, chunks, pipeline, k) is Err,
    ensures
        m.all_data(d, chunks, pipeline, n) == m.all_data(d, chunks, pipeline, k),
    decreases n - k,
{
    if k < n {
        lemma_data_error(m, d, chunks, pipeline, k, n - 1);
    }
}

/// The size of the output is a multiple of the element size.
proof fn lemma_output_size(space: DataspaceModel, size: u32)
    ensures
        size > 0 ==> output_size(space, size) % (size as int) == 0,
        size == 0 ==> output_size(space, size) == 0,
        output_size(space, size) >= 0,
{
    let n = (space.elements() as u64 as usize) as int;
    assert(n * size >= 0) by (nonlinear_arith)
        requires
            n >= 0,
            size >= 0,
    ;
    if size > 0 {
        vstd::arithmetic::div_mod::lemma_mod_multiples_basic(n, size as int);
    } else {
        assert(n * 0 == 0);
    }
}

/// Whether the chunks of an implicit index can be listed.
pub fn can_list_implicit(
    base_address: u64,
    dataset_dims: &[u64],
    chunk_dimensions: &[u32],
    element_size: u32,
) -> (r: bool)
    ensures
        r == implicit_readable(base_address, dataset_dims@, chunk_dimensions@, element_size),
{
    if !can_chunk(dataset_dims, chunk_dimensions, element_size) {
        return false;
    }
    let chunk = widen(chunk_dimensions, chunk_dimensions.len());
    proof {
        assert forall|i: int| 0 <= i < chunk@.len() implies #[trigger] chunk@[i] > 0 by {
            assert(chunk_dimensions@[i] > 0);
        }
    }
    let chunk_byte_size: u64 = dims_product(&chunk) * (element_size as u64);
    let counts = chunk_counts(dataset_dims, &chunk);
    match checked_product(counts.as_slice()) {
        None => false,
        Some(0) => true,
        Some(n) => match (n - 1).checked_mul(chunk_byte_size) {
            None => false,
            Some(room) => room.checked_add(base_address).is_some(),
        },
    }
}

/// Whether the output of the data set fits in memory.
fn can_output(dataspace: &Dataspace, size: u32) -> (r: bool)
    ensures
        r == output_fits(dataspace.deep_view(), size),
{
    match dataspace.space_type {
        DataspaceType::Simple => {
            if checked_product(dataspace.dimensions.as_slice()).is_none() {
                return false;
            }
        },
        _ => {},
    }
    match (dataspace.num_elements() as usize).checked_mul(size as usize) {
        None => false,
        Some(n) => n <= isize::MAX as usize,
    }
}

impl<'a> ChunkedReader<'a> {
    /// Whether the index can be read.
    fn can_read_index(&self) -> (r: bool)
        requires
            self.wf(),
        ensures
            r == self.model().index_readable(self.file_data@),
    {
        let rank: usize = self.chunk_dims.len();
        let spatial = slice_subrange(self.chunk_dimensions.as_slice(), 0, rank);
        assert(spatial@ =~= self.model().chunk());
        let dims = self.dataspace.dimensions.as_slice();
        if self.version == 4 {
            match self.index_type {
                Some(1) => {
                    return match checked_total(&self.chunk_dims) {
                        None => false,
                        Some(n) => n.checked_mul(self.element_size as usize).is_some(),
                    };
                },
                Some(2) => {
                    return can_list_implicit(self.address, dims, spatial, self.element_size);
                },
                Some(3) => {
                    return match FixedArrayHeader::parse(
                        self.file_data,
                        self.address as usize,
                        self.offset_size,
                        self.length_size,
                    ) {
                        Err(_) => true,
                        Ok(header) => can_read_fixed_array(
                            self.file_data,
                            &header,
                            dims,
                            spatial,
                            self.element_size,
                            self.offset_size,
                        ),
                    };
                },
                Some(4) => {
                    return match ExtensibleArrayHeader::parse(
                        self.file_data,
                        self.address as usize,
                        self.offset_size,
                        self.length_size,
                    ) {
                        Err(_) => true,
                        Ok(header) => can_read_extensible_array(
                            self.file_data,
                            &header,
                            dims,
                            spatial,
                            self.element_size,
                            self.offset_size,
                        ),
                    };
                },
                _ => {},
            }
        }
        true
    }

    /// Whether all counts, strides and sizes of the data set and of its chunks fit in the machine
    /// word.
    fn has_geometry(&self) -> (r: bool)
        requires
            self.wf(),
        ensures
            r == self.model().geometry_fits(),
    {
        let size: usize = self.element_size as usize;
        let first: usize = if self.chunk_dims.len() == 0 {
            0
        } else {
            1
        };
        let strided = checked_tail(&self.chunk_dims, first).is_some();
        let chunk_fits = match checked_total(&self.chunk_dims) {
            None => false,
            Some(n) => n.checked_mul(size).is_some(),
        };
        let data_fits = match checked_tail(&self.ds_dims, 0) {
            None => false,
            Some(n) => n.checked_mul(size).is_some(),
        };
        strided && chunk_fits && data_fits
    }

    /// Whether a chunk can be placed in the data set.
    fn can_place(&self, info: &ChunkInfo) -> (r: bool)
        requires
            self.wf(),
        ensures
            r == self.model().placeable(info.deep_view()),
    {
        self.chunk_dims.len() <= info.offsets.len()
    }

    /// Whether the given chunks of the data set can be placed in an output that fits in memory.
    fn can_assemble(&self, chunks: &Vec<ChunkInfo>) -> (r: bool)
        requires
            self.wf(),
        ensures
            r == self.model().assemblable(self.dataspace.deep_view(), chunks.deep_view()),
    {
        if !can_output(self.dataspace, self.element_size) || !self.has_geometry() {
            return false;
        }
        let ghost infos = chunks.deep_view();
        let mut k: usize = 0;
        while k < chunks.len()
            invariant
                self.wf(),
                infos == chunks.deep_view(),
                k <= chunks@.len(),
                forall|i: int| 0 <= i < k ==> self.model().placeable(#[trigger] infos[i]),
            decreases chunks@.len() - k,
        {
            assert(infos[k as int] == chunks@[k as int].deep_view());
            if !self.can_place(&chunks[k]) {
                return false;
            }
            k += 1;
        }
        true
    }

    /// Whether the data set can be read.
    #[verifier::spinoff_prover]
    #[verifier::rlimit(40)]
    fn can_read(&self) -> (r: bool)
        requires
            self.wf(),
        ensures
            r == ({
                &&& self.model().index_readable(self.file_data@)
                &&& self.model().chunks(self.file_data@) matches Ok(chunks) ==>
                    self.model().assemblable(self.dataspace.deep_view(), chunks)
            }),
    {
        if !self.can_read_index() {
            return false;
        }
        match self.collect_chunks() {
            Err(_) => true,
            Ok(chunks) => self.can_assemble(&chunks),
        }
    }
}

/// Whether the layout has an extent for the elements, where it has an address.
fn can_have_extents(layout: &DataLayout) -> (r: bool)
    ensures
        r == has_extents(layout.deep_view()),
{
    match layout {
        DataLayout::Chunked { chunk_dimensions, btree_address, .. } => btree_address.is_none()
            || chunk_dimensions.len() > 0,
        _ => true,
    }
}

/// Whether a chunked dataset can be read: its index can be read, its chunks can be placed, and all
/// counts, strides and sizes fit in the machine word.
pub fn can_read_chunked_data(
    file_data: &[u8],
    layout: &DataLayout,
    dataspace: &Dataspace,
    datatype: &Datatype,
    offset_size: u8,
    length_size: u8,
) -> (r: bool)
    ensures
        r == chunked_readable(
            file_data@,
            layout.deep_view(),
            dataspace.deep_view(),
            datatype.model().size(),
            offset_size,
            length_size,
        ),
{
    if !can_have_extents(layout) {
        return false;
    }
    match ChunkedReader::new(file_data, layout, dataspace, datatype, offset_size, length_size) {
        Err(_) => true,
        Ok(reader) => reader.can_read(),
    }
}

/// Read a chunked dataset of which nothing is known, as [`read_chunked_data`] does, or give
/// nothing where the sizes and counts that the file states cannot be computed with.
pub fn read_chunked_data_checked(
    file_data: &[u8],
    layout: &DataLayout,
    dataspace: &Dataspace,
    datatype: &Datatype,
    pipeline: Option<&FilterPipeline>,
    offset_size: u8,
    length_size: u8,
) -> (r: Option<Result<Vec<u8>, FormatError>>)
    ensures
        ({
            let pl = match pipeline {
                Some(p) => Some(p.deep_view()),
                None => None,
            };
            let data = chunked_data(
                file_data@,
                layout.deep_view(),
                dataspace.deep_view(),
                datatype.model().size(),
                pl,
                offset_size,
                length_size,
            );
            match r {
                Some(Ok(out)) => data == Ok::<Seq<u8>, ErrorModel>(out@),
                Some(Err(e)) => data == Err::<Seq<u8>, ErrorModel>(e.deep_view()),
                None => true,
            }
        }),
        r is Some <==> chunked_readable(
            file_data@,
            layout.deep_view(),
            dataspace.deep_view(),
            datatype.model().size(),
            offset_size,
            length_size,
        ),
{
    if can_read_chunked_data(file_data, layout, dataspace, datatype, offset_size, length_size) {
        Some(
            read_chunked_data(
                file_data,
                layout,
                dataspace,
                datatype,
                pipeline,
                offset_size,
                length_size,
            ),
        )
    } else {
        None
    }
}

/// Read a chunked dataset, decompressing chunks as needed.
pub fn read_chunked_data(
    file_data: &[u8],
    layout: &DataLayout,
    dataspace: &Dataspace,
    datatype: &Datatype,
    pipeline: Option<&FilterPipeline>,
    offset_size: u8,
    length_size: u8,
) -> (r: Result<Vec<u8>, FormatError>)
    requires
        chunked_readable(
            file_data@,
            layout.deep_view(),
            dataspace.deep_view(),
            datatype.model().size(),
            offset_size,
            length_size,
        ),
    ensures
        ({
            let pl = match pipeline {
                Some(p) => Some(p.deep_view()),
                None => None,
            };
            let data = chunked_data(
                file_data@,
                layout.deep_view(),
                dataspace.deep_view(),
                datatype.model().size(),
                pl,
                offset_size,
                length_size,
            );
            match r {
                Ok(out) => data == Ok::<Seq<u8>, ErrorModel>(out@),
                Err(e) => data == Err::<Seq<u8>, ErrorModel>(e.deep_view()),
            }
        }),
{
    let reader = ChunkedReader::new(
        file_data,
        layout,
        dataspace,
        datatype,
        offset_size,
        length_size,
    )?;
    let ghost m = reader.model();
    // Collect chunks based on version and index type
    let chunks = reader.collect_chunks()?;
    let ghost infos = chunks.deep_view();
    // Assemble output
    let mut output = reader.new_output();
    let ghost start = output@;
    let ds_strides = row_strides(&reader.ds_dims);
    let chunk_strides = row_strides(&reader.chunk_dims);
    proof {
        crate::grid::lemma_total_is_tail(reader.chunk_dims@);
        lemma_output_size(dataspace.deep_view(), reader.element_size);
    }
    let chunk_total_bytes: usize = extent_product(&reader.chunk_dims) * (
    reader.element_size as usize);
    let slice = chunks.as_slice();
    assert(slice.deep_view() =~= infos);
    let data = decompress_all_chunks(
        file_data,
        slice,
        pipeline,
        chunk_total_bytes,
        reader.element_size,
        Ghost(m),
    )?;
    let ghost pl = match pipeline {
        Some(p) => Some(p.deep_view()),
        None => None,
    };
    proof {
        lemma_data_len(m, file_data@, infos, pl, infos.len() as int);
    }
    let mut k: usize = 0;
    while k < chunks.len()
        invariant
            k <= chunks@.len(),
            chunks@.len() == data@.len(),
            reader.wf(),
            m == reader.model(),
            m.geometry_fits(),
            infos == chunks.deep_view(),
            forall|i: int| 0 <= i < infos.len() ==> m.placeable(#[trigger] infos[i]),
            crate::grid::are_strides(ds_strides@, reader.ds_dims@),
            crate::grid::are_strides(chunk_strides@, reader.chunk_dims@),
            reader.element_size > 0 ==> start.len() % reader.element_size as nat == 0,
            reader.element_size == 0 ==> start.len() == 0,
            output@.len() == start.len(),
            output@ == m.assembled(start, infos, views(data@), k as int),
        decreases chunks@.len() - k,
    {
        assert(infos[k as int] == chunks@[k as int].deep_view());
        assert(m.placeable(infos[k as int]));
        reader.place_chunk(
            &mut output,
            &chunks[k],
            data[k].as_slice(),
            &ds_strides,
            &chunk_strides,
        );
        k += 1;
    }
    Ok(output)
}

/// There is data for each chunk.
proof fn lemma_data_len(
    m: ChunkedModel,
    d: Seq<u8>,
    chunks: Seq<ChunkInfoModel>,
    pipeline: Option<PipelineModel>,
    n: int,
)
    requires
        n >= 0,
    ensures
        m.all_data(d, chunks, pipeline, n) matches Ok(data) ==> data.len() == n,
    decreases n,
{
    if n > 0 {
        lemma_data_len(m, d, chunks, pipeline, n - 1);
    }
}

// ---- Reading through a cache ----

/// The chunks that an index lists.
pub open spec fn listed(index: Seq<(Seq<u64>, ChunkInfoModel)>) -> Seq<ChunkInfoModel> {
    index.map_values(|e: (Seq<u64>, ChunkInfoModel)| e.1)
}

impl ChunkedModel {
    /// The coordinate of a chunk.
    pub open spec fn coord(self, info: ChunkInfoModel) -> Seq<u64> {
        crate::chunk_cache::spatial(info.offsets, self.rank())
    }

    /// The cache with its index: the one that it has, or that of the chunks of the data set.
    pub open spec fn indexed(self, d: Seq<u8>, c: CacheModel) -> Result<CacheModel, ErrorModel> {
        if c.index is Some {
            Ok(c)
        } else {
            match self.chunks(d) {
                Err(e) => Err(e),
                Ok(chunks) => Ok(
                    CacheModel {
                        index: Some(
                            crate::chunk_cache::index_of(
                                chunks,
                                self.rank(),
                                chunks.len() as int,
                            ),
                        ),
                        ..c
                    },
                ),
            }
        }
    }

    /// `out` with the data of a chunk in its place, and the cache after that: the data is taken
    /// from the cache, or read and offered to it.
    pub open spec fn cached_step(
        self,
        d: Seq<u8>,
        info: ChunkInfoModel,
        pipeline: Option<PipelineModel>,
        out: Seq<u8>,
        c: CacheModel,
    ) -> (Result<Seq<u8>, ErrorModel>, CacheModel) {
        let coord = self.coord(info);
        let c1 = c.read(coord);
        match c.cached(coord) {
            Some(data) => (Ok(self.placed(out, info, data)), c1),
            None => match data_of(d, info, pipeline, self.size) {
                Err(e) => (Err(e), c1),
                Ok(data) => (Ok(self.placed(out, info, data)), c1.with_data(coord, data)),
            },
        }
    }

    /// Whether the cache can take what it is offered in a read of the given chunks: it has slots, or
    /// each chunk that is read exceeds its budget.
    pub open spec fn admitted(
        self,
        d: Seq<u8>,
        chunks: Seq<ChunkInfoModel>,
        pipeline: Option<PipelineModel>,
        c: CacheModel,
    ) -> bool {
        c.max_slots > 0 || forall|k: int|
            0 <= k < chunks.len() && self.all_data(d, chunks, pipeline, k) is Ok ==> (data_of(
                d,
                #[trigger] chunks[k],
                pipeline,
                self.size,
            ) matches Ok(data) ==> data.len() > c.max_bytes)
    }

    /// `out` with the data of the first `n` chunks in their places, and the cache after that.
    pub open spec fn cached_steps(
        self,
        d: Seq<u8>,
        chunks: Seq<ChunkInfoModel>,
        pipeline: Option<PipelineModel>,
        out: Seq<u8>,
        c: CacheModel,
        n: int,
    ) -> (Result<Seq<u8>, ErrorModel>, CacheModel)
        decreases n,
    {
        if n <= 0 {
            (Ok(out), c)
        } else {
            let (r, c1) = self.cached_steps(d, chunks, pipeline, out, c, n - 1);
            match r {
                Err(e) => (Err(e), c1),
                Ok(done) => self.cached_step(d, chunks[n - 1], pipeline, done, c1),
            }
        }
    }

    /// The coordinates of the given chunks.
    pub open spec fn coords(self, chunks: Seq<ChunkInfoModel>) -> Seq<Seq<u64>> {
        Seq::new(chunks.len(), |i: int| self.coord(chunks[i]))
    }

    /// The cache and the context after an access to `coord` has been recorded: where chunks are
    /// predicted, the cache gets a hint and the direction.
    pub open spec fn swept(
        self,
        coord: Seq<u64>,
        c: CacheModel,
        s: SweepModel,
    ) -> (CacheModel, SweepModel) {
        let s1 = s.recorded(coord, self.rank());
        if s1.predicted_next.len() > 0 {
            let hinted = c.hinted(s1.predicted_next);
            (
                CacheModel {
                    stats: AccessStats { sweep_direction: Some(s1.direction), ..hinted.stats },
                    ..hinted
                },
                s1,
            )
        } else {
            (c, s1)
        }
    }

    /// `out` with the data of the first `n` chunks in their places, and the cache and the context
    /// after that.
    pub open spec fn swept_steps(
        self,
        d: Seq<u8>,
        chunks: Seq<ChunkInfoModel>,
        pipeline: Option<PipelineModel>,
        out: Seq<u8>,
        c: CacheModel,
        s: SweepModel,
        n: int,
    ) -> (Result<Seq<u8>, ErrorModel>, CacheModel, SweepModel)
        decreases n,
    {
        if n <= 0 {
            (Ok(out), c, s)
        } else {
            let (r, c1, s1) = self.swept_steps(d, chunks, pipeline, out, c, s, n - 1);
            match r {
                Err(e) => (Err(e), c1, s1),
                Ok(done) => {
                    let (c2, s2) = self.swept(self.coord(chunks[n - 1]), c1, s1);
                    let (r3, c3) = self.cached_step(d, chunks[n - 1], pipeline, done, c2);
                    (r3, c3, s2)
                },
            }
        }
    }
}

/// The content of a chunked data set that is read through the cache `c`, and the cache after that.
pub open spec fn cached_data(
    d: Seq<u8>,
    layout: DataLayoutModel,
    space: DataspaceModel,
    size: u32,
    pipeline: Option<PipelineModel>,
    os: u8,
    ls: u8,
    c: CacheModel,
) -> (Result<Seq<u8>, ErrorModel>, CacheModel) {
    match chunked_model(layout, space, size, os, ls) {
        Err(e) => (Err(e), c),
        Ok(m) => match m.indexed(d, c) {
            Err(e) => (Err(e), c),
            Ok(c1) => m.cached_steps(
                d,
                listed(c1.index->0),
                pipeline,
                Seq::new(output_size(space, size) as nat, |i: int| 0u8),
                c1,
                c1.index->0.len() as int,
            ),
        },
    }
}

/// The content of a chunked data set that is read through the cache `c` with the context `s`, and
/// both after that.
pub open spec fn swept_data(
    d: Seq<u8>,
    layout: DataLayoutModel,
    space: DataspaceModel,
    size: u32,
    pipeline: Option<PipelineModel>,
    os: u8,
    ls: u8,
    c: CacheModel,
    s: SweepModel,
) -> (Result<Seq<u8>, ErrorModel>, CacheModel, SweepModel) {
    match chunked_model(layout, space, size, os, ls) {
        Err(e) => (Err(e), c, s),
        Ok(m) => match m.indexed(d, c) {
            Err(e) => (Err(e), c, s),
            Ok(c1) => m.swept_steps(
                d,
                listed(c1.index->0),
                pipeline,
                Seq::new(output_size(space, size) as nat, |i: int| 0u8),
                c1,
                s,
                c1.index->0.len() as int,
            ),
        },
    }
}

/// Whether a chunked data set can be read through the cache `c`: its index can be read unless the
/// cache has one, the chunks can be placed, all counts, strides and sizes fit in the machine word,
/// the cache can take what it is offered, and two accesses for each chunk can be counted.
pub open spec fn cache_readable(
    d: Seq<u8>,
    layout: DataLayoutModel,
    space: DataspaceModel,
    size: u32,
    pipeline: Option<PipelineModel>,
    os: u8,
    ls: u8,
    c: CacheModel,
) -> bool {
    &&& c.wf()
    &&& has_extents(layout)
    &&& chunked_model(layout, space, size, os, ls) matches Ok(m) ==> {
        &&& c.index is None ==> m.index_readable(d)
        &&& m.indexed(d, c) matches Ok(c1) ==> {
            let chunks = listed(c1.index->0);
            &&& m.assemblable(space, chunks)
            &&& m.admitted(d, chunks, pipeline, c)
            &&& c.can_count(2 * chunks.len() as int)
        }
    }
}

/// Whether the access to each chunk, up to the first one that is an error, can be recorded, and it
/// can be counted with what is predicted.
#[verifier::opaque]
pub open spec fn can_sweep(
    m: ChunkedModel,
    d: Seq<u8>,
    chunks: Seq<ChunkInfoModel>,
    pipeline: Option<PipelineModel>,
    out: Seq<u8>,
    c: CacheModel,
    s: SweepModel,
) -> bool {
    let coords = m.coords(chunks);
    forall|k: int|
        0 <= k < chunks.len() && m.swept_steps(d, chunks, pipeline, out, c, s, k).0 is Ok ==> {
            let before = s.after(coords, m.rank(), k);
            &&& before.can_record()
            &&& before.predictable(#[trigger] coords[k], m.rank())
            &&& c.can_count(2 * (k + 1) + s.predicted(coords, m.rank(), k + 1))
        }
}

proof fn lemma_can_sweep(
    m: ChunkedModel,
    d: Seq<u8>,
    chunks: Seq<ChunkInfoModel>,
    pipeline: Option<PipelineModel>,
    out: Seq<u8>,
    c: CacheModel,
    s: SweepModel,
    k: int,
)
    requires
        can_sweep(m, d, chunks, pipeline, out, c, s),
        0 <= k < chunks.len(),
        m.swept_steps(d, chunks, pipeline, out, c, s, k).0 is Ok,
    ensures
        ({
            let coords = m.coords(chunks);
            let before = s.after(coords, m.rank(), k);
            &&& before.can_record()
            &&& before.predictable(m.coord(chunks[k]), m.rank())
            &&& s.after(coords, m.rank(), k + 1) == before.recorded(m.coord(chunks[k]), m.rank())
            &&& c.can_count(2 * (k + 1) + s.predicted(coords, m.rank(), k + 1))
        }),
{
    reveal(can_sweep);
    let coords = m.coords(chunks);
    assert(coords[k] == m.coord(chunks[k]));
    crate::sweep::law_accesses_follow(s, coords, m.rank(), k);
}

/// Whether all accesses of a read can be recorded and counted.
pub open spec fn sweep_readable(
    d: Seq<u8>,
    layout: DataLayoutModel,
    space: DataspaceModel,
    size: u32,
    pipeline: Option<PipelineModel>,
    os: u8,
    ls: u8,
    c: CacheModel,
    s: SweepModel,
) -> bool {
    chunked_model(layout, space, size, os, ls) matches Ok(m) ==> {
        m.indexed(d, c) matches Ok(c1) ==> can_sweep(
            m,
            d,
            listed(c1.index->0),
            pipeline,
            Seq::new(output_size(space, size) as nat, |i: int| 0u8),
            c1,
            s,
        )
    }
}

impl<'a> ChunkedReader<'a> {
    /// Fill the index of the cache on first access, and list the chunks.
    fn list_chunks(&self, cache: &mut ChunkCache) -> (r: Result<Vec<ChunkInfo>, FormatError>)
        requires
            self.wf(),
            old(cache)@.index is None ==> self.model().index_readable(self.file_data@),
        ensures
            match r {
                Ok(chunks) => {
                    &&& self.model().indexed(self.file_data@, old(cache)@) == Ok::<
                        CacheModel,
                        ErrorModel,
                    >(final(cache)@)
                    &&& final(cache)@.index is Some
                    &&& chunks.deep_view() == listed(final(cache)@.index->0)
                },
                Err(e) => {
                    &&& self.model().indexed(self.file_data@, old(cache)@) == Err::<
                        CacheModel,
                        ErrorModel,
                    >(e.deep_view())
                    &&& final(cache)@ == old(cache)@
                },
            },
    {
        if !cache.has_index() {
            let chunks = self.collect_chunks()?;
            let slice = chunks.as_slice();
            assert(slice.deep_view() =~= chunks.deep_view());
            cache.populate_index(slice, self.chunk_dims.len());
        }
        match cache.all_indexed_chunks() {
            Some(chunks) => Ok(chunks),
            None => Ok(Vec::new()),
        }
    }

    /// Put the data of a chunk in its place, from the cache or from the file.
    fn place_cached(
        &self,
        output: &mut Vec<u8>,
        info: &ChunkInfo,
        pipeline: Option<&FilterPipeline>,
        chunk_total_bytes: usize,
        ds_strides: &Vec<usize>,
        chunk_strides: &Vec<usize>,
        cache: &mut ChunkCache,
    ) -> (r: Result<(), FormatError>)
        requires
            self.wf(),
            self.model().geometry_fits(),
            self.model().placeable(info.deep_view()),
            crate::grid::are_strides(ds_strides@, self.ds_dims@),
            crate::grid::are_strides(chunk_strides@, self.chunk_dims@),
            self.element_size > 0 ==> old(output)@.len() % self.element_size as nat == 0,
            self.element_size == 0 ==> old(output)@.len() == 0,
            old(cache)@.wf(),
            old(cache)@.max_slots > 0 || (data_of(
                self.file_data@,
                info.deep_view(),
                match pipeline {
                    Some(p) => Some(p.deep_view()),
                    None => None,
                },
                self.element_size,
            ) matches Ok(data) ==> data.len() > old(cache)@.max_bytes),
            old(cache)@.can_count(2),
        ensures
            ({
                let pl = match pipeline {
                    Some(p) => Some(p.deep_view()),
                    None => None,
                };
                let (step, c) = self.model().cached_step(
                    self.file_data@,
                    info.deep_view(),
                    pl,
                    old(output)@,
                    old(cache)@,
                );
                &&& final(cache)@ == c
                &&& match r {
                    Ok(()) => step == Ok::<Seq<u8>, ErrorModel>(final(output)@),
                    Err(e) => step == Err::<Seq<u8>, ErrorModel>(e.deep_view()),
                }
            }),
            final(output)@.len() == old(output)@.len(),
            final(cache)@.wf(),
            final(cache)@.max_slots == old(cache)@.max_slots,
            final(cache)@.max_bytes == old(cache)@.max_bytes,
            final(cache)@.tick <= old(cache)@.tick + 2,
            final(cache)@.stats.sequential_count <= old(cache)@.stats.sequential_count + 1,
            final(cache)@.stats.random_count <= old(cache)@.stats.random_count + 1,
    {
        let coord = spatial_coord(info, self.chunk_dims.len());
        // Try decompressed cache first
        match cache.get_decompressed(coord.as_slice()) {
            Some(cached) => {
                self.place_chunk(output, info, cached.as_slice(), ds_strides, chunk_strides);
            },
            None => {
                // Decompress from file
                let data = read_chunk(
                    self.file_data,
                    info,
                    pipeline,
                    chunk_total_bytes,
                    self.element_size,
                )?;
                self.place_chunk(output, info, data.as_slice(), ds_strides, chunk_strides);
                proof {
                    if data@.len() <= cache@.max_bytes {
                        crate::chunk_cache::lemma_with_room(cache@, data@.len() as int);
                    }
                }
                cache.put_decompressed(coord, data);
            },
        }
        Ok(())
    }
}

/// Read a chunked dataset with caching support.
///
/// On the first call, scans the chunk index (B-tree / fixed array / etc.) once and populates the
/// cache's index. Subsequent calls skip the index scan entirely. Decompressed chunk data is also
/// cached with LRU eviction.
pub fn read_chunked_data_cached(
    file_data: &[u8],
    layout: &DataLayout,
    dataspace: &Dataspace,
    datatype: &Datatype,
    pipeline: Option<&FilterPipeline>,
    offset_size: u8,
    length_size: u8,
    cache: &mut ChunkCache,
) -> (r: Result<Vec<u8>, FormatError>)
    requires
        cache_readable(
            file_data@,
            layout.deep_view(),
            dataspace.deep_view(),
            datatype.model().size(),
            match pipeline {
                Some(p) => Some(p.deep_view()),
                None => None,
            },
            offset_size,
            length_size,
            old(cache)@,
        ),
    ensures
        ({
            let pl = match pipeline {
                Some(p) => Some(p.deep_view()),
                None => None,
            };
            let (data, c) = cached_data(
                file_data@,
                layout.deep_view(),
                dataspace.deep_view(),
                datatype.model().size(),
                pl,
                offset_size,
                length_size,
                old(cache)@,
            );
            &&& final(cache)@ == c
            &&& match r {
                Ok(out) => data == Ok::<Seq<u8>, ErrorModel>(out@),
                Err(e) => data == Err::<Seq<u8>, ErrorModel>(e.deep_view()),
            }
        }),
        final(cache)@.wf(),
{
    let reader = ChunkedReader::new(
        file_data,
        layout,
        dataspace,
        datatype,
        offset_size,
        length_size,
    )?;
    let ghost m = reader.model();
    let chunks = reader.list_chunks(cache)?;
    let ghost infos = chunks.deep_view();
    let ghost c1 = cache@;
    let ghost pl = match pipeline {
        Some(p) => Some(p.deep_view()),
        None => None,
    };
    let mut output = reader.new_output();
    let ghost start = output@;
    let ds_strides = row_strides(&reader.ds_dims);
    let chunk_strides = row_strides(&reader.chunk_dims);
    proof {
        crate::grid::lemma_total_is_tail(reader.chunk_dims@);
        lemma_output_size(dataspace.deep_view(), reader.element_size);
    }
    let chunk_total_bytes: usize = extent_product(&reader.chunk_dims) * (
    reader.element_size as usize);
    let mut k: usize = 0;
    while k < chunks.len()
        invariant
            k <= chunks@.len(),
            reader.wf(),
            reader.file_data == file_data,
            m == reader.model(),
            m.geometry_fits(),
            infos == chunks.deep_view(),
            forall|i: int| 0 <= i < infos.len() ==> m.placeable(#[trigger] infos[i]),
            crate::grid::are_strides(ds_strides@, reader.ds_dims@),
            crate::grid::are_strides(chunk_strides@, reader.chunk_dims@),
            reader.element_size > 0 ==> start.len() % reader.element_size as nat == 0,
            reader.element_size == 0 ==> start.len() == 0,
            output@.len() == start.len(),
            pl == match pipeline {
                Some(p) => Some(p.deep_view()),
                None => None,
            },
            cached_data(
                file_data@,
                layout.deep_view(),
                dataspace.deep_view(),
                datatype.model().size(),
                pl,
                offset_size,
                length_size,
                old(cache)@,
            ) == m.cached_steps(file_data@, infos, pl, start, c1, infos.len() as int),
            m.cached_steps(file_data@, infos, pl, start, c1, k as int) == (
                Ok::<Seq<u8>, ErrorModel>(output@),
                cache@,
            ),
            c1.can_count(2 * chunks@.len() as int),
            cache@.wf(),
            cache@.max_slots == c1.max_slots,
            cache@.max_bytes == c1.max_bytes,
            m.admitted(file_data@, infos, pl, c1),
            c1.max_slots == 0 ==> m.all_data(file_data@, infos, pl, k as int) is Ok,
            cache@.tick <= c1.tick + 2 * k,
            cache@.stats.sequential_count <= c1.stats.sequential_count + k,
            cache@.stats.random_count <= c1.stats.random_count + k,
        decreases chunks@.len() - k,
    {
        assert(infos[k as int] == chunks@[k as int].deep_view());
        assert(m.placeable(infos[k as int]));
        proof {
            lemma_slotless_step(m, file_data@, infos[k as int], pl, output@, cache@);
        }
        match reader.place_cached(
            &mut output,
            &chunks[k],
            pipeline,
            chunk_total_bytes,
            &ds_strides,
            &chunk_strides,
            cache,
        ) {
            Ok(()) => {},
            Err(e) => {
                proof {
                    lemma_cached_error(
                        m,
                        file_data@,
                        infos,
                        pl,
                        start,
                        c1,
                        k + 1,
                        infos.len() as int,
                    );
                }
                return Err(e);
            },
        }
        k += 1;
    }
    Ok(output)
}

/// A chunk comes from the file where the cache has no slots.
proof fn lemma_slotless_step(
    m: ChunkedModel,
    d: Seq<u8>,
    info: ChunkInfoModel,
    pipeline: Option<PipelineModel>,
    out: Seq<u8>,
    c: CacheModel,
)
    requires
        c.wf(),
    ensures
        c.max_slots == 0 ==> (m.cached_step(d, info, pipeline, out, c).0 is Ok <==> data_of(
            d,
            info,
            pipeline,
            m.size,
        ) is Ok),
{
    crate::chunk_cache::lemma_slot_of(c.slots, m.coord(info), 0);
}

/// An error of one chunk is the error of all, and leaves the cache as it is.
proof fn lemma_cached_error(
    m: ChunkedModel,
    d: Seq<u8>,
    chunks: Seq<ChunkInfoModel>,
    pipeline: Option<PipelineModel>,
    out: Seq<u8>,
    c: CacheModel,
    k: int,
    n: int,
)
    requires
        0 <= k <= n,
        m.cached_steps(d, chunks, pipeline, out, c, k).0 is Err,
    ensures
        m.cached_steps(d, chunks, pipeline, out, c, n) == m.cached_steps(
            d,
            chunks,
            pipeline,
            out,
            c,
            k,
        ),
    decreases n - k,
{
    if k < n {
        lemma_cached_error(m, d, chunks, pipeline, out, c, k, n - 1);
    }
}

impl<'a> ChunkedReader<'a> {
    /// Whether the cache can take what it is offered in a read of the given chunks. Where it has no
    /// slots, the chunks are read to see whether they exceed its budget.
    fn can_admit(
        &self,
        chunks: &Vec<ChunkInfo>,
        pipeline: Option<&FilterPipeline>,
        cache: &ChunkCache,
    ) -> (r: bool)
        requires
            self.wf(),
            self.model().geometry_fits(),
        ensures
            r == self.model().admitted(
                self.file_data@,
                chunks.deep_view(),
                match pipeline {
                    Some(p) => Some(p.deep_view()),
                    None => None,
                },
                cache@,
            ),
    {
        if cache.can_take(0) {
            return true;
        }
        let ghost m = self.model();
        let ghost infos = chunks.deep_view();
        let ghost pl = match pipeline {
            Some(p) => Some(p.deep_view()),
            None => None,
        };
        proof {
            crate::grid::lemma_total_is_tail(self.chunk_dims@);
        }
        let chunk_total_bytes: usize = extent_product(&self.chunk_dims) * (
        self.element_size as usize);
        let mut k: usize = 0;
        while k < chunks.len()
            invariant
                m == self.model(),
                infos == chunks.deep_view(),
                pl == match pipeline {
                    Some(p) => Some(p.deep_view()),
                    None => None,
                },
                k <= chunks@.len(),
                cache@.max_slots == 0,
                m.all_data(self.file_data@, infos, pl, k as int) is Ok,
                forall|i: int|
                    0 <= i < k ==> (data_of(
                        self.file_data@,
                        #[trigger] infos[i],
                        pl,
                        m.size,
                    ) matches Ok(data) ==> data.len() > cache@.max_bytes),
            decreases chunks@.len() - k,
        {
            assert(infos[k as int] == chunks@[k as int].deep_view());
            match read_chunk(
                self.file_data,
                &chunks[k],
                pipeline,
                chunk_total_bytes,
                self.element_size,
            ) {
                Err(_) => {
                    proof {
                        let stop = k + 1;
                        assert(m.all_data(self.file_data@, infos, pl, stop) is Err);
                        assert forall|i: int|
                            k < i < infos.len() implies m.all_data(self.file_data@, infos, pl, i)
                            is Err by {
                            lemma_data_error(m, self.file_data@, infos, pl, stop, i);
                        }
                    }
                    return true;
                },
                Ok(data) => {
                    if !cache.can_take(data.len()) {
                        return false;
                    }
                },
            }
            k += 1;
        }
        true
    }

    /// Fill the index of the cache, where it can be read, and say whether the data set can be read
    /// through the cache.
    #[verifier::spinoff_prover]
    #[verifier::rlimit(40)]
    fn can_read_through(&self, pipeline: Option<&FilterPipeline>, cache: &mut ChunkCache) -> (r:
        bool)
        requires
            self.wf(),
            old(cache)@.wf(),
        ensures
            r == ({
                let c = old(cache)@;
                &&& c.index is None ==> self.model().index_readable(self.file_data@)
                &&& self.model().indexed(self.file_data@, c) matches Ok(c1) ==> {
                    let chunks = listed(c1.index->0);
                    &&& self.model().assemblable(self.dataspace.deep_view(), chunks)
                    &&& self.model().admitted(
                        self.file_data@,
                        chunks,
                        match pipeline {
                            Some(p) => Some(p.deep_view()),
                            None => None,
                        },
                        c,
                    )
                    &&& c.can_count(2int * chunks.len())
                }
            }),
            final(cache)@ == old(cache)@ || self.model().indexed(self.file_data@, old(cache)@)
                == Ok::<CacheModel, ErrorModel>(final(cache)@),
            r ==> match self.model().indexed(self.file_data@, old(cache)@) {
                Ok(c1) => final(cache)@ == c1,
                Err(e) => final(cache)@ == old(cache)@,
            },
            final(cache)@.wf(),
    {
        if !cache.has_index() && !self.can_read_index() {
            return false;
        }
        match self.list_chunks(cache) {
            Err(_) => true,
            Ok(chunks) => {
                if !self.can_assemble(&chunks) || !self.can_admit(&chunks, pipeline, cache) {
                    return false;
                }
                match (chunks.len() as u64).checked_mul(2) {
                    None => false,
                    Some(n) => cache.can_serve(n),
                }
            },
        }
    }
}

/// Read a chunked dataset of which nothing is known, as [`read_chunked_data_cached`] does, or give
/// nothing where the sizes and counts that the file states cannot be computed with, the accesses to
/// the cache cannot be counted, or it has no slots for a chunk within its budget.
#[verifier::spinoff_prover]
#[verifier::rlimit(60)]
pub fn read_chunked_data_cached_checked(
    file_data: &[u8],
    layout: &DataLayout,
    dataspace: &Dataspace,
    datatype: &Datatype,
    pipeline: Option<&FilterPipeline>,
    offset_size: u8,
    length_size: u8,
    cache: &mut ChunkCache,
) -> (r: Option<Result<Vec<u8>, FormatError>>)
    requires
        old(cache)@.wf(),
    ensures
        r is Some <==> cache_readable(
            file_data@,
            layout.deep_view(),
            dataspace.deep_view(),
            datatype.model().size(),
            match pipeline {
                Some(p) => Some(p.deep_view()),
                None => None,
            },
            offset_size,
            length_size,
            old(cache)@,
        ),
        ({
            let pl = match pipeline {
                Some(p) => Some(p.deep_view()),
                None => None,
            };
            let (data, c) = cached_data(
                file_data@,
                layout.deep_view(),
                dataspace.deep_view(),
                datatype.model().size(),
                pl,
                offset_size,
                length_size,
                old(cache)@,
            );
            match r {
                Some(Ok(out)) => final(cache)@ == c && data == Ok::<Seq<u8>, ErrorModel>(out@),
                Some(Err(e)) => final(cache)@ == c && data == Err::<Seq<u8>, ErrorModel>(
                    e.deep_view(),
                ),
                None => final(cache)@ == old(cache)@ || (chunked_model(
                    layout.deep_view(),
                    dataspace.deep_view(),
                    datatype.model().size(),
                    offset_size,
                    length_size,
                ) matches Ok(m) && m.indexed(file_data@, old(cache)@) == Ok::<
                    CacheModel,
                    ErrorModel,
                >(final(cache)@)),
            }
        }),
        final(cache)@.wf(),
{
    if !can_have_extents(layout) {
        return None;
    }
    match ChunkedReader::new(file_data, layout, dataspace, datatype, offset_size, length_size) {
        Err(_) => {},
        Ok(reader) => {
            if !reader.can_read_through(pipeline, cache) {
                return None;
            }
        },
    }
    Some(
        read_chunked_data_cached(
            file_data,
            layout,
            dataspace,
            datatype,
            pipeline,
            offset_size,
            length_size,
            cache,
        ),
    )
}

/// Read a chunked dataset with caching and sweep-aware prefetching.
///
/// Extends `read_chunked_data_cached` by feeding each chunk coordinate to a [`SweepContext`]. When
/// a sweep pattern is detected, the predicted next-chunk coordinates are handed to the cache via
/// `prefetch_hint`.
#[verifier::spinoff_prover]
#[verifier::rlimit(60)]
pub fn read_chunked_data_sweep(
    file_data: &[u8],
    layout: &DataLayout,
    dataspace: &Dataspace,
    datatype: &Datatype,
    pipeline: Option<&FilterPipeline>,
    offset_size: u8,
    length_size: u8,
    cache: &mut ChunkCache,
    sweep: &mut SweepContext,
) -> (r: Result<Vec<u8>, FormatError>)
    requires
        cache_readable(
            file_data@,
            layout.deep_view(),
            dataspace.deep_view(),
            datatype.model().size(),
            match pipeline {
                Some(p) => Some(p.deep_view()),
                None => None,
            },
            offset_size,
            length_size,
            old(cache)@,
        ),
        sweep_readable(
            file_data@,
            layout.deep_view(),
            dataspace.deep_view(),
            datatype.model().size(),
            match pipeline {
                Some(p) => Some(p.deep_view()),
                None => None,
            },
            offset_size,
            length_size,
            old(cache)@,
            old(sweep)@,
        ),
    ensures
        ({
            let pl = match pipeline {
                Some(p) => Some(p.deep_view()),
                None => None,
            };
            let (data, c, s) = swept_data(
                file_data@,
                layout.deep_view(),
                dataspace.deep_view(),
                datatype.model().size(),
                pl,
                offset_size,
                length_size,
                old(cache)@,
                old(sweep)@,
            );
            &&& final(cache)@ == c
            &&& final(sweep)@ == s
            &&& match r {
                Ok(out) => data == Ok::<Seq<u8>, ErrorModel>(out@),
                Err(e) => data == Err::<Seq<u8>, ErrorModel>(e.deep_view()),
            }
        }),
        final(cache)@.wf(),
{
    let reader = ChunkedReader::new(
        file_data,
        layout,
        dataspace,
        datatype,
        offset_size,
        length_size,
    )?;
    let ghost m = reader.model();
    let chunks = reader.list_chunks(cache)?;
    let ghost infos = chunks.deep_view();
    let ghost c1 = cache@;
    let ghost s1 = sweep@;
    let ghost coords = m.coords(infos);
    let ghost pl = match pipeline {
        Some(p) => Some(p.deep_view()),
        None => None,
    };
    let mut output = reader.new_output();
    let ghost start = output@;
    let ds_strides = row_strides(&reader.ds_dims);
    let chunk_strides = row_strides(&reader.chunk_dims);
    proof {
        crate::grid::lemma_total_is_tail(reader.chunk_dims@);
        lemma_output_size(dataspace.deep_view(), reader.element_size);
    }
    let chunk_total_bytes: usize = extent_product(&reader.chunk_dims) * (
    reader.element_size as usize);
    proof {
        assert(m.assemblable(dataspace.deep_view(), infos));
        crate::sweep::law_accesses_follow(s1, m.coords(infos), m.rank(), 0);
    }
    let rank: usize = reader.chunk_dims.len();
    let mut k: usize = 0;
    while k < chunks.len()
        invariant
            k <= chunks@.len(),
            reader.wf(),
            reader.file_data == file_data,
            rank == m.rank(),
            rank == reader.chunk_dims@.len(),
            m == reader.model(),
            m.geometry_fits(),
            infos == chunks.deep_view(),
            forall|i: int| 0 <= i < infos.len() ==> m.placeable(#[trigger] infos[i]),
            can_sweep(m, file_data@, infos, pl, start, c1, s1),
            sweep@ == s1.after(m.coords(infos), m.rank(), k as int),
            crate::grid::are_strides(ds_strides@, reader.ds_dims@),
            crate::grid::are_strides(chunk_strides@, reader.chunk_dims@),
            reader.element_size > 0 ==> start.len() % reader.element_size as nat == 0,
            reader.element_size == 0 ==> start.len() == 0,
            output@.len() == start.len(),
            pl == match pipeline {
                Some(p) => Some(p.deep_view()),
                None => None,
            },
            swept_data(
                file_data@,
                layout.deep_view(),
                dataspace.deep_view(),
                datatype.model().size(),
                pl,
                offset_size,
                length_size,
                old(cache)@,
                old(sweep)@,
            ) == m.swept_steps(file_data@, infos, pl, start, c1, s1, infos.len() as int),
            m.swept_steps(file_data@, infos, pl, start, c1, s1, k as int) == (
                Ok::<Seq<u8>, ErrorModel>(output@),
                cache@,
                sweep@,
            ),
            coords == m.coords(infos),
            cache@.wf(),
            cache@.max_slots == c1.max_slots,
            cache@.max_bytes == c1.max_bytes,
            m.admitted(file_data@, infos, pl, c1),
            c1.max_slots == 0 ==> m.all_data(file_data@, infos, pl, k as int) is Ok,
            cache@.tick <= c1.tick + 2 * k,
            cache@.stats.sequential_count <= c1.stats.sequential_count + k + s1.predicted(
                coords,
                m.rank(),
                k as int,
            ),
            cache@.stats.random_count <= c1.stats.random_count + k,
        decreases chunks@.len() - k,
    {
        proof {
            assert(infos[k as int] == chunks@[k as int].deep_view());
            assert(m.placeable(infos[k as int]));
            lemma_can_sweep(m, file_data@, infos, pl, start, c1, s1, k as int);
        }
        // Feed coordinate to sweep detector
        let coord = spatial_coord(&chunks[k], rank);
        proof {
            assert(coord@ == m.coord(infos[k as int]));
            crate::sweep::law_recorded(sweep@, coord@, rank as int);
        }
        sweep.record(coord, rank);
        // Issue prefetch hint for predicted next chunks
        assert(sweep@.predicted_next.len() == sweep.predicted_next@.len());
        let ghost c2 = cache@;
        if sweep.predicted_next.len() > 0 {
            proof {
                lemma_known_bound(
                    c2,
                    sweep@.predicted_next,
                    sweep@.predicted_next.len() as int,
                );
            }
            cache.prefetch_hint(sweep.predicted_next.as_slice());
            cache.set_sweep_direction(sweep.direction);
        }
        proof {
            lemma_slotless_step(m, file_data@, infos[k as int], pl, output@, cache@);
        }
        match reader.place_cached(
            &mut output,
            &chunks[k],
            pipeline,
            chunk_total_bytes,
            &ds_strides,
            &chunk_strides,
            cache,
        ) {
            Ok(()) => {},
            Err(e) => {
                proof {
                    lemma_swept_error(
                        m,
                        file_data@,
                        infos,
                        pl,
                        start,
                        c1,
                        s1,
                        k + 1,
                        infos.len() as int,
                    );
                }
                return Err(e);
            },
        }
        k += 1;
    }
    Ok(output)
}

proof fn lemma_known_bound(c: CacheModel, coords: Seq<Seq<u64>>, n: int)
    requires
        n >= 0,
    ensures
        c.known(coords, n) <= n,
    decreases n,
{
    if n > 0 {
        lemma_known_bound(c, coords, n - 1);
    }
}

/// An error of one chunk is the error of all, and leaves the cache and the context as they are.
proof fn lemma_swept_error(
    m: ChunkedModel,
    d: Seq<u8>,
    chunks: Seq<ChunkInfoModel>,
    pipeline: Option<PipelineModel>,
    out: Seq<u8>,
    c: CacheModel,
    s: SweepModel,
    k: int,
    n: int,
)
    requires
        0 <= k <= n,
        m.swept_steps(d, chunks, pipeline, out, c, s, k).0 is Err,
    ensures
        m.swept_steps(d, chunks, pipeline, out, c, s, n) == m.swept_steps(
            d,
            chunks,
            pipeline,
            out,
            c,
            s,
            k,
        ),
    decreases n - k,
{
    if k < n {
        lemma_swept_error(m, d, chunks, pipeline, out, c, s, k, n - 1);
    }
}

} // verus!
