//! HDF5 Extensible Array index parsing for chunked datasets (v4 index type 4).
//!
//! Extensible Arrays are used for datasets with exactly one unlimited dimension.
//! Structures: EAHD (header), EAIB (index block), EADB (data block), EASB (super block).

use vstd::prelude::*;
use vstd::arithmetic::power2::pow2;
use vstd::pervasive::unreached;
use vstd::slice::slice_subrange;
use crate::bytes::{byte_len, order_u32, tag_at};
use crate::chunk_cache::{ChunkInfo, ChunkInfoModel};
use crate::dataspace::dims_product;
use crate::error::{ErrorModel, FormatError};
use crate::fixed_array::{all_positive, can_chunk, index_to_chunk_offsets, power_of_two};
use crate::grid::{chunk_counts, widen};
use crate::utils::{
    ensure_len, is_undefined_bytes, is_undefined_offset, read_offset, read_variable_length,
};

verus! {

broadcast use vstd::std_specs::control_flow::group_control_flow_axioms;

/// Parsed Extensible Array header (EAHD).
#[derive(Debug, Clone, Copy)]
pub struct ExtensibleArrayHeader {
    /// Client ID: 0 = non-filtered chunks, 1 = filtered chunks.
    pub client_id: u8,
    /// Size of each array element in bytes.
    pub element_size: u8,
    /// Max number of elements bits (log2 of the max number of data block elements per page).
    pub max_nelmts_bits: u8,
    /// Number of elements in the index block.
    pub idx_blk_elmts: u8,
    /// Minimum number of data block elements.
    pub min_dblk_nelmts: u8,
    /// Minimum number of elements in a super block.
    pub super_blk_min_nelmts: u8,
    /// Max number of data block elements bits.
    pub max_dblk_nelmts_bits: u8,
    /// Total number of elements stored.
    pub num_elements: u64,
    /// Address of the index block.
    pub index_block_address: u64,
}

impl DeepView for ExtensibleArrayHeader {
    type V = ExtensibleArrayHeader;

    open spec fn deep_view(&self) -> ExtensibleArrayHeader {
        *self
    }
}

/// Chunks, or the error.
pub type Chunks = Result<Seq<ChunkInfoModel>, ErrorModel>;

/// The tag of an Extensible Array header.
pub open spec fn eahd() -> Seq<u8> {
    seq![0x45, 0x41, 0x48, 0x44]
}

/// The tag of an index block.
pub open spec fn eaib() -> Seq<u8> {
    seq![0x45, 0x41, 0x49, 0x42]
}

/// The tag of a data block.
pub open spec fn eadb() -> Seq<u8> {
    seq![0x45, 0x41, 0x44, 0x42]
}

/// The tag of a super block.
pub open spec fn easb() -> Seq<u8> {
    seq![0x45, 0x41, 0x53, 0x42]
}

/// The length of a header.
pub open spec fn header_size(os: u8, ls: u8) -> int {
    16 + 6 * ls + os
}

/// The Extensible Array header at `offset`.
pub open spec fn extensible_array_at(d: Seq<u8>, offset: int, os: u8, ls: u8) -> Result<
    ExtensibleArrayHeader,
    ErrorModel,
> {
    if !crate::utils::fits(d, offset, header_size(os, ls)) {
        Err(crate::utils::eof(d, offset, header_size(os, ls)))
    } else if !crate::bytes::has_tag(d, offset, eahd()) {
        Err(ErrorModel::ChunkedReadError("invalid Extensible Array header signature"@))
    } else if d[offset + 4] != 0 {
        Err(
            ErrorModel::ChunkedReadError(
                "unsupported Extensible Array header version: "@ + crate::text::decimal(
                    d[offset + 4] as nat,
                ),
            ),
        )
    } else {
        match crate::utils::offset_at(d, offset + 12 + 4 * ls, ls) {
            Err(e) => Err(e),
            Ok(num_elements) => match crate::utils::offset_at(d, offset + 12 + 6 * ls, os) {
                Err(e) => Err(e),
                Ok(index_block_address) => Ok(
                    ExtensibleArrayHeader {
                        client_id: d[offset + 5],
                        element_size: d[offset + 6],
                        max_nelmts_bits: d[offset + 7],
                        idx_blk_elmts: d[offset + 8],
                        min_dblk_nelmts: d[offset + 9],
                        super_blk_min_nelmts: d[offset + 10],
                        max_dblk_nelmts_bits: d[offset + 11],
                        num_elements,
                        index_block_address,
                    },
                ),
            },
        }
    }
}

// ---- Elements ----

/// The chunks that the elements describe.
pub open spec fn ea_grid(counts: Seq<u64>, chunk: Seq<u32>, bytes: u64) -> crate::fixed_array::ChunkGrid {
    crate::fixed_array::ChunkGrid {
        counts,
        chunk: crate::grid::widened(chunk, chunk.len() as int),
        bytes: bytes as int,
    }
}

/// The size of an array element.
pub open spec fn ea_width(client_id: u8, element_size: u8, os: u8) -> int {
    if client_id == 0 {
        os as int
    } else {
        element_size as int
    }
}

/// The element at `p`, for the chunk with the given index; none if the chunk is not allocated.
pub open spec fn ea_element_at(
    d: Seq<u8>,
    p: int,
    client_id: u8,
    element_size: u8,
    os: u8,
    g: crate::fixed_array::ChunkGrid,
    index: int,
) -> Result<Option<ChunkInfoModel>, ErrorModel> {
    let width = ea_width(client_id, element_size, os);
    if !crate::utils::fits(d, p, width) {
        Err(crate::utils::eof(d, p, width))
    } else if crate::utils::undefined_bytes(d, p, os) {
        Ok(None)
    } else if !crate::utils::is_width(os) {
        Err(ErrorModel::Plain(FormatError::InvalidOffsetSize(os)))
    } else {
        let address = crate::utils::uint_at(d, p, os);
        if client_id == 0 {
            Ok(
                Some(
                    crate::fixed_array::chunk_at(g, index, g.bytes as u64 as u32, 0, address),
                ),
            )
        } else {
            let size = crate::bytes::le_value(d.subrange(p + os, p + width - 4)) as u64 as u32;
            Ok(
                Some(
                    crate::fixed_array::chunk_at(
                        g,
                        index,
                        size,
                        crate::bytes::u32_at(d, p + width - 4),
                        address,
                    ),
                ),
            )
        }
    }
}

/// `done` and the allocated chunks of the `count` elements from `p` on; the first has the given
/// index.
pub open spec fn ea_elements_at(
    d: Seq<u8>,
    p: int,
    h: ExtensibleArrayHeader,
    os: u8,
    g: crate::fixed_array::ChunkGrid,
    index: int,
    count: int,
    done: Seq<ChunkInfoModel>,
) -> Chunks
    decreases count,
{
    if count <= 0 {
        Ok(done)
    } else {
        let next = p + ea_width(h.client_id, h.element_size, os);
        match ea_element_at(d, p, h.client_id, h.element_size, os, g, index) {
            Err(e) => Err(e),
            Ok(None) => ea_elements_at(d, next, h, os, g, index + 1, count - 1, done),
            Ok(Some(info)) => ea_elements_at(
                d,
                next,
                h,
                os,
                g,
                index + 1,
                count - 1,
                done.push(info),
            ),
        }
    }
}

// ---- Data blocks ----

/// The number of elements in the given page.
pub open spec fn page_count(page: int, npages: int, nelmts: int, page_size: int) -> int {
    if page == npages - 1 && nelmts % page_size != 0 {
        nelmts % page_size
    } else {
        page_size
    }
}

/// Whether the bitmap at `bitmap` says that the page has data.
pub open spec fn page_has_data(d: Seq<u8>, bitmap: int, page: int) -> bool {
    (d[bitmap + page / 8] as nat / pow2((page % 8) as nat)) % 2 == 1
}

/// `done` and the allocated chunks of the pages from `page` on; the next one starts at `p`.
pub open spec fn ea_pages_at(
    d: Seq<u8>,
    bitmap: int,
    p: int,
    page: int,
    nelmts: int,
    h: ExtensibleArrayHeader,
    os: u8,
    g: crate::fixed_array::ChunkGrid,
    index: int,
    done: Seq<ChunkInfoModel>,
) -> Chunks
    decreases crate::grid::ceil_div(nelmts, pow2(h.max_nelmts_bits as nat) as int) - page,
{
    let page_size = pow2(h.max_nelmts_bits as nat) as int;
    let npages = crate::grid::ceil_div(nelmts, page_size);
    if page >= npages {
        Ok(done)
    } else {
        let count = page_count(page, npages, nelmts, page_size);
        let next = p + count * ea_width(h.client_id, h.element_size, os) + 4;
        if page_has_data(d, bitmap, page) {
            match ea_elements_at(d, p, h, os, g, index, count, done) {
                Err(e) => Err(e),
                Ok(all) => ea_pages_at(
                    d,
                    bitmap,
                    next,
                    page + 1,
                    nelmts,
                    h,
                    os,
                    g,
                    index + count,
                    all,
                ),
            }
        } else {
            ea_pages_at(d, bitmap, next, page + 1, nelmts, h, os, g, index + count, done)
        }
    }
}

/// The allocated chunks of the data block of `nelmts` elements at `db`.
pub open spec fn ea_block_at(
    d: Seq<u8>,
    db: int,
    nelmts: int,
    h: ExtensibleArrayHeader,
    os: u8,
    g: crate::fixed_array::ChunkGrid,
    index: int,
) -> Chunks {
    let p = db + 6 + os + crate::grid::ceil_div(h.max_nelmts_bits as int, 8);
    let page_size = pow2(h.max_nelmts_bits as nat) as int;
    let bitmap_size = crate::grid::ceil_div(crate::grid::ceil_div(nelmts, page_size), 8);
    if !crate::utils::fits(d, db, 6 + os) {
        Err(crate::utils::eof(d, db, 6 + os))
    } else if !crate::bytes::has_tag(d, db, eadb()) {
        Err(ErrorModel::ChunkedReadError("invalid Extensible Array data block signature"@))
    } else if nelmts <= page_size {
        ea_elements_at(d, p, h, os, g, index, nelmts, Seq::empty())
    } else if !crate::utils::fits(d, p, bitmap_size) {
        Err(crate::utils::eof(d, p, bitmap_size))
    } else {
        ea_pages_at(d, p, p + bitmap_size, 0, nelmts, h, os, g, index, Seq::empty())
    }
}

/// `done` and the allocated chunks of the data blocks from the `i`-th on; the next one starts at
/// the given index. A block with an undefined address is skipped.
pub open spec fn ea_blocks(
    d: Seq<u8>,
    addrs: Seq<u64>,
    sizes: Seq<usize>,
    i: int,
    h: ExtensibleArrayHeader,
    os: u8,
    g: crate::fixed_array::ChunkGrid,
    index: int,
    done: Seq<ChunkInfoModel>,
) -> Chunks
    decreases addrs.len() - i,
{
    if i >= addrs.len() {
        Ok(done)
    } else if crate::utils::undefined_offset(addrs[i], os) {
        ea_blocks(d, addrs, sizes, i + 1, h, os, g, index + sizes[i], done)
    } else {
        match ea_block_at(d, (addrs[i] as usize) as int, sizes[i] as int, h, os, g, index) {
            Err(e) => Err(e),
            Ok(found) => ea_blocks(
                d,
                addrs,
                sizes,
                i + 1,
                h,
                os,
                g,
                index + sizes[i],
                done + found,
            ),
        }
    }
}

/// The sum of the first `n` sizes.
pub open spec fn sum_to(sizes: Seq<usize>, n: int) -> nat
    decreases n,
{
    if n <= 0 {
        0
    } else {
        sum_to(sizes, n - 1) + sizes[n - 1] as nat
    }
}

// ---- Super blocks ----

/// `done` and the `count` addresses from `p` on.
pub open spec fn addresses_at(d: Seq<u8>, p: int, os: u8, count: int, done: Seq<u64>) -> Result<
    Seq<u64>,
    ErrorModel,
>
    decreases count,
{
    if count <= 0 {
        Ok(done)
    } else {
        match crate::utils::offset_at(d, p, os) {
            Err(e) => Err(e),
            Ok(a) => addresses_at(d, p + os, os, count - 1, done.push(a)),
        }
    }
}

/// The number of addresses, at most `count`, that `d` holds from `p` on.
pub open spec fn addresses_in(d: Seq<u8>, p: int, os: u8, count: int) -> int
    decreases count,
{
    if count <= 0 || !crate::utils::fits(d, p, os as int) {
        0
    } else {
        1 + addresses_in(d, p + os, os, count - 1)
    }
}

/// The addresses, at most `count`, that `d` holds from `p` on.
pub open spec fn leading_addresses(d: Seq<u8>, p: int, os: u8, count: int) -> Result<
    Seq<u64>,
    ErrorModel,
> {
    addresses_at(d, p, os, addresses_in(d, p, os, count), Seq::empty())
}

/// `n` sizes, each of them `size`.
pub open spec fn equal_sizes(n: nat, size: usize) -> Seq<usize> {
    Seq::new(n, |i: int| size)
}

/// The allocated chunks of the super block at `sb` with `ndblks` data blocks of `nelmts` elements.
pub open spec fn ea_super_at(
    d: Seq<u8>,
    sb: int,
    ndblks: usize,
    nelmts: usize,
    h: ExtensibleArrayHeader,
    os: u8,
    g: crate::fixed_array::ChunkGrid,
    index: int,
) -> Chunks {
    if !crate::utils::fits(d, sb, 6 + os) {
        Err(crate::utils::eof(d, sb, 6 + os))
    } else if !crate::bytes::has_tag(d, sb, easb()) {
        Err(ErrorModel::ChunkedReadError("invalid Extensible Array super block signature"@))
    } else {
        match addresses_at(d, sb + 6 + os, os, ndblks as int, Seq::empty()) {
            Err(e) => Err(e),
            Ok(addrs) => ea_blocks(
                d,
                addrs,
                equal_sizes(addrs.len(), nelmts),
                0,
                h,
                os,
                g,
                index,
                Seq::empty(),
            ),
        }
    }
}

/// `done` and the allocated chunks of the super blocks from the `i`-th on; the next one starts at
/// the given index. A block with an undefined address is skipped.
pub open spec fn ea_supers(
    d: Seq<u8>,
    addrs: Seq<u64>,
    infos: Seq<(usize, usize)>,
    i: int,
    h: ExtensibleArrayHeader,
    os: u8,
    g: crate::fixed_array::ChunkGrid,
    index: int,
    done: Seq<ChunkInfoModel>,
) -> Chunks
    decreases addrs.len() - i,
{
    if i >= addrs.len() {
        Ok(done)
    } else {
        let (ndblks, nelmts) = infos[i];
        if crate::utils::undefined_offset(addrs[i], os) {
            ea_supers(d, addrs, infos, i + 1, h, os, g, index + ndblks * nelmts, done)
        } else {
            match ea_super_at(d, (addrs[i] as usize) as int, ndblks, nelmts, h, os, g, index) {
                Err(e) => Err(e),
                Ok(found) => ea_supers(
                    d,
                    addrs,
                    infos,
                    i + 1,
                    h,
                    os,
                    g,
                    index + ndblks * nelmts,
                    done + found,
                ),
            }
        }
    }
}

/// The number of elements in the first `n` super blocks.
pub open spec fn supers_total(infos: Seq<(usize, usize)>, n: int) -> int
    decreases n,
{
    if n <= 0 {
        0
    } else {
        supers_total(infos, n - 1) + infos[n - 1].0 * infos[n - 1].1
    }
}

// ---- The layout of the array ----

/// The number of data blocks of super block `k`.
pub open spec fn super_count(k: int) -> nat {
    pow2((k / 2) as nat)
}

/// The number of elements in each data block of super block `k`, where the smallest data block has
/// `min` elements.
pub open spec fn super_size(k: int, min: int) -> int {
    min * pow2(((k + 1) / 2) as nat)
}

/// Whether the number of the data blocks of super block `k` and their size fit in the machine word.
pub open spec fn super_fits(k: int, min: int) -> bool {
    &&& (k + 1) / 2 < 64
    &&& super_count(k) <= usize::MAX
    &&& super_size(k, min) <= usize::MAX
}

/// The sizes of the data blocks that the index block lists: those of the super blocks from the
/// `k`-th on, up to the given number of levels.
pub open spec fn direct_sizes(k: int, levels: int, min: int) -> Seq<usize>
    decreases levels - k,
{
    if k >= levels {
        Seq::empty()
    } else {
        equal_sizes(super_count(k), super_size(k, min) as usize) + direct_sizes(k + 1, levels, min)
    }
}

/// Whether the numbers of blocks and their sizes fit in the machine word.
pub open spec fn direct_fits(k: int, levels: int, min: int) -> bool
    decreases levels - k,
{
    k >= levels || (super_fits(k, min) && direct_fits(k + 1, levels, min))
}

/// The number of elements that are not covered yet.
pub open spec fn uncovered(covered: int, remaining: int) -> int {
    if covered >= remaining {
        0
    } else {
        remaining - covered
    }
}

/// The super blocks from the `k`-th on: the numbers of their data blocks and their sizes, until
/// `remaining` elements are covered.
pub open spec fn super_layout(k: int, min: int, covered: int, remaining: int) -> Seq<(usize, usize)>
    decreases uncovered(covered, remaining),
{
    let n = super_count(k) as int;
    let size = super_size(k, min);
    if covered >= remaining || n * size <= 0 {
        Seq::empty()
    } else {
        seq![(n as usize, size as usize)] + super_layout(
            k + 1,
            min,
            covered + n * size,
            remaining,
        )
    }
}

/// Whether the super blocks cover the elements within the machine word.
pub open spec fn super_layout_fits(k: int, min: int, covered: int, remaining: int) -> bool
    decreases uncovered(covered, remaining),
{
    let n = super_count(k) as int;
    let size = super_size(k, min);
    covered >= remaining || (n * size > 0 && super_fits(k, min) && covered + n * size <= usize::MAX
        && super_layout_fits(k + 1, min, covered + n * size, remaining))
}

/// The allocated chunks of an Extensible Array: those of the elements in the index block, then
/// those of the data blocks that it lists, then those of the super blocks that it lists.
pub open spec fn extensible_chunks(
    d: Seq<u8>,
    h: ExtensibleArrayHeader,
    dims: Seq<u64>,
    chunk: Seq<u32>,
    size: u32,
    os: u8,
) -> Chunks {
    let ib = (h.index_block_address as usize) as int;
    let g = crate::fixed_array::grid_of(dims, chunk, size);
    if !crate::utils::fits(d, ib, 6 + os) {
        Err(crate::utils::eof(d, ib, 6 + os))
    } else if !crate::bytes::has_tag(d, ib, eaib()) {
        Err(ErrorModel::ChunkedReadError("invalid Extensible Array index block signature"@))
    } else {
        let total = (h.num_elements as usize) as int;
        let inline = inline_count(h);
        match ea_elements_at(d, ib + 6 + os, h, os, g, 0, inline, Seq::empty()) {
            Err(e) => Err(e),
            Ok(found) => if inline >= total {
                Ok(found)
            } else {
                direct_chunks(d, h, os, g, found)
            },
        }
    }
}

/// The number of elements that stand in the index block.
pub open spec fn inline_count(h: ExtensibleArrayHeader) -> int {
    let total = (h.num_elements as usize) as int;
    if h.idx_blk_elmts <= total {
        h.idx_blk_elmts as int
    } else {
        total
    }
}

/// Where the addresses of the data blocks stand in the index block.
pub open spec fn direct_position(h: ExtensibleArrayHeader, os: u8) -> int {
    (h.index_block_address as usize) + 6 + os + h.idx_blk_elmts * ea_width(
        h.client_id,
        h.element_size,
        os,
    )
}

/// The sizes of the data blocks that the index block lists.
pub open spec fn listed_sizes(h: ExtensibleArrayHeader) -> Seq<usize> {
    direct_sizes(0, h.super_blk_min_nelmts as int, h.min_dblk_nelmts as int)
}

/// `found` and the allocated chunks of the data blocks and of the super blocks.
pub open spec fn direct_chunks(
    d: Seq<u8>,
    h: ExtensibleArrayHeader,
    os: u8,
    g: crate::fixed_array::ChunkGrid,
    found: Seq<ChunkInfoModel>,
) -> Chunks {
    let sizes = listed_sizes(h);
    match leading_addresses(d, direct_position(h, os), os, sizes.len() as int) {
        Err(e) => Err(e),
        Ok(addrs) => match ea_blocks(
            d,
            addrs,
            sizes,
            0,
            h,
            os,
            g,
            h.idx_blk_elmts as int,
            found,
        ) {
            Err(e) => Err(e),
            Ok(all) => if (h.num_elements as usize) <= listed_total(h) {
                Ok(all)
            } else {
                super_chunks(d, h, os, g, addrs.len() as int, all)
            },
        },
    }
}

/// The number of elements in the index block and in the data blocks that it lists.
pub open spec fn listed_total(h: ExtensibleArrayHeader) -> int {
    h.idx_blk_elmts + sum_to(listed_sizes(h), listed_sizes(h).len() as int)
}

/// The super blocks of the array.
pub open spec fn listed_supers(h: ExtensibleArrayHeader) -> Seq<(usize, usize)> {
    super_layout(
        h.super_blk_min_nelmts as int,
        h.min_dblk_nelmts as int,
        0,
        (h.num_elements as usize) - listed_total(h),
    )
}

/// The addresses of the super blocks, which stand behind those of `direct` data blocks.
pub open spec fn super_addresses(
    d: Seq<u8>,
    h: ExtensibleArrayHeader,
    os: u8,
    direct: int,
) -> Result<Seq<u64>, ErrorModel> {
    leading_addresses(
        d,
        direct_position(h, os) + direct * os,
        os,
        listed_supers(h).len() as int,
    )
}

/// `found` and the allocated chunks of the super blocks.
pub open spec fn super_chunks(
    d: Seq<u8>,
    h: ExtensibleArrayHeader,
    os: u8,
    g: crate::fixed_array::ChunkGrid,
    direct: int,
    found: Seq<ChunkInfoModel>,
) -> Chunks {
    match super_addresses(d, h, os, direct) {
        Err(e) => Err(e),
        Ok(addrs) => ea_supers(
            d,
            addrs,
            listed_supers(h),
            0,
            h,
            os,
            g,
            h.idx_blk_elmts + sum_to(listed_sizes(h), direct),
            found,
        ),
    }
}

// ---- What can be read ----

/// Whether the element at `p` can be read: a filtered element has room for an address and a mask,
/// and where the chunk is allocated, the data set has elements along every axis, and the size of the
/// chunk fits in 64 bits.
pub open spec fn element_readable(
    d: Seq<u8>,
    p: int,
    client_id: u8,
    element_size: u8,
    os: u8,
    g: crate::fixed_array::ChunkGrid,
) -> bool {
    &&& client_id != 0 ==> os + 4 <= element_size
    &&& crate::fixed_array::is_allocated(d, p, ea_width(client_id, element_size, os), os) ==> {
        &&& crate::grid::is_grid(g.counts, g.chunk)
        &&& client_id != 0 ==> element_size <= os + 12
    }
}

/// Whether the `count` elements from `p` on can be read, up to the first that is an error.
pub open spec fn elements_readable(
    d: Seq<u8>,
    p: int,
    h: ExtensibleArrayHeader,
    os: u8,
    g: crate::fixed_array::ChunkGrid,
    index: int,
    count: int,
) -> bool
    decreases count,
{
    count <= 0 || {
        let next = p + ea_width(h.client_id, h.element_size, os);
        &&& element_readable(d, p, h.client_id, h.element_size, os, g)
        &&& ea_element_at(d, p, h.client_id, h.element_size, os, g, index) is Ok
            ==> elements_readable(d, next, h, os, g, index + 1, count - 1)
    }
}

/// Whether the pages from `page` on can be read, up to the first that is an error.
pub open spec fn pages_readable(
    d: Seq<u8>,
    bitmap: int,
    p: int,
    page: int,
    nelmts: int,
    h: ExtensibleArrayHeader,
    os: u8,
    g: crate::fixed_array::ChunkGrid,
    index: int,
    done: Seq<ChunkInfoModel>,
) -> bool
    decreases crate::grid::ceil_div(nelmts, pow2(h.max_nelmts_bits as nat) as int) - page,
{
    let page_size = pow2(h.max_nelmts_bits as nat) as int;
    let npages = crate::grid::ceil_div(nelmts, page_size);
    page >= npages || {
        let count = page_count(page, npages, nelmts, page_size);
        let next = p + count * ea_width(h.client_id, h.element_size, os) + 4;
        if page_has_data(d, bitmap, page) {
            &&& elements_readable(d, p, h, os, g, index, count)
            &&& ea_elements_at(d, p, h, os, g, index, count, done) matches Ok(all)
                ==> pages_readable(
                d,
                bitmap,
                next,
                page + 1,
                nelmts,
                h,
                os,
                g,
                index + count,
                all,
            )
        } else {
            pages_readable(d, bitmap, next, page + 1, nelmts, h, os, g, index + count, done)
        }
    }
}

/// Whether the data block of `nelmts` elements at `db` can be read: where there is one, the size of
/// a page fits in the machine word, and its elements can be read.
pub open spec fn block_readable(
    d: Seq<u8>,
    db: int,
    nelmts: int,
    h: ExtensibleArrayHeader,
    os: u8,
    g: crate::fixed_array::ChunkGrid,
    index: int,
) -> bool {
    let p = db + 6 + os + crate::grid::ceil_div(h.max_nelmts_bits as int, 8);
    let page_size = pow2(h.max_nelmts_bits as nat) as int;
    let bitmap_size = crate::grid::ceil_div(crate::grid::ceil_div(nelmts, page_size), 8);
    crate::utils::fits(d, db, 6 + os) && crate::bytes::has_tag(d, db, eadb()) ==> {
        &&& h.max_nelmts_bits < usize::BITS
        &&& if nelmts <= page_size {
            elements_readable(d, p, h, os, g, index, nelmts)
        } else {
            crate::utils::fits(d, p, bitmap_size) ==> pages_readable(
                d,
                p,
                p + bitmap_size,
                0,
                nelmts,
                h,
                os,
                g,
                index,
                Seq::empty(),
            )
        }
    }
}

/// Whether the data blocks from the `i`-th on can be read, up to the first that is an error.
pub open spec fn blocks_readable(
    d: Seq<u8>,
    addrs: Seq<u64>,
    sizes: Seq<usize>,
    i: int,
    h: ExtensibleArrayHeader,
    os: u8,
    g: crate::fixed_array::ChunkGrid,
    index: int,
) -> bool
    decreases addrs.len() - i,
{
    i >= addrs.len() || {
        let db = (addrs[i] as usize) as int;
        if crate::utils::undefined_offset(addrs[i], os) {
            blocks_readable(d, addrs, sizes, i + 1, h, os, g, index + sizes[i])
        } else {
            &&& block_readable(d, db, sizes[i] as int, h, os, g, index)
            &&& ea_block_at(d, db, sizes[i] as int, h, os, g, index) is Ok ==> blocks_readable(
                d,
                addrs,
                sizes,
                i + 1,
                h,
                os,
                g,
                index + sizes[i],
            )
        }
    }
}

/// Whether the super block at `sb` can be read: where there is one, its data blocks can be read.
pub open spec fn super_readable(
    d: Seq<u8>,
    sb: int,
    ndblks: usize,
    nelmts: usize,
    h: ExtensibleArrayHeader,
    os: u8,
    g: crate::fixed_array::ChunkGrid,
    index: int,
) -> bool {
    crate::utils::fits(d, sb, 6 + os) && crate::bytes::has_tag(d, sb, easb()) ==> (addresses_at(
        d,
        sb + 6 + os,
        os,
        ndblks as int,
        Seq::empty(),
    ) matches Ok(addrs) ==> blocks_readable(
        d,
        addrs,
        equal_sizes(addrs.len(), nelmts),
        0,
        h,
        os,
        g,
        index,
    ))
}

/// Whether the super blocks from the `i`-th on can be read, up to the first that is an error.
pub open spec fn supers_readable(
    d: Seq<u8>,
    addrs: Seq<u64>,
    infos: Seq<(usize, usize)>,
    i: int,
    h: ExtensibleArrayHeader,
    os: u8,
    g: crate::fixed_array::ChunkGrid,
    index: int,
) -> bool
    decreases addrs.len() - i,
{
    i >= addrs.len() || {
        let (ndblks, nelmts) = infos[i];
        let sb = (addrs[i] as usize) as int;
        if crate::utils::undefined_offset(addrs[i], os) {
            supers_readable(d, addrs, infos, i + 1, h, os, g, index + ndblks * nelmts)
        } else {
            &&& super_readable(d, sb, ndblks, nelmts, h, os, g, index)
            &&& ea_super_at(d, sb, ndblks, nelmts, h, os, g, index) is Ok ==> supers_readable(
                d,
                addrs,
                infos,
                i + 1,
                h,
                os,
                g,
                index + ndblks * nelmts,
            )
        }
    }
}

/// Whether an Extensible Array can be read: the chunks can be counted, and so can those elements,
/// data blocks and super blocks that are read before the first error.
pub open spec fn extensible_array_readable(
    d: Seq<u8>,
    h: ExtensibleArrayHeader,
    dims: Seq<u64>,
    chunk: Seq<u32>,
    size: u32,
    os: u8,
) -> bool {
    let ib = (h.index_block_address as usize) as int;
    let g = crate::fixed_array::grid_of(dims, chunk, size);
    let inline = inline_count(h);
    &&& crate::fixed_array::is_chunkable(dims, chunk, size)
    &&& crate::utils::fits(d, ib, 6 + os) && crate::bytes::has_tag(d, ib, eaib()) ==> {
        &&& elements_readable(d, ib + 6 + os, h, os, g, 0, inline)
        &&& ea_elements_at(d, ib + 6 + os, h, os, g, 0, inline, Seq::empty()) matches Ok(found)
            ==> (inline < h.num_elements as usize ==> direct_readable(d, h, os, g, found))
    }
}

/// Whether the data blocks that the index block lists can be counted.
pub open spec fn direct_countable(h: ExtensibleArrayHeader) -> bool {
    &&& direct_fits(0, h.super_blk_min_nelmts as int, h.min_dblk_nelmts as int)
    &&& listed_total(h) <= usize::MAX
}

/// Whether the super blocks can be counted.
pub open spec fn supers_countable(h: ExtensibleArrayHeader) -> bool {
    &&& super_layout_fits(
        h.super_blk_min_nelmts as int,
        h.min_dblk_nelmts as int,
        0,
        (h.num_elements as usize) - listed_total(h),
    )
    &&& listed_total(h) + supers_total(listed_supers(h), listed_supers(h).len() as int)
        <= usize::MAX
}

/// Whether the data blocks and the super blocks can be counted and read.
pub open spec fn direct_readable(
    d: Seq<u8>,
    h: ExtensibleArrayHeader,
    os: u8,
    g: crate::fixed_array::ChunkGrid,
    found: Seq<ChunkInfoModel>,
) -> bool {
    let sizes = listed_sizes(h);
    let first = h.idx_blk_elmts as int;
    &&& direct_countable(h)
    &&& leading_addresses(d, direct_position(h, os), os, sizes.len() as int) matches Ok(addrs)
        ==> {
        &&& blocks_readable(d, addrs, sizes, 0, h, os, g, first)
        &&& ea_blocks(d, addrs, sizes, 0, h, os, g, first, found) is Ok && h.num_elements as usize
            > listed_total(h) ==> supers_behind_readable(d, h, os, g, addrs.len() as int)
    }
}

/// Whether the super blocks, whose addresses stand behind those of `direct` data blocks, can be
/// counted and read.
pub open spec fn supers_behind_readable(
    d: Seq<u8>,
    h: ExtensibleArrayHeader,
    os: u8,
    g: crate::fixed_array::ChunkGrid,
    direct: int,
) -> bool {
    &&& supers_countable(h)
    &&& super_addresses(d, h, os, direct) matches Ok(addrs) ==> supers_readable(
        d,
        addrs,
        listed_supers(h),
        0,
        h,
        os,
        g,
        h.idx_blk_elmts + sum_to(listed_sizes(h), direct),
    )
}

// ---- Reading ----

impl ExtensibleArrayHeader {
    /// Parse an Extensible Array header from file data at the given offset.
    pub fn parse(file_data: &[u8], offset: usize, offset_size: u8, length_size: u8) -> (r: Result<
        Self,
        FormatError,
    >)
        ensures
            crate::error::outcome(r) == extensible_array_at(
                file_data@,
                offset as int,
                offset_size,
                length_size,
            ),
    {
        let min_size: usize = ExtensibleArrayHeader::serialized_size(offset_size, length_size);
        ensure_len(file_data, offset, min_size)?;
        assert(offset + min_size <= file_data.len());
        if !tag_at(file_data, offset, 0x45, 0x41, 0x48, 0x44) {
            return Err(FormatError::chunked("invalid Extensible Array header signature"));
        }
        let version = file_data[offset + 4];
        if version != 0 {
            return Err(
                FormatError::chunked_number(
                    "unsupported Extensible Array header version: ",
                    version as u64,
                ),
            );
        }
        let ls: usize = length_size as usize;
        // Of the 6 stats fields only nelmts (field[4]) is needed.
        let num_elements = read_offset(file_data, offset + 12 + 4 * ls, length_size)?;
        let index_block_address = read_offset(file_data, offset + 12 + 6 * ls, offset_size)?;
        Ok(
            ExtensibleArrayHeader {
                client_id: file_data[offset + 5],
                element_size: file_data[offset + 6],
                max_nelmts_bits: file_data[offset + 7],
                idx_blk_elmts: file_data[offset + 8],
                min_dblk_nelmts: file_data[offset + 9],
                super_blk_min_nelmts: file_data[offset + 10],
                max_dblk_nelmts_bits: file_data[offset + 11],
                num_elements,
                index_block_address,
            },
        )
    }

    /// Compute the size of this header in bytes (for write support).
    pub fn serialized_size(offset_size: u8, length_size: u8) -> (n: usize)
        ensures
            n == header_size(offset_size, length_size),
    {
        // signature(4) + version, client_id, element_size and five parameters (8) +
        // 6 stats fields (each length_size) + index_block_address(offset_size) + checksum(4)
        4 + 8 + 6 * (length_size as usize) + offset_size as usize + 4
    }
}

/// Read a single element from the extensible array element data.
/// Returns (chunk_info, bytes_consumed); no chunk_info if unallocated.
pub fn read_element(
    data: &[u8],
    pos: usize,
    client_id: u8,
    element_size: u8,
    offset_size: u8,
    chunk_byte_size: u64,
    linear_index: usize,
    num_chunks_per_dim: &[u64],
    chunk_dimensions: &[u32],
) -> (r: Result<(Option<ChunkInfo>, usize), FormatError>)
    requires
        element_readable(
            data@,
            pos as int,
            client_id,
            element_size,
            offset_size,
            ea_grid(num_chunks_per_dim@, chunk_dimensions@, chunk_byte_size),
        ),
    ensures
        ({
            let e = ea_element_at(
                data@,
                pos as int,
                client_id,
                element_size,
                offset_size,
                ea_grid(num_chunks_per_dim@, chunk_dimensions@, chunk_byte_size),
                linear_index as int,
            );
            match r {
                Ok((Some(info), consumed)) => e == Ok::<Option<ChunkInfoModel>, ErrorModel>(
                    Some(info.deep_view()),
                ) && consumed == ea_width(client_id, element_size, offset_size),
                Ok((None, consumed)) => e == Ok::<Option<ChunkInfoModel>, ErrorModel>(None)
                    && consumed == ea_width(client_id, element_size, offset_size),
                Err(error) => e == Err::<Option<ChunkInfoModel>, ErrorModel>(error.deep_view()),
            }
        }),
        r is Ok ==> pos + ea_width(client_id, element_size, offset_size) <= data@.len(),
{
    let os: usize = offset_size as usize;
    let width: usize = if client_id == 0 {
        // Non-filtered: just address
        os
    } else {
        // Filtered: address + compressed_size + filter_mask
        element_size as usize
    };
    ensure_len(data, pos, width)?;
    assert(pos + width <= data.len());
    if is_undefined_bytes(data, pos, offset_size) {
        return Ok((None, width));
    }
    let address = read_offset(data, pos, offset_size)?;
    if client_id == 0 {
        let offsets = index_to_chunk_offsets(linear_index, num_chunks_per_dim, chunk_dimensions);
        Ok(
            (
                Some(
                    ChunkInfo {
                        chunk_size: chunk_byte_size as u32,
                        filter_mask: 0,
                        offsets,
                        address,
                    },
                ),
                width,
            ),
        )
    } else {
        let chunk_size_bytes: usize = width - os - 4;
        let sized = slice_subrange(data, pos + os, data.len());
        let chunk_size = read_variable_length(sized, chunk_size_bytes)?;
        let fm_off: usize = pos + os + chunk_size_bytes;
        let filter_mask = order_u32(slice_subrange(data, fm_off, fm_off + 4));
        proof {
            assert(sized@.subrange(0, chunk_size_bytes as int) =~= data@.subrange(
                pos + os,
                pos + width - 4,
            ));
        }
        let offsets = index_to_chunk_offsets(linear_index, num_chunks_per_dim, chunk_dimensions);
        Ok(
            (
                Some(
                    ChunkInfo { chunk_size: chunk_size as u32, filter_mask, offsets, address },
                ),
                width,
            ),
        )
    }
}

/// `p`, or the largest position where it exceeds that.
spec fn capped(p: int) -> usize {
    if p <= usize::MAX {
        p as usize
    } else {
        usize::MAX
    }
}

/// The position behind a page of `count` elements of `width` bytes, and its checksum.
fn skip_page(pos: usize, count: usize, width: usize) -> (r: usize)
    ensures
        r == capped(pos + count * width + 4),
{
    match count.checked_mul(width) {
        Some(n) => pos.saturating_add(n).saturating_add(4),
        None => usize::MAX,
    }
}

/// Elements behind all positions are missing in the same way, wherever they are looked for.
proof fn lemma_capped_elements(
    d: Seq<u8>,
    p: int,
    h: ExtensibleArrayHeader,
    os: u8,
    g: crate::fixed_array::ChunkGrid,
    index: int,
    count: int,
    done: Seq<ChunkInfoModel>,
)
    requires
        d.len() <= isize::MAX,
        count > 0,
        p >= 0,
    ensures
        ea_elements_at(d, p, h, os, g, index, count, done) == ea_elements_at(
            d,
            capped(p) as int,
            h,
            os,
            g,
            index,
            count,
            done,
        ),
        elements_readable(d, p, h, os, g, index, count) == elements_readable(
            d,
            capped(p) as int,
            h,
            os,
            g,
            index,
            count,
        ),
{
}

/// Why the chunks of an array are not collected.
enum Stop {
    /// The array is damaged.
    Error(FormatError),
    /// The array states what cannot be computed with.
    Unreadable,
}

/// Whether `r` is what a part of an array holds, where that part can be read, and says so where it
/// cannot.
spec fn collected(r: Result<Vec<ChunkInfo>, Stop>, readable: bool, all: Chunks) -> bool {
    match r {
        Ok(chunks) => readable && all == Ok::<Seq<ChunkInfoModel>, ErrorModel>(
            chunks.deep_view(),
        ),
        Err(Stop::Error(e)) => readable && all == Err::<Seq<ChunkInfoModel>, ErrorModel>(
            e.deep_view(),
        ),
        Err(Stop::Unreadable) => !readable,
    }
}

/// What the readers of an array share.
struct ArrayReader<'a> {
    file_data: &'a [u8],
    header: ExtensibleArrayHeader,
    offset_size: u8,
    chunk_byte_size: u64,
    num_chunks_per_dim: &'a [u64],
    chunk_dimensions: &'a [u32],
    /// Whether the data set has elements along every axis.
    has_elements: bool,
}

impl<'a> ArrayReader<'a> {
    spec fn wf(&self) -> bool {
        &&& self.file_data@.len() <= isize::MAX
        &&& self.has_elements == crate::grid::is_grid(self.grid().counts, self.grid().chunk)
    }

    spec fn grid(&self) -> crate::fixed_array::ChunkGrid {
        ea_grid(self.num_chunks_per_dim@, self.chunk_dimensions@, self.chunk_byte_size)
    }

    spec fn width(&self) -> int {
        ea_width(self.header.client_id, self.header.element_size, self.offset_size)
    }

    /// Whether the element at `pos` can be read.
    fn can_read_element(&self, pos: usize) -> (r: bool)
        requires
            self.wf(),
        ensures
            r == element_readable(
                self.file_data@,
                pos as int,
                self.header.client_id,
                self.header.element_size,
                self.offset_size,
                self.grid(),
            ),
    {
        let os: usize = self.offset_size as usize;
        let filtered = self.header.client_id != 0;
        let width: usize = if filtered {
            self.header.element_size as usize
        } else {
            os
        };
        if filtered && width < os + 4 {
            return false;
        }
        let len: usize = self.file_data.len();
        if pos > len || width > len - pos || !(os == 1 || os == 2 || os == 4 || os == 8)
            || is_undefined_bytes(self.file_data, pos, self.offset_size) {
            return true;
        }
        self.has_elements && (!filtered || width <= os + 12)
    }

    /// Appends the allocated chunks of the `count` elements at `start`, and returns the position
    /// behind them.
    fn read_elements(
        &self,
        start: usize,
        index: usize,
        count: usize,
        chunks: &mut Vec<ChunkInfo>,
    ) -> (r: Result<usize, Stop>)
        requires
            self.wf(),
            index + count <= usize::MAX,
        ensures
            r matches Ok(end) ==> count > 0 ==> end <= self.file_data@.len(),
            r matches Err(Stop::Unreadable) <==> !elements_readable(
                self.file_data@,
                start as int,
                self.header,
                self.offset_size,
                self.grid(),
                index as int,
                count as int,
            ),
            ({
                let all = ea_elements_at(
                    self.file_data@,
                    start as int,
                    self.header,
                    self.offset_size,
                    self.grid(),
                    index as int,
                    count as int,
                    old(chunks).deep_view(),
                );
                match r {
                    Ok(end) => all == Ok::<Seq<ChunkInfoModel>, ErrorModel>(
                        final(chunks).deep_view(),
                    ) && end == start + count * self.width(),
                    Err(Stop::Error(e)) => all == Err::<Seq<ChunkInfoModel>, ErrorModel>(
                        e.deep_view(),
                    ),
                    Err(Stop::Unreadable) => true,
                }
            }),
    {
        let ghost goal = ea_elements_at(
            self.file_data@,
            start as int,
            self.header,
            self.offset_size,
            self.grid(),
            index as int,
            count as int,
            chunks.deep_view(),
        );
        let ghost readable = elements_readable(
            self.file_data@,
            start as int,
            self.header,
            self.offset_size,
            self.grid(),
            index as int,
            count as int,
        );
        let ghost w = self.width();
        let mut pos: usize = start;
        let mut i: usize = 0;
        assert(0 * w == 0);
        while i < count
            invariant
                self.wf(),
                readable == elements_readable(
                    self.file_data@,
                    start as int,
                    self.header,
                    self.offset_size,
                    self.grid(),
                    index as int,
                    count as int,
                ),
                readable == elements_readable(
                    self.file_data@,
                    pos as int,
                    self.header,
                    self.offset_size,
                    self.grid(),
                    index + i,
                    count - i,
                ),
                i <= count,
                w == self.width(),
                w >= 0,
                index + count <= usize::MAX,
                pos == start + i * w,
                i > 0 ==> pos <= self.file_data@.len(),
                goal == ea_elements_at(
                    self.file_data@,
                    start as int,
                    self.header,
                    self.offset_size,
                    self.grid(),
                    index as int,
                    count as int,
                    old(chunks).deep_view(),
                ),
                goal == ea_elements_at(
                    self.file_data@,
                    pos as int,
                    self.header,
                    self.offset_size,
                    self.grid(),
                    index + i,
                    count - i,
                    chunks.deep_view(),
                ),
            decreases count - i,
        {
            let ghost before = chunks.deep_view();
            proof {
                assert((i + 1) * w == i * w + w) by (nonlinear_arith);
            }
            if !self.can_read_element(pos) {
                return Err(Stop::Unreadable);
            }
            let (info, consumed) = match read_element(
                self.file_data,
                pos,
                self.header.client_id,
                self.header.element_size,
                self.offset_size,
                self.chunk_byte_size,
                index + i,
                self.num_chunks_per_dim,
                self.chunk_dimensions,
            ) {
                Ok(read) => read,
                Err(e) => {
                    return Err(Stop::Error(e));
                },
            };
            if let Some(ci) = info {
                chunks.push(ci);
                assert(chunks.deep_view() =~= before.push(ci.deep_view()));
            }
            pos = pos + consumed;
            i += 1;
        }
        Ok(pos)
    }

    /// Collect elements from a data block at the given offset.
    fn read_data_block_elements(&self, db_offset: usize, nelmts: usize, start_index: usize) -> (r:
        Result<Vec<ChunkInfo>, Stop>)
        requires
            self.wf(),
            start_index + nelmts <= usize::MAX,
        ensures
            collected(
                r,
                block_readable(
                    self.file_data@,
                    db_offset as int,
                    nelmts as int,
                    self.header,
                    self.offset_size,
                    self.grid(),
                    start_index as int,
                ),
                ea_block_at(
                    self.file_data@,
                    db_offset as int,
                    nelmts as int,
                    self.header,
                    self.offset_size,
                    self.grid(),
                    start_index as int,
                ),
            ),
    {
        let file_data = self.file_data;
        // EADB: signature(4) + version(1) + client_id(1) + header_address(offset_size)
        let db_header_size: usize = 6 + self.offset_size as usize;
        if let Err(e) = ensure_len(file_data, db_offset, db_header_size) {
            return Err(Stop::Error(e));
        }
        if !tag_at(file_data, db_offset, 0x45, 0x41, 0x44, 0x42) {
            return Err(
                Stop::Error(FormatError::chunked("invalid Extensible Array data block signature")),
            );
        }
        if self.header.max_nelmts_bits as u32 >= usize::BITS {
            return Err(Stop::Unreadable);
        }
        // Block offset is encoded in ceil(max_nelmts_bits/8) bytes

        let bits: usize = self.header.max_nelmts_bits as usize;
        let blk_off_size: usize = if bits % 8 == 0 {
            bits / 8
        } else {
            bits / 8 + 1
        };
        let pos: usize = db_offset + db_header_size + blk_off_size;
        // Check if paged
        proof {
            lemma_pow2_usize(self.header.max_nelmts_bits);
        }
        let page_nelmts: usize = power_of_two(self.header.max_nelmts_bits) as usize;
        let mut chunks: Vec<ChunkInfo> = Vec::new();
        assert(chunks.deep_view() =~= Seq::<ChunkInfoModel>::empty());
        if nelmts <= page_nelmts {
            self.read_elements(pos, start_index, nelmts, &mut chunks)?;
            return Ok(chunks);
        }
        // Paged: after the data block header comes a page bitmap, then each page has
        // page_nelmts elements followed by a 4-byte checksum.

        let npages: usize = crate::grid::ceil_quotient(nelmts as u64, page_nelmts as u64) as usize;
        let bitmap_size: usize = crate::grid::ceil_quotient(npages as u64, 8) as usize;
        if let Err(e) = ensure_len(file_data, pos, bitmap_size) {
            return Err(Stop::Error(e));
        }
        self.read_pages(pos, pos + bitmap_size, nelmts, npages, page_nelmts, start_index)
    }

    /// Collect the elements of the pages of a data block.
    fn read_pages(
        &self,
        bitmap: usize,
        start: usize,
        nelmts: usize,
        npages: usize,
        page_nelmts: usize,
        start_index: usize,
    ) -> (r: Result<Vec<ChunkInfo>, Stop>)
        requires
            self.wf(),
            page_nelmts == pow2(self.header.max_nelmts_bits as nat),
            page_nelmts > 0,
            npages == crate::grid::ceil_div(nelmts as int, page_nelmts as int),
            nelmts > 0,
            start == bitmap + crate::grid::ceil_div(npages as int, 8),
            start <= self.file_data@.len(),
            start_index + nelmts <= usize::MAX,
        ensures
            collected(
                r,
                pages_readable(
                    self.file_data@,
                    bitmap as int,
                    start as int,
                    0,
                    nelmts as int,
                    self.header,
                    self.offset_size,
                    self.grid(),
                    start_index as int,
                    Seq::empty(),
                ),
                ea_pages_at(
                    self.file_data@,
                    bitmap as int,
                    start as int,
                    0,
                    nelmts as int,
                    self.header,
                    self.offset_size,
                    self.grid(),
                    start_index as int,
                    Seq::empty(),
                ),
            ),
    {
        let ghost w = self.width();
        let elem_bytes: usize = if self.header.client_id == 0 {
            self.offset_size as usize
        } else {
            self.header.element_size as usize
        };
        let mut chunks: Vec<ChunkInfo> = Vec::new();
        assert(chunks.deep_view() =~= Seq::<ChunkInfoModel>::empty());
        let ghost goal = ea_pages_at(
            self.file_data@,
            bitmap as int,
            start as int,
            0,
            nelmts as int,
            self.header,
            self.offset_size,
            self.grid(),
            start_index as int,
            Seq::empty(),
        );
        let ghost readable = pages_readable(
            self.file_data@,
            bitmap as int,
            start as int,
            0,
            nelmts as int,
            self.header,
            self.offset_size,
            self.grid(),
            start_index as int,
            Seq::empty(),
        );
        let ghost mut p: int = start as int;
        let mut pos: usize = start;
        let mut global_idx: usize = start_index;
        let mut page_idx: usize = 0;
        proof {
            crate::grid::lemma_ceil_div(nelmts as int, page_nelmts as int);
            crate::grid::lemma_ceil_div(npages as int, 8);
            assert(0 * w == 0 && 0 * page_nelmts == 0);
        }
        let mut done: usize = 0;
        while page_idx < npages
            invariant
                self.wf(),
                w == self.width(),
                w == elem_bytes,
                page_nelmts == pow2(self.header.max_nelmts_bits as nat),
                page_nelmts > 0,
                npages == crate::grid::ceil_div(nelmts as int, page_nelmts as int),
                npages <= nelmts,
                nelmts > 0,
                start == bitmap + crate::grid::ceil_div(npages as int, 8),
                npages <= 8 * crate::grid::ceil_div(npages as int, 8),
                start <= self.file_data@.len(),
                start_index + nelmts <= usize::MAX,
                page_idx <= npages,
                page_idx < npages ==> done == page_idx * page_nelmts,
                done <= nelmts,
                p == start + done * w + 4 * page_idx,
                pos == capped(p),
                global_idx == start_index + done,
                goal == ea_pages_at(
                    self.file_data@,
                    bitmap as int,
                    start as int,
                    0,
                    nelmts as int,
                    self.header,
                    self.offset_size,
                    self.grid(),
                    start_index as int,
                    Seq::empty(),
                ),
                goal == ea_pages_at(
                    self.file_data@,
                    bitmap as int,
                    p,
                    page_idx as int,
                    nelmts as int,
                    self.header,
                    self.offset_size,
                    self.grid(),
                    global_idx as int,
                    chunks.deep_view(),
                ),
                readable == pages_readable(
                    self.file_data@,
                    bitmap as int,
                    start as int,
                    0,
                    nelmts as int,
                    self.header,
                    self.offset_size,
                    self.grid(),
                    start_index as int,
                    Seq::empty(),
                ),
                readable == pages_readable(
                    self.file_data@,
                    bitmap as int,
                    p,
                    page_idx as int,
                    nelmts as int,
                    self.header,
                    self.offset_size,
                    self.grid(),
                    global_idx as int,
                    chunks.deep_view(),
                ),
            decreases npages - page_idx,
        {
            let byte_idx: usize = page_idx / 8;
            let bit_idx: u8 = (page_idx % 8) as u8;
            let page_has_data = (self.file_data[bitmap + byte_idx] as u64 / nonzero_power(bit_idx))
                % 2 == 1;
            let remainder: usize = nelmts % page_nelmts;
            let elems_this_page: usize = if page_idx == npages - 1 && remainder != 0 {
                remainder
            } else {
                page_nelmts
            };
            proof {
                lemma_page_room(
                    page_idx as int,
                    npages as int,
                    nelmts as int,
                    page_nelmts as int,
                );
                assert(done * w + elems_this_page * w == (done + elems_this_page) * w)
                    by (nonlinear_arith);
                assert(elems_this_page * w >= 0) by (nonlinear_arith)
                    requires
                        elems_this_page >= 0,
                        w >= 0,
                ;
            }
            if page_has_data {
                proof {
                    lemma_capped_elements(
                        self.file_data@,
                        p,
                        self.header,
                        self.offset_size,
                        self.grid(),
                        global_idx as int,
                        elems_this_page as int,
                        chunks.deep_view(),
                    );
                }
                self.read_elements(pos, global_idx, elems_this_page, &mut chunks)?;
            }
            // Skip all elements and the page checksum (4 bytes)
            pos = skip_page(pos, elems_this_page, elem_bytes);
            proof {
                p = p + elems_this_page * w + 4;
            }
            global_idx = global_idx + elems_this_page;
            done = done + elems_this_page;
            page_idx += 1;
        }
        Ok(chunks)
    }

    /// Appends the allocated chunks of the data blocks.
    fn read_blocks(
        &self,
        addrs: &Vec<u64>,
        sizes: &Vec<usize>,
        start_index: usize,
        chunks: &mut Vec<ChunkInfo>,
    ) -> (r: Result<usize, Stop>)
        requires
            self.wf(),
            addrs@.len() <= sizes@.len(),
            start_index + sum_to(sizes@, addrs@.len() as int) <= usize::MAX,
        ensures
            r matches Err(Stop::Unreadable) <==> !blocks_readable(
                self.file_data@,
                addrs@,
                sizes@,
                0,
                self.header,
                self.offset_size,
                self.grid(),
                start_index as int,
            ),
            ({
                let all = ea_blocks(
                    self.file_data@,
                    addrs@,
                    sizes@,
                    0,
                    self.header,
                    self.offset_size,
                    self.grid(),
                    start_index as int,
                    old(chunks).deep_view(),
                );
                match r {
                    Ok(end) => all == Ok::<Seq<ChunkInfoModel>, ErrorModel>(
                        final(chunks).deep_view(),
                    ) && end == start_index + sum_to(sizes@, addrs@.len() as int),
                    Err(Stop::Error(e)) => all == Err::<Seq<ChunkInfoModel>, ErrorModel>(
                        e.deep_view(),
                    ),
                    Err(Stop::Unreadable) => true,
                }
            }),
    {
        let ghost goal = ea_blocks(
            self.file_data@,
            addrs@,
            sizes@,
            0,
            self.header,
            self.offset_size,
            self.grid(),
            start_index as int,
            chunks.deep_view(),
        );
        let ghost readable = blocks_readable(
            self.file_data@,
            addrs@,
            sizes@,
            0,
            self.header,
            self.offset_size,
            self.grid(),
            start_index as int,
        );
        let mut global_index: usize = start_index;
        let mut i: usize = 0;
        while i < addrs.len()
            invariant
                self.wf(),
                i <= addrs@.len() <= sizes@.len(),
                start_index + sum_to(sizes@, addrs@.len() as int) <= usize::MAX,
                global_index == start_index + sum_to(sizes@, i as int),
                goal == ea_blocks(
                    self.file_data@,
                    addrs@,
                    sizes@,
                    0,
                    self.header,
                    self.offset_size,
                    self.grid(),
                    start_index as int,
                    old(chunks).deep_view(),
                ),
                goal == ea_blocks(
                    self.file_data@,
                    addrs@,
                    sizes@,
                    i as int,
                    self.header,
                    self.offset_size,
                    self.grid(),
                    global_index as int,
                    chunks.deep_view(),
                ),
                readable == blocks_readable(
                    self.file_data@,
                    addrs@,
                    sizes@,
                    0,
                    self.header,
                    self.offset_size,
                    self.grid(),
                    start_index as int,
                ),
                readable == blocks_readable(
                    self.file_data@,
                    addrs@,
                    sizes@,
                    i as int,
                    self.header,
                    self.offset_size,
                    self.grid(),
                    global_index as int,
                ),
            decreases addrs@.len() - i,
        {
            let addr: u64 = addrs[i];
            let nelmts: usize = sizes[i];
            proof {
                lemma_sum_to_monotonic(sizes@, i + 1, addrs@.len() as int);
                assert(sum_to(sizes@, i + 1) == sum_to(sizes@, i as int) + sizes@[i as int]);
            }
            if !is_undefined_offset(addr, self.offset_size) {
                let block_chunks = self.read_data_block_elements(
                    addr as usize,
                    nelmts,
                    global_index,
                )?;
                extend_chunks(chunks, block_chunks);
            }
            global_index = global_index + nelmts;
            i += 1;
        }
        Ok(global_index)
    }

    /// Read a super block (EASB) and its data blocks.
    fn read_super_block(
        &self,
        sb_offset: usize,
        ndblks: usize,
        nelmts_per_dblk: usize,
        start_index: usize,
    ) -> (r: Result<Vec<ChunkInfo>, Stop>)
        requires
            self.wf(),
            start_index + ndblks * nelmts_per_dblk <= usize::MAX,
        ensures
            collected(
                r,
                super_readable(
                    self.file_data@,
                    sb_offset as int,
                    ndblks,
                    nelmts_per_dblk,
                    self.header,
                    self.offset_size,
                    self.grid(),
                    start_index as int,
                ),
                ea_super_at(
                    self.file_data@,
                    sb_offset as int,
                    ndblks,
                    nelmts_per_dblk,
                    self.header,
                    self.offset_size,
                    self.grid(),
                    start_index as int,
                ),
            ),
    {
        let file_data = self.file_data;
        // EASB: signature(4) + version(1) + client_id(1) + header_address(offset_size)
        let sb_header_size: usize = 6 + self.offset_size as usize;
        if let Err(e) = ensure_len(file_data, sb_offset, sb_header_size) {
            return Err(Stop::Error(e));
        }
        if !tag_at(file_data, sb_offset, 0x45, 0x41, 0x53, 0x42) {
            return Err(
                Stop::Error(FormatError::chunked("invalid Extensible Array super block signature")),
            );
        }
        let dblk_addrs = match read_addresses(
            file_data,
            sb_offset + sb_header_size,
            self.offset_size,
            ndblks,
        ) {
            Ok(addrs) => addrs,
            Err(e) => {
                return Err(Stop::Error(e));
            },
        };
        let mut sizes: Vec<usize> = Vec::with_capacity(dblk_addrs.len());
        let mut k: usize = 0;
        while k < dblk_addrs.len()
            invariant
                k <= dblk_addrs@.len(),
                sizes@ == equal_sizes(k as nat, nelmts_per_dblk),
            decreases dblk_addrs@.len() - k,
        {
            sizes.push(nelmts_per_dblk);
            k += 1;
            assert(sizes@ =~= equal_sizes(k as nat, nelmts_per_dblk));
        }
        proof {
            lemma_equal_sum(dblk_addrs@.len(), nelmts_per_dblk, dblk_addrs@.len() as int);
        }
        let mut chunks: Vec<ChunkInfo> = Vec::new();
        assert(chunks.deep_view() =~= Seq::<ChunkInfoModel>::empty());
        self.read_blocks(&dblk_addrs, &sizes, start_index, &mut chunks)?;
        Ok(chunks)
    }

    /// Appends the allocated chunks of the super blocks.
    fn read_supers(
        &self,
        addrs: &Vec<u64>,
        infos: &Vec<(usize, usize)>,
        start_index: usize,
        chunks: &mut Vec<ChunkInfo>,
    ) -> (r: Result<(), Stop>)
        requires
            self.wf(),
            addrs@.len() <= infos@.len(),
            start_index + supers_total(infos@, infos@.len() as int) <= usize::MAX,
        ensures
            r matches Err(Stop::Unreadable) <==> !supers_readable(
                self.file_data@,
                addrs@,
                infos@,
                0,
                self.header,
                self.offset_size,
                self.grid(),
                start_index as int,
            ),
            ({
                let all = ea_supers(
                    self.file_data@,
                    addrs@,
                    infos@,
                    0,
                    self.header,
                    self.offset_size,
                    self.grid(),
                    start_index as int,
                    old(chunks).deep_view(),
                );
                match r {
                    Ok(()) => all == Ok::<Seq<ChunkInfoModel>, ErrorModel>(
                        final(chunks).deep_view(),
                    ),
                    Err(Stop::Error(e)) => all == Err::<Seq<ChunkInfoModel>, ErrorModel>(
                        e.deep_view(),
                    ),
                    Err(Stop::Unreadable) => true,
                }
            }),
    {
        let ghost goal = ea_supers(
            self.file_data@,
            addrs@,
            infos@,
            0,
            self.header,
            self.offset_size,
            self.grid(),
            start_index as int,
            chunks.deep_view(),
        );
        let ghost readable = supers_readable(
            self.file_data@,
            addrs@,
            infos@,
            0,
            self.header,
            self.offset_size,
            self.grid(),
            start_index as int,
        );
        let mut global_index: usize = start_index;
        let mut i: usize = 0;
        while i < addrs.len()
            invariant
                self.wf(),
                i <= addrs@.len() <= infos@.len(),
                start_index + supers_total(infos@, infos@.len() as int) <= usize::MAX,
                global_index == start_index + supers_total(infos@, i as int),
                goal == ea_supers(
                    self.file_data@,
                    addrs@,
                    infos@,
                    0,
                    self.header,
                    self.offset_size,
                    self.grid(),
                    start_index as int,
                    old(chunks).deep_view(),
                ),
                goal == ea_supers(
                    self.file_data@,
                    addrs@,
                    infos@,
                    i as int,
                    self.header,
                    self.offset_size,
                    self.grid(),
                    global_index as int,
                    chunks.deep_view(),
                ),
                readable == supers_readable(
                    self.file_data@,
                    addrs@,
                    infos@,
                    0,
                    self.header,
                    self.offset_size,
                    self.grid(),
                    start_index as int,
                ),
                readable == supers_readable(
                    self.file_data@,
                    addrs@,
                    infos@,
                    i as int,
                    self.header,
                    self.offset_size,
                    self.grid(),
                    global_index as int,
                ),
            decreases addrs@.len() - i,
        {
            let sb_addr: u64 = addrs[i];
            let (ndblks, nelmts_per_dblk) = infos[i];
            proof {
                lemma_supers_monotonic(infos@, i + 1, infos@.len() as int);
                assert(supers_total(infos@, i + 1) == supers_total(infos@, i as int) + ndblks
                    * nelmts_per_dblk);
                lemma_supers_monotonic(infos@, 0, i as int);
                assert(ndblks * nelmts_per_dblk >= 0) by (nonlinear_arith)
                    requires
                        ndblks >= 0,
                        nelmts_per_dblk >= 0,
                ;
            }
            if !is_undefined_offset(sb_addr, self.offset_size) {
                let sb_chunks = self.read_super_block(
                    sb_addr as usize,
                    ndblks,
                    nelmts_per_dblk,
                    global_index,
                )?;
                extend_chunks(chunks, sb_chunks);
            }
            global_index = global_index + ndblks * nelmts_per_dblk;
            i += 1;
        }
        Ok(())
    }
}

fn extend_chunks(chunks: &mut Vec<ChunkInfo>, more: Vec<ChunkInfo>)
    ensures
        final(chunks).deep_view() == old(chunks).deep_view() + more.deep_view(),
{
    let mut rest = more;
    chunks.append(&mut rest);
    assert(chunks.deep_view() =~= old(chunks).deep_view() + more.deep_view());
}

/// Two to the power of `bits`.
fn nonzero_power(bits: u8) -> (n: u64)
    requires
        bits < 8,
    ensures
        n == pow2(bits as nat),
        n > 0,
{
    proof {
        vstd::arithmetic::power2::lemma_pow2_pos(bits as nat);
    }
    power_of_two(bits)
}

/// Read `count` addresses at `start`.
fn read_addresses(file_data: &[u8], start: usize, offset_size: u8, count: usize) -> (r: Result<
    Vec<u64>,
    FormatError,
>)
    requires
        file_data@.len() <= isize::MAX,
        start <= file_data@.len(),
    ensures
        match r {
            Ok(addrs) => addresses_at(
                file_data@,
                start as int,
                offset_size,
                count as int,
                Seq::empty(),
            ) == Ok::<Seq<u64>, ErrorModel>(addrs@) && addrs@.len() == count,
            Err(e) => addresses_at(
                file_data@,
                start as int,
                offset_size,
                count as int,
                Seq::empty(),
            ) == Err::<Seq<u64>, ErrorModel>(e.deep_view()),
        },
{
    let mut addrs: Vec<u64> = Vec::new();
    let mut pos: usize = start;
    let mut i: usize = 0;
    let ghost goal = addresses_at(
        file_data@,
        start as int,
        offset_size,
        count as int,
        Seq::empty(),
    );
    assert(addrs@ =~= Seq::<u64>::empty());
    while i < count
        invariant
            i <= count,
            addrs@.len() == i,
            file_data@.len() <= isize::MAX,
            pos <= file_data@.len(),
            goal == addresses_at(
                file_data@,
                start as int,
                offset_size,
                count as int,
                Seq::empty(),
            ),
            goal == addresses_at(file_data@, pos as int, offset_size, count - i, addrs@),
        decreases count - i,
    {
        let addr = read_offset(file_data, pos, offset_size)?;
        addrs.push(addr);
        pos = pos + offset_size as usize;
        i += 1;
    }
    Ok(addrs)
}

/// Counts the addresses, at most `count`, that `file_data` holds at `start`.
fn count_addresses(file_data: &[u8], start: usize, offset_size: u8, count: usize) -> (n: usize)
    requires
        file_data@.len() <= isize::MAX,
        start <= file_data@.len(),
    ensures
        n == addresses_in(file_data@, start as int, offset_size, count as int),
        n <= count,
        start + n * offset_size <= file_data@.len(),
{
    let mut pos: usize = start;
    let mut n: usize = 0;
    assert(0 * offset_size == 0);
    while n < count && offset_size as usize <= file_data.len() - pos
        invariant
            n <= count,
            file_data@.len() <= isize::MAX,
            pos <= file_data@.len(),
            pos == start + n * offset_size,
            addresses_in(file_data@, start as int, offset_size, count as int) == n + addresses_in(
                file_data@,
                pos as int,
                offset_size,
                count - n,
            ),
        decreases count - n,
    {
        pos = pos + offset_size as usize;
        assert((n + 1) * offset_size == n * offset_size + offset_size) by (nonlinear_arith);
        n += 1;
    }
    n
}

/// The number of data blocks of super block `k`, and their size.
pub(crate) fn super_info(k: u8, min_dblk: u8) -> (r: (usize, usize))
    requires
        super_fits(k as int, min_dblk as int),
    ensures
        r.0 == super_count(k as int),
        r.1 == super_size(k as int, min_dblk as int),
{
    let half: u8 = k / 2 + k % 2;
    assert(half == (k + 1) / 2);
    let ndblks: u64 = power_of_two(k / 2);
    let factor: u64 = power_of_two(half);
    let size: u64 = if min_dblk == 0 {
        assert(0 * factor == 0);
        0
    } else {
        proof {
            assert(min_dblk * factor >= factor) by (nonlinear_arith)
                requires
                    min_dblk >= 1,
                    factor >= 0,
            ;
        }
        min_dblk as u64 * factor
    };
    (ndblks as usize, size as usize)
}

/// The sizes of the data blocks that the index block lists.
fn list_sizes(levels: u8, min_dblk: u8) -> (sizes: Vec<usize>)
    requires
        direct_fits(0, levels as int, min_dblk as int),
    ensures
        sizes@ == direct_sizes(0, levels as int, min_dblk as int),
{
    let mut sizes: Vec<usize> = Vec::new();
    let mut level: u8 = 0;
    let ghost goal = direct_sizes(0, levels as int, min_dblk as int);
    assert(sizes@ + goal =~= goal);
    while level < levels
        invariant
            level <= levels,
            direct_fits(level as int, levels as int, min_dblk as int),
            sizes@ + direct_sizes(level as int, levels as int, min_dblk as int) =~= goal,
        decreases levels - level,
    {
        let ghost before = sizes@;
        let (ndblks, nelmts) = super_info(level, min_dblk);
        let mut k: usize = 0;
        assert(sizes@ =~= before + equal_sizes(0, nelmts));
        while k < ndblks
            invariant
                k <= ndblks,
                sizes@ == before + equal_sizes(k as nat, nelmts),
            decreases ndblks - k,
        {
            sizes.push(nelmts);
            k += 1;
            assert(sizes@ =~= before + equal_sizes(k as nat, nelmts));
        }
        proof {
            let a = equal_sizes(ndblks as nat, nelmts);
            let b = direct_sizes(level + 1, levels as int, min_dblk as int);
            assert(before + a + b =~= before + (a + b));
        }
        level += 1;
    }
    assert(sizes@ + direct_sizes(level as int, levels as int, min_dblk as int) =~= sizes@);
    sizes
}

/// The super blocks from the `first`-th on that cover `remaining` elements.
fn list_supers(first: u8, min_dblk: u8, remaining: usize) -> (infos: Vec<(usize, usize)>)
    requires
        super_layout_fits(first as int, min_dblk as int, 0, remaining as int),
    ensures
        infos@ == super_layout(first as int, min_dblk as int, 0, remaining as int),
{
    let mut infos: Vec<(usize, usize)> = Vec::new();
    let mut covered: usize = 0;
    let mut level: u8 = first;
    let ghost goal = super_layout(first as int, min_dblk as int, 0, remaining as int);
    assert(infos@ + goal =~= goal);
    while covered < remaining
        invariant
            super_layout_fits(level as int, min_dblk as int, covered as int, remaining as int),
            infos@ + super_layout(
                level as int,
                min_dblk as int,
                covered as int,
                remaining as int,
            ) =~= goal,
        decreases uncovered(covered as int, remaining as int),
    {
        let ghost before = infos@;
        let (ndblks, nelmts) = super_info(level, min_dblk);
        let ghost rest = super_layout(
            level + 1,
            min_dblk as int,
            covered + ndblks * nelmts,
            remaining as int,
        );
        let total_in_sb: usize = ndblks * nelmts;
        infos.push((ndblks, nelmts));
        covered = covered + total_in_sb;
        level = level + 1;
        assert(before.push((ndblks, nelmts)) + rest =~= before + (seq![(ndblks, nelmts)] + rest));
    }
    assert(infos@ + super_layout(
        level as int,
        min_dblk as int,
        covered as int,
        remaining as int,
    ) =~= infos@);
    infos
}

/// The number of data blocks of super block `k`, and their size, where both fit in the machine
/// word.
fn checked_super(k: u8, min_dblk: u8) -> (r: Option<(usize, usize)>)
    ensures
        r is Some <==> super_fits(k as int, min_dblk as int),
        r matches Some((n, size)) ==> n == super_count(k as int) && size == super_size(
            k as int,
            min_dblk as int,
        ),
{
    let half: u8 = k / 2 + k % 2;
    assert(half == (k + 1) / 2);
    if half >= 64 {
        return None;
    }
    let ndblks: u64 = power_of_two(k / 2);
    let factor: u64 = power_of_two(half);
    let size: u64 = match (min_dblk as u64).checked_mul(factor) {
        Some(size) => size,
        None => {
            return None;
        },
    };
    if ndblks > usize::MAX as u64 || size > usize::MAX as u64 {
        return None;
    }
    Some((ndblks as usize, size as usize))
}

proof fn lemma_sum_split(a: Seq<usize>, b: Seq<usize>, k: int)
    requires
        0 <= k <= b.len(),
    ensures
        sum_to(a + b, a.len() + k) == sum_to(a, a.len() as int) + sum_to(b, k),
    decreases k,
{
    if k > 0 {
        lemma_sum_split(a, b, k - 1);
        assert((a + b)[a.len() + k - 1] == b[k - 1]);
    } else {
        lemma_same_sum(a + b, a, a.len() as int);
    }
}

proof fn lemma_same_sum(a: Seq<usize>, b: Seq<usize>, k: int)
    requires
        0 <= k <= a.len(),
        k <= b.len(),
        forall|i: int| 0 <= i < k ==> #[trigger] a[i] == b[i],
    ensures
        sum_to(a, k) == sum_to(b, k),
    decreases k,
{
    if k > 0 {
        lemma_same_sum(a, b, k - 1);
        assert(a[k - 1] == b[k - 1]);
    }
}

proof fn lemma_supers_split(first: (usize, usize), rest: Seq<(usize, usize)>, k: int)
    requires
        0 <= k <= rest.len(),
    ensures
        supers_total(seq![first] + rest, k + 1) == first.0 * first.1 + supers_total(rest, k),
    decreases k,
{
    if k > 0 {
        lemma_supers_split(first, rest, k - 1);
        assert((seq![first] + rest)[k] == rest[k - 1]);
    } else {
        reveal_with_fuel(supers_total, 2);
        assert((seq![first] + rest)[0] == first);
    }
}

/// The number of elements in the data blocks that the index block lists, where these can be
/// counted.
fn checked_direct(levels: u8, min_dblk: u8) -> (r: Option<usize>)
    ensures
        ({
            let sizes = direct_sizes(0, levels as int, min_dblk as int);
            let sum = sum_to(sizes, sizes.len() as int);
            &&& r is Some <==> direct_fits(0, levels as int, min_dblk as int) && sum <= usize::MAX
            &&& r matches Some(n) ==> n == sum
        }),
{
    let mut n: usize = 0;
    let mut level: u8 = 0;
    let ghost sizes = direct_sizes(0, levels as int, min_dblk as int);
    let ghost sum = sum_to(sizes, sizes.len() as int);
    while level < levels
        invariant
            level <= levels,
            sizes == direct_sizes(0, levels as int, min_dblk as int),
            sum == sum_to(sizes, sizes.len() as int),
            direct_fits(0, levels as int, min_dblk as int) == direct_fits(
                level as int,
                levels as int,
                min_dblk as int,
            ),
            ({
                let rest = direct_sizes(level as int, levels as int, min_dblk as int);
                sum == n + sum_to(rest, rest.len() as int)
            }),
        decreases levels - level,
    {
        let ghost rest = direct_sizes(level + 1, levels as int, min_dblk as int);
        match checked_super(level, min_dblk) {
            None => {
                return None;
            },
            Some((ndblks, nelmts)) => {
                proof {
                    let a = equal_sizes(ndblks as nat, nelmts);
                    lemma_equal_sum(ndblks as nat, nelmts, ndblks as int);
                    lemma_sum_split(a, rest, rest.len() as int);
                }
                match ndblks.checked_mul(nelmts) {
                    None => {
                        return None;
                    },
                    Some(part) => match n.checked_add(part) {
                        None => {
                            return None;
                        },
                        Some(m) => {
                            n = m;
                        },
                    },
                }
            },
        }
        level += 1;
    }
    Some(n)
}

/// The number of elements in the super blocks from the `first`-th on that cover `remaining`
/// elements, where these can be counted.
fn checked_supers(first: u8, min_dblk: u8, remaining: usize) -> (r: Option<usize>)
    ensures
        r is Some <==> super_layout_fits(first as int, min_dblk as int, 0, remaining as int),
        r matches Some(n) ==> ({
            let infos = super_layout(first as int, min_dblk as int, 0, remaining as int);
            n == supers_total(infos, infos.len() as int)
        }),
{
    let mut covered: usize = 0;
    let mut level: u8 = first;
    let ghost infos = super_layout(first as int, min_dblk as int, 0, remaining as int);
    let ghost sum = supers_total(infos, infos.len() as int);
    while covered < remaining
        invariant
            super_layout_fits(first as int, min_dblk as int, 0, remaining as int)
                == super_layout_fits(
                level as int,
                min_dblk as int,
                covered as int,
                remaining as int,
            ),
            ({
                let rest = super_layout(
                    level as int,
                    min_dblk as int,
                    covered as int,
                    remaining as int,
                );
                sum == covered + supers_total(rest, rest.len() as int)
            }),
        decreases uncovered(covered as int, remaining as int),
    {
        match checked_super(level, min_dblk) {
            None => {
                return None;
            },
            Some((ndblks, nelmts)) => match ndblks.checked_mul(nelmts) {
                None => {
                    return None;
                },
                Some(part) => match covered.checked_add(part) {
                    None => {
                        return None;
                    },
                    Some(next) => {
                        if part == 0 {
                            return None;
                        }
                        proof {
                            let rest = super_layout(
                                level + 1,
                                min_dblk as int,
                                next as int,
                                remaining as int,
                            );
                            lemma_supers_split((ndblks, nelmts), rest, rest.len() as int);
                        }
                        covered = next;
                    },
                },
            },
        }
        level += 1;
    }
    Some(covered)
}

impl<'a> ArrayReader<'a> {
    /// Appends the allocated chunks of the super blocks, whose addresses stand at `sb_pos`, behind
    /// those of `direct` data blocks.
    fn read_supers_behind(
        &self,
        sb_pos: usize,
        Ghost(direct): Ghost<int>,
        listed: usize,
        start_index: usize,
        chunks: &mut Vec<ChunkInfo>,
    ) -> (r: Result<(), Stop>)
        requires
            self.wf(),
            sb_pos <= self.file_data@.len(),
            sb_pos == direct_position(self.header, self.offset_size) + direct * self.offset_size,
            listed == listed_total(self.header),
            listed < self.header.num_elements as usize,
            start_index == self.header.idx_blk_elmts + sum_to(listed_sizes(self.header), direct),
            start_index <= listed,
        ensures
            r matches Err(Stop::Unreadable) <==> !supers_behind_readable(
                self.file_data@,
                self.header,
                self.offset_size,
                self.grid(),
                direct,
            ),
            ({
                let all = super_chunks(
                    self.file_data@,
                    self.header,
                    self.offset_size,
                    self.grid(),
                    direct,
                    old(chunks).deep_view(),
                );
                match r {
                    Ok(()) => all == Ok::<Seq<ChunkInfoModel>, ErrorModel>(
                        final(chunks).deep_view(),
                    ),
                    Err(Stop::Error(e)) => all == Err::<Seq<ChunkInfoModel>, ErrorModel>(
                        e.deep_view(),
                    ),
                    Err(Stop::Unreadable) => true,
                }
            }),
    {
        let remaining: usize = self.header.num_elements as usize - listed;
        let first: u8 = self.header.super_blk_min_nelmts;
        let min_dblk: u8 = self.header.min_dblk_nelmts;
        match checked_supers(first, min_dblk, remaining) {
            None => {
                return Err(Stop::Unreadable);
            },
            Some(n) => {
                if n.checked_add(listed).is_none() {
                    return Err(Stop::Unreadable);
                }
            },
        }
        let sb_infos = list_supers(first, min_dblk, remaining);
        // Read super block addresses from index block
        let n_supers: usize = count_addresses(
            self.file_data,
            sb_pos,
            self.offset_size,
            sb_infos.len(),
        );
        let sb_addrs = match read_addresses(self.file_data, sb_pos, self.offset_size, n_supers) {
            Ok(addrs) => addrs,
            Err(e) => {
                return Err(Stop::Error(e));
            },
        };
        self.read_supers(&sb_addrs, &sb_infos, start_index, chunks)
    }

    /// Appends the allocated chunks of the data blocks, whose addresses stand at `pos`, and of the
    /// super blocks.
    fn read_direct(&self, pos: usize, chunks: &mut Vec<ChunkInfo>) -> (r: Result<(), Stop>)
        requires
            self.wf(),
            pos <= self.file_data@.len(),
            pos == direct_position(self.header, self.offset_size),
        ensures
            r matches Err(Stop::Unreadable) <==> !direct_readable(
                self.file_data@,
                self.header,
                self.offset_size,
                self.grid(),
                old(chunks).deep_view(),
            ),
            ({
                let all = direct_chunks(
                    self.file_data@,
                    self.header,
                    self.offset_size,
                    self.grid(),
                    old(chunks).deep_view(),
                );
                match r {
                    Ok(()) => all == Ok::<Seq<ChunkInfoModel>, ErrorModel>(
                        final(chunks).deep_view(),
                    ),
                    Err(Stop::Error(e)) => all == Err::<Seq<ChunkInfoModel>, ErrorModel>(
                        e.deep_view(),
                    ),
                    Err(Stop::Unreadable) => true,
                }
            }),
    {
        let os: usize = self.offset_size as usize;
        let n_inline: usize = self.header.idx_blk_elmts as usize;
        let levels: u8 = self.header.super_blk_min_nelmts;
        let min_dblk: u8 = self.header.min_dblk_nelmts;
        // The number of elements in the index block and in the data blocks that it lists
        let listed: usize = match checked_direct(levels, min_dblk) {
            None => {
                return Err(Stop::Unreadable);
            },
            Some(n) => match n.checked_add(n_inline) {
                None => {
                    return Err(Stop::Unreadable);
                },
                Some(n) => n,
            },
        };
        // The first sblk_min super block levels have their data blocks listed directly
        // in the index block. Compute their sizes.
        let dblk_sizes = list_sizes(levels, min_dblk);
        // Read direct data block addresses from index block
        let n_addrs: usize = count_addresses(
            self.file_data,
            pos,
            self.offset_size,
            dblk_sizes.len(),
        );
        let dblk_addrs = match read_addresses(self.file_data, pos, self.offset_size, n_addrs) {
            Ok(addrs) => addrs,
            Err(e) => {
                return Err(Stop::Error(e));
            },
        };
        // Read elements from direct data blocks
        proof {
            lemma_sum_to_monotonic(dblk_sizes@, n_addrs as int, dblk_sizes@.len() as int);
        }
        let global_index: usize = self.read_blocks(&dblk_addrs, &dblk_sizes, n_inline, chunks)?;
        // Remaining elements are in super blocks
        if self.header.num_elements as usize <= listed {
            return Ok(());
        }
        self.read_supers_behind(
            pos + n_addrs * os,
            Ghost(n_addrs as int),
            listed,
            global_index,
            chunks,
        )
    }
}

/// Collect the allocated chunks of an Extensible Array.
fn collect_chunks(
    file_data: &[u8],
    header: &ExtensibleArrayHeader,
    dataset_dims: &[u64],
    chunk_dimensions: &[u32],
    element_size: u32,
    offset_size: u8,
) -> (r: Result<Vec<ChunkInfo>, Stop>)
    ensures
        collected(
            r,
            extensible_array_readable(
                file_data@,
                *header,
                dataset_dims@,
                chunk_dimensions@,
                element_size,
                offset_size,
            ),
            extensible_chunks(
                file_data@,
                *header,
                dataset_dims@,
                chunk_dimensions@,
                element_size,
                offset_size,
            ),
        ),
{
    byte_len(file_data);
    if !can_chunk(dataset_dims, chunk_dimensions, element_size) {
        return Err(Stop::Unreadable);
    }
    let ghost g = crate::fixed_array::grid_of(dataset_dims@, chunk_dimensions@, element_size);
    let chunk = widen(chunk_dimensions, chunk_dimensions.len());
    proof {
        assert forall|i: int| 0 <= i < chunk@.len() implies #[trigger] chunk@[i] > 0 by {
            assert(chunk_dimensions@[i] > 0);
        }
    }
    let counts = chunk_counts(dataset_dims, &chunk);
    let chunk_byte_size: u64 = dims_product(&chunk) * (element_size as u64);
    // Parse index block (EAIB): sig + ver + client + hdr_addr
    let ib_offset: usize = header.index_block_address as usize;
    let ib_header_size: usize = 6 + offset_size as usize;
    if let Err(e) = ensure_len(file_data, ib_offset, ib_header_size) {
        return Err(Stop::Error(e));
    }
    if !tag_at(file_data, ib_offset, 0x45, 0x41, 0x49, 0x42) {
        return Err(
            Stop::Error(FormatError::chunked("invalid Extensible Array index block signature")),
        );
    }
    let has_elements = all_positive(dataset_dims, chunk_dimensions.len());
    proof {
        lemma_grid_has_elements(dataset_dims@, chunk@);
    }
    let reader = ArrayReader {
        file_data,
        header: *header,
        offset_size,
        chunk_byte_size,
        num_chunks_per_dim: counts.as_slice(),
        chunk_dimensions,
        has_elements,
    };
    assert(reader.grid() == g);
    // 1. Read inline elements in index block
    let mut chunks: Vec<ChunkInfo> = Vec::new();
    assert(chunks.deep_view() =~= Seq::<ChunkInfoModel>::empty());
    let total_elements: usize = header.num_elements as usize;
    let n_inline: usize = header.idx_blk_elmts as usize;
    let n_read: usize = if n_inline <= total_elements {
        n_inline
    } else {
        total_elements
    };
    let pos: usize = reader.read_elements(ib_offset + ib_header_size, 0, n_read, &mut chunks)?;
    // If all elements were inline, we're done
    if n_read >= total_elements {
        return Ok(chunks);
    }
    proof {
        lemma_elements_room(
            file_data@,
            ib_offset + ib_header_size,
            *header,
            offset_size,
            g,
            0,
            n_read as int,
            Seq::empty(),
        );
    }
    // 2. Read the data blocks and the super blocks
    reader.read_direct(pos, &mut chunks)?;
    Ok(chunks)
}

/// Whether an Extensible Array can be read.
pub fn can_read_extensible_array(
    file_data: &[u8],
    header: &ExtensibleArrayHeader,
    dataset_dims: &[u64],
    chunk_dimensions: &[u32],
    element_size: u32,
    offset_size: u8,
) -> (r: bool)
    ensures
        r == extensible_array_readable(
            file_data@,
            *header,
            dataset_dims@,
            chunk_dimensions@,
            element_size,
            offset_size,
        ),
{
    match collect_chunks(
        file_data,
        header,
        dataset_dims,
        chunk_dimensions,
        element_size,
        offset_size,
    ) {
        Err(Stop::Unreadable) => false,
        _ => true,
    }
}

/// Read chunk records from an Extensible Array.
///
/// Traverses EAHD -> EAIB -> EADB/EASB to collect all allocated chunks.
pub fn read_extensible_array_chunks(
    file_data: &[u8],
    header: &ExtensibleArrayHeader,
    dataset_dims: &[u64],
    chunk_dimensions: &[u32],
    element_size: u32,
    offset_size: u8,
    _length_size: u8,
) -> (r: Result<Vec<ChunkInfo>, FormatError>)
    requires
        extensible_array_readable(
            file_data@,
            *header,
            dataset_dims@,
            chunk_dimensions@,
            element_size,
            offset_size,
        ),
    ensures
        crate::error::outcome(r) == extensible_chunks(
            file_data@,
            *header,
            dataset_dims@,
            chunk_dimensions@,
            element_size,
            offset_size,
        ),
{
    match collect_chunks(
        file_data,
        header,
        dataset_dims,
        chunk_dimensions,
        element_size,
        offset_size,
    ) {
        Ok(chunks) => Ok(chunks),
        Err(Stop::Error(e)) => Err(e),
        Err(Stop::Unreadable) => unreached(),
    }
}

// ---- Facts about counts and positions ----

/// Every axis has a chunk just where the data set has elements along every axis.
proof fn lemma_grid_has_elements(dims: Seq<u64>, chunk: Seq<u64>)
    requires
        chunk.len() <= dims.len(),
        forall|i: int| 0 <= i < chunk.len() ==> #[trigger] chunk[i] > 0,
    ensures
        crate::grid::is_grid(crate::grid::counts_of(dims, chunk), chunk)
            == crate::fixed_array::has_elements(dims, chunk.len() as int),
{
    let counts = crate::grid::counts_of(dims, chunk);
    if crate::fixed_array::has_elements(dims, chunk.len() as int) {
        crate::grid::lemma_counts_are_grid(dims, chunk);
    } else {
        let i = choose|i: int| 0 <= i < chunk.len() && !(#[trigger] dims[i] > 0);
        let c = chunk[i] as int;
        assert(chunk[i] > 0);
        vstd::arithmetic::div_mod::lemma_div_basics(c);
        vstd::arithmetic::div_mod::lemma_small_mod(0, c as nat);
        assert(counts[i] == 0);
    }
}

proof fn lemma_sum_to_monotonic(sizes: Seq<usize>, a: int, b: int)
    requires
        0 <= a <= b <= sizes.len(),
    ensures
        sum_to(sizes, a) <= sum_to(sizes, b),
    decreases b - a,
{
    if a < b {
        lemma_sum_to_monotonic(sizes, a, b - 1);
    }
}

pub(crate) proof fn lemma_equal_sum(n: nat, size: usize, k: int)
    requires
        0 <= k <= n,
    ensures
        sum_to(equal_sizes(n, size), k) == k * size,
    decreases k,
{
    if k > 0 {
        lemma_equal_sum(n, size, k - 1);
        assert(k * size == (k - 1) * size + size) by (nonlinear_arith);
    } else {
        assert(0 * size == 0);
    }
}

proof fn lemma_supers_monotonic(infos: Seq<(usize, usize)>, a: int, b: int)
    requires
        0 <= a <= b <= infos.len(),
    ensures
        supers_total(infos, a) <= supers_total(infos, b),
    decreases b - a,
{
    if a < b {
        lemma_supers_monotonic(infos, a, b - 1);
        let (x, y) = infos[b - 1];
        assert(x * y >= 0) by (nonlinear_arith)
            requires
                x >= 0,
                y >= 0,
        ;
    }
}

proof fn lemma_pow2_usize(bits: u8)
    requires
        bits < usize::BITS,
    ensures
        0 < pow2(bits as nat) <= usize::MAX,
{
    vstd::arithmetic::power2::lemma_pow2_pos(bits as nat);
    vstd::layout::unsigned_int_max_values();
    vstd::arithmetic::power2::lemma2_to64();
    vstd::arithmetic::power2::lemma2_to64_rest();
    if usize::BITS == 32 {
        if bits < 31 {
            vstd::arithmetic::power2::lemma_pow2_strictly_increases(bits as nat, 31);
        }
    } else {
        if bits < 63 {
            vstd::arithmetic::power2::lemma_pow2_strictly_increases(bits as nat, 63);
        }
    }
}

/// The elements of a page fit in the elements that are left, and a page that is not the last is
/// full.
proof fn lemma_page_room(page: int, npages: int, nelmts: int, page_size: int)
    requires
        0 <= page < npages,
        page_size > 0,
        nelmts > 0,
        npages == crate::grid::ceil_div(nelmts, page_size),
    ensures
        page * page_size + page_count(page, npages, nelmts, page_size) <= nelmts,
        page < npages - 1 ==> page * page_size + page_count(page, npages, nelmts, page_size) == (
        page + 1) * page_size,
{
    let q = nelmts / page_size;
    let r = nelmts % page_size;
    vstd::arithmetic::div_mod::lemma_fundamental_div_mod(nelmts, page_size);
    assert((page + 1) * page_size == page * page_size + page_size) by (nonlinear_arith);
    if page == npages - 1 && r != 0 {
        assert(page * page_size == page_size * q) by (nonlinear_arith)
            requires
                page == q,
        ;
    } else {
        assert((page + 1) * page_size <= q * page_size) by (nonlinear_arith)
            requires
                page + 1 <= q,
                page_size > 0,
        ;
        assert(q * page_size == page_size * q) by (nonlinear_arith);
    }
}

/// Elements that were read lie within the data.
proof fn lemma_elements_room(
    d: Seq<u8>,
    p: int,
    h: ExtensibleArrayHeader,
    os: u8,
    g: crate::fixed_array::ChunkGrid,
    index: int,
    count: int,
    done: Seq<ChunkInfoModel>,
)
    requires
        count >= 0,
        0 <= p <= d.len(),
        ea_elements_at(d, p, h, os, g, index, count, done) is Ok,
    ensures
        p + count * ea_width(h.client_id, h.element_size, os) <= d.len(),
    decreases count,
{
    let w = ea_width(h.client_id, h.element_size, os);
    if count > 0 {
        assert(count * w == w + (count - 1) * w) by (nonlinear_arith);
        match ea_element_at(d, p, h.client_id, h.element_size, os, g, index) {
            Err(e) => {},
            Ok(None) => {
                lemma_elements_room(d, p + w, h, os, g, index + 1, count - 1, done);
            },
            Ok(Some(info)) => {
                lemma_elements_room(d, p + w, h, os, g, index + 1, count - 1, done.push(info));
            },
        }
    } else {
        assert(0 * w == 0);
    }
}

} // verus!
