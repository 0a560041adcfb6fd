//! HDF5 Fixed Array index parsing for chunked datasets (v4 index type 3).

use vstd::prelude::*;
use vstd::slice::slice_subrange;
use crate::bytes::{byte_len, order_u32, tag_at};
use crate::chunk_cache::{ChunkInfo, ChunkInfoModel};
use crate::dataspace::{checked_product, dims_product};
use crate::error::{ErrorModel, FormatError};
use crate::grid::{chunk_counts, grid_offsets, widen};
use crate::utils::{ensure_len, is_undefined_bytes, read_offset, read_variable_length};

verus! {

broadcast use vstd::std_specs::control_flow::group_control_flow_axioms;

/// Parsed Fixed Array header (FAHD).
#[derive(Debug, Clone, Copy)]
pub struct FixedArrayHeader {
    /// Client ID: 0 = non-filtered chunks, 1 = filtered chunks.
    pub client_id: u8,
    /// Size of each array element in bytes.
    pub element_size: u8,
    /// Log2 of max number of elements in a data block page.
    pub max_nelmts_bits: u8,
    /// Total number of elements (chunks) in the array.
    pub num_elements: u64,
    /// Address of the data block.
    pub data_block_address: u64,
}

impl DeepView for FixedArrayHeader {
    type V = FixedArrayHeader;

    open spec fn deep_view(&self) -> FixedArrayHeader {
        *self
    }
}

/// The tag of a Fixed Array header.
pub open spec fn fahd() -> Seq<u8> {
    seq![0x46, 0x41, 0x48, 0x44]
}

/// The tag of a Fixed Array data block.
pub open spec fn fadb() -> Seq<u8> {
    seq![0x46, 0x41, 0x44, 0x42]
}

/// The Fixed Array header at `offset`.
pub open spec fn fixed_array_at(d: Seq<u8>, offset: int, os: u8, ls: u8) -> Result<
    FixedArrayHeader,
    ErrorModel,
> {
    if !crate::utils::fits(d, offset, 12 + ls + os) {
        Err(crate::utils::eof(d, offset, 12 + ls + os))
    } else if !crate::bytes::has_tag(d, offset, fahd()) {
        Err(ErrorModel::ChunkedReadError("invalid Fixed Array header signature"@))
    } else if d[offset + 4] != 0 {
        Err(
            ErrorModel::ChunkedReadError(
                "unsupported Fixed Array header version: "@ + crate::text::decimal(
                    d[offset + 4] as nat,
                ),
            ),
        )
    } else {
        match crate::utils::offset_at(d, offset + 8, ls) {
            Err(e) => Err(e),
            Ok(num_elements) => match crate::utils::offset_at(d, offset + 8 + ls, os) {
                Err(e) => Err(e),
                Ok(data_block_address) => Ok(
                    FixedArrayHeader {
                        client_id: d[offset + 5],
                        element_size: d[offset + 6],
                        max_nelmts_bits: d[offset + 7],
                        num_elements,
                        data_block_address,
                    },
                ),
            },
        }
    }
}

/// The chunks that an index describes: their number along each axis, their extents, and the size
/// in bytes of a chunk that is not filtered.
pub struct ChunkGrid {
    pub counts: Seq<u64>,
    pub chunk: Seq<u64>,
    pub bytes: int,
}

/// The chunks of the given extents, with elements of `size` bytes, of a data set.
pub open spec fn grid_of(dims: Seq<u64>, chunk: Seq<u32>, size: u32) -> ChunkGrid {
    let wide = crate::grid::widened(chunk, chunk.len() as int);
    ChunkGrid {
        counts: crate::grid::counts_of(dims, wide),
        chunk: wide,
        bytes: crate::dataspace::product(wide, wide.len() as int) * size,
    }
}

/// Whether the chunks of the given extents can be counted: each extent is positive, the data set
/// has as many axes, and the size of a chunk fits in 64 bits.
pub open spec fn is_chunkable(dims: Seq<u64>, chunk: Seq<u32>, size: u32) -> bool {
    let wide = crate::grid::widened(chunk, chunk.len() as int);
    &&& chunk.len() <= dims.len()
    &&& forall|i: int| 0 <= i < chunk.len() ==> #[trigger] chunk[i] > 0
    &&& crate::dataspace::is_countable(wide)
    &&& crate::dataspace::product(wide, wide.len() as int) * size <= u64::MAX
}

/// Whether the data set has elements along the first `rank` axes.
pub open spec fn has_elements(dims: Seq<u64>, rank: int) -> bool {
    forall|i: int| 0 <= i < rank ==> #[trigger] dims[i] > 0
}

/// The chunk with the given index.
pub open spec fn chunk_at(g: ChunkGrid, index: int, chunk_size: u32, mask: u32, address: u64) -> ChunkInfoModel {
    ChunkInfoModel {
        chunk_size,
        filter_mask: mask,
        offsets: crate::grid::offsets_of(index, g.counts, g.chunk),
        address,
    }
}

/// The size of an array element.
pub open spec fn element_width(h: FixedArrayHeader, os: u8) -> int {
    if h.client_id == 0 {
        os as int
    } else {
        h.element_size as int
    }
}

/// The element at `p`, for the chunk with the given index; none if the chunk is not allocated.
pub open spec fn fixed_element_at(
    d: Seq<u8>,
    p: int,
    h: FixedArrayHeader,
    os: u8,
    g: ChunkGrid,
    index: int,
) -> Result<Option<ChunkInfoModel>, ErrorModel> {
    let rest = d.subrange(p, d.len() as int);
    let width = element_width(h, os);
    if !crate::utils::fits(rest, 0, width) {
        Err(crate::utils::eof(rest, 0, width))
    } else if !crate::utils::is_width(os) {
        Err(ErrorModel::Plain(FormatError::InvalidOffsetSize(os)))
    } else if crate::utils::undefined_bytes(d, p, os) {
        Ok(None)
    } else {
        let address = crate::utils::uint_at(d, p, os);
        if h.client_id == 0 {
            Ok(Some(chunk_at(g, index, g.bytes as u64 as u32, 0, address)))
        } else {
            let size = crate::bytes::le_value(d.subrange(p + os, p + width - 4)) as u64 as u32;
            Ok(
                Some(
                    chunk_at(g, index, size, crate::bytes::u32_at(d, p + width - 4), address),
                ),
            )
        }
    }
}

/// `done` and the allocated chunks of the elements from `p` on, from `index` to `n`.
pub open spec fn fixed_elements_at(
    d: Seq<u8>,
    p: int,
    h: FixedArrayHeader,
    os: u8,
    g: ChunkGrid,
    index: int,
    n: int,
    done: Seq<ChunkInfoModel>,
) -> Result<Seq<ChunkInfoModel>, ErrorModel>
    decreases n - index,
{
    if index >= n {
        Ok(done)
    } else {
        match fixed_element_at(d, p, h, os, g, index) {
            Err(e) => Err(e),
            Ok(None) => fixed_elements_at(
                d,
                p + element_width(h, os),
                h,
                os,
                g,
                index + 1,
                n,
                done,
            ),
            Ok(Some(info)) => fixed_elements_at(
                d,
                p + element_width(h, os),
                h,
                os,
                g,
                index + 1,
                n,
                done.push(info),
            ),
        }
    }
}

/// The number of elements that fit in one page.
pub open spec fn page_size(bits: u8) -> nat {
    vstd::arithmetic::power2::pow2(bits as nat)
}

/// Whether there is a Fixed Array data block where the header says.
pub open spec fn has_data_block(d: Seq<u8>, h: FixedArrayHeader, os: u8) -> bool {
    let db = (h.data_block_address as usize) as int;
    &&& crate::utils::fits(d, db, 6 + os)
    &&& crate::bytes::has_tag(d, db, fadb())
}

/// The allocated chunks of a Fixed Array.
pub open spec fn fixed_chunks(
    d: Seq<u8>,
    h: FixedArrayHeader,
    dims: Seq<u64>,
    chunk: Seq<u32>,
    size: u32,
    os: u8,
) -> Result<Seq<ChunkInfoModel>, ErrorModel> {
    let db = (h.data_block_address as usize) as int;
    if !crate::utils::fits(d, db, 6 + os) {
        Err(crate::utils::eof(d, db, 6 + os))
    } else if !crate::bytes::has_tag(d, db, fadb()) {
        Err(ErrorModel::ChunkedReadError("invalid Fixed Array data block signature"@))
    } else if h.num_elements > page_size(h.max_nelmts_bits) {
        Err(ErrorModel::ChunkedReadError("paged Fixed Array data blocks not yet supported"@))
    } else {
        fixed_elements_at(
            d,
            db + 6 + os,
            h,
            os,
            grid_of(dims, chunk, size),
            0,
            (h.num_elements as usize) as int,
            Seq::empty(),
        )
    }
}

/// Whether the elements of a Fixed Array can be read: the page size fits in 64 bits; where the
/// elements are not paged, the chunks can be counted, a filtered element has room for an address and
/// a mask, and no chunk is allocated in a data set without elements, or with a size of more than 64
/// bits.
pub open spec fn fixed_array_readable(
    d: Seq<u8>,
    h: FixedArrayHeader,
    dims: Seq<u64>,
    chunk: Seq<u32>,
    size: u32,
    os: u8,
) -> bool {
    has_data_block(d, h, os) ==> {
        &&& h.max_nelmts_bits < 64
        &&& h.num_elements <= page_size(h.max_nelmts_bits) ==> {
            let n = (h.num_elements as usize) as int;
            &&& is_chunkable(dims, chunk, size)
            &&& h.client_id != 0 && n > 0 ==> os + 4 <= h.element_size
            &&& (has_elements(dims, chunk.len() as int) && (h.client_id != 0 ==> h.element_size
                <= os + 12)) || forall|i: int|
                0 <= i < n ==> !is_allocated(
                    d,
                    (h.data_block_address as usize) + 6 + os + #[trigger] (i * element_width(h, os)),
                    element_width(h, os),
                    os,
                )
        }
    }
}

/// Whether the element of `width` bytes at `p` has an address.
pub open spec fn is_allocated(d: Seq<u8>, p: int, width: int, os: u8) -> bool {
    &&& crate::utils::fits(d, p, width)
    &&& crate::utils::is_width(os)
    &&& !crate::utils::undefined_bytes(d, p, os)
}

impl FixedArrayHeader {
    /// Parse a Fixed Array header from file data at the given offset.
    pub fn parse(file_data: &[u8], offset: usize, offset_size: u8, length_size: u8) -> (r: Result<
        Self,
        FormatError,
    >)
        ensures
            crate::error::outcome(r) == fixed_array_at(
                file_data@,
                offset as int,
                offset_size,
                length_size,
            ),
    {
        let _len: usize = byte_len(file_data);
        let ls: usize = length_size as usize;
        let os: usize = offset_size as usize;
        // FAHD signature(4) + version(1) + client_id(1) + element_size(1) +
        // max_nelmts_bits(1) + num_elements(length_size) + data_block_addr(offset_size) +
        // checksum(4)
        ensure_len(file_data, offset, 12 + ls + os)?;
        if !tag_at(file_data, offset, 0x46, 0x41, 0x48, 0x44) {
            return Err(FormatError::chunked("invalid Fixed Array header signature"));
        }
        let version = file_data[offset + 4];
        if version != 0 {
            return Err(
                FormatError::chunked_number(
                    "unsupported Fixed Array header version: ",
                    version as u64,
                ),
            );
        }
        let client_id = file_data[offset + 5];
        let element_size = file_data[offset + 6];
        let max_nelmts_bits = file_data[offset + 7];
        let num_elements = read_offset(file_data, offset + 8, length_size)?;
        let data_block_address = read_offset(file_data, offset + 8 + ls, offset_size)?;
        Ok(
            FixedArrayHeader {
                client_id,
                element_size,
                max_nelmts_bits,
                num_elements,
                data_block_address,
            },
        )
    }
}

/// Two to the power of `bits`.
pub(crate) fn power_of_two(bits: u8) -> (n: u64)
    requires
        bits < 64,
    ensures
        n == vstd::arithmetic::power2::pow2(bits as nat),
{
    let mut n: u64 = 1;
    let mut k: u8 = 0;
    proof {
        vstd::arithmetic::power2::lemma2_to64();
        vstd::arithmetic::power2::lemma2_to64_rest();
    }
    while k < bits
        invariant
            k <= bits < 64,
            n == vstd::arithmetic::power2::pow2(k as nat),
        decreases bits - k,
    {
        proof {
            vstd::arithmetic::power2::lemma_pow2_unfold((k + 1) as nat);
            vstd::arithmetic::power2::lemma2_to64();
            vstd::arithmetic::power2::lemma2_to64_rest();
            if k + 1 < 63 {
                vstd::arithmetic::power2::lemma_pow2_strictly_increases((k + 1) as nat, 63);
            }
        }
        n = 2 * n;
        k += 1;
    }
    n
}

/// Whether the chunks of the given extents can be counted.
pub fn can_chunk(dims: &[u64], chunk: &[u32], size: u32) -> (r: bool)
    ensures
        r == is_chunkable(dims@, chunk@, size),
{
    if chunk.len() > dims.len() {
        return false;
    }
    let mut k: usize = 0;
    while k < chunk.len()
        invariant
            k <= chunk@.len(),
            forall|i: int| 0 <= i < k ==> #[trigger] chunk@[i] > 0,
        decreases chunk@.len() - k,
    {
        if chunk[k] == 0 {
            return false;
        }
        k += 1;
    }
    let wide = widen(chunk, chunk.len());
    match checked_product(wide.as_slice()) {
        Some(n) => n.checked_mul(size as u64).is_some(),
        None => false,
    }
}

/// Whether all of the first `rank` extents are positive.
pub(crate) fn all_positive(dims: &[u64], rank: usize) -> (r: bool)
    requires
        rank <= dims@.len(),
    ensures
        r == has_elements(dims@, rank as int),
{
    let mut k: usize = 0;
    while k < rank
        invariant
            k <= rank <= dims@.len(),
            forall|i: int| 0 <= i < k ==> #[trigger] dims@[i] > 0,
        decreases rank - k,
    {
        if dims[k] == 0 {
            return false;
        }
        k += 1;
    }
    true
}

/// Whether none of the first `n` elements of `width` bytes from `start` on is allocated.
fn none_allocated(file_data: &[u8], start: usize, n: usize, width: usize, offset_size: u8) -> (r:
    bool)
    requires
        offset_size <= width,
        start <= file_data@.len(),
    ensures
        r == forall|i: int|
            0 <= i < n ==> !is_allocated(
                file_data@,
                start + #[trigger] (i * width),
                width as int,
                offset_size,
            ),
{
    let len: usize = byte_len(file_data);
    if !(offset_size == 1 || offset_size == 2 || offset_size == 4 || offset_size == 8) {
        return true;
    }
    let mut pos: usize = start;
    let mut k: usize = 0;
    assert(0 * width == 0);
    while k < n && width <= len - pos
        invariant
            len == file_data@.len(),
            len <= isize::MAX,
            k <= n,
            crate::utils::is_width(offset_size),
            offset_size <= width,
            pos <= len,
            pos == start + k * width,
            forall|i: int|
                0 <= i < k ==> !is_allocated(
                    file_data@,
                    start + #[trigger] (i * width),
                    width as int,
                    offset_size,
                ),
        decreases n - k,
    {
        if !is_undefined_bytes(file_data, pos, offset_size) {
            assert(is_allocated(file_data@, start + (k * width), width as int, offset_size));
            return false;
        }
        assert((k + 1) * width == k * width + width) by (nonlinear_arith);
        pos = pos + width;
        k += 1;
    }
    assert forall|i: int| 0 <= i < n implies !is_allocated(
        file_data@,
        start + #[trigger] (i * width),
        width as int,
        offset_size,
    ) by {
        if i >= k {
            assert(i * width >= k * width) by (nonlinear_arith)
                requires
                    i >= k,
                    width >= 0,
            ;
        }
    }
    true
}

/// Whether the elements of a Fixed Array can be read.
pub fn can_read_fixed_array(
    file_data: &[u8],
    header: &FixedArrayHeader,
    dataset_dims: &[u64],
    chunk_dimensions: &[u32],
    element_size: u32,
    offset_size: u8,
) -> (r: bool)
    ensures
        r == fixed_array_readable(
            file_data@,
            *header,
            dataset_dims@,
            chunk_dimensions@,
            element_size,
            offset_size,
        ),
{
    let len: usize = byte_len(file_data);
    let db: usize = header.data_block_address as usize;
    let os: usize = offset_size as usize;
    if db > len || 6 + os > len - db || !tag_at(file_data, db, 0x46, 0x41, 0x44, 0x42) {
        return true;
    }
    if header.max_nelmts_bits >= 64 {
        return false;
    }
    if header.num_elements > power_of_two(header.max_nelmts_bits) {
        return true;
    }
    if !can_chunk(dataset_dims, chunk_dimensions, element_size) {
        return false;
    }
    let n: usize = header.num_elements as usize;
    let width: usize = if header.client_id == 0 {
        os
    } else {
        header.element_size as usize
    };
    if header.client_id != 0 && n > 0 && width < os + 4 {
        return false;
    }
    if n == 0 || (all_positive(dataset_dims, chunk_dimensions.len()) && (header.client_id == 0
        || width <= os + 12)) {
        return true;
    }
    let r = none_allocated(file_data, db + 6 + os, n, width, offset_size);
    proof {
        let w = element_width(*header, offset_size);
        let start = (header.data_block_address as usize) + 6 + offset_size;
        assert(w == width);
        if r {
            assert forall|i: int| 0 <= i < n implies !is_allocated(
                file_data@,
                start + #[trigger] (i * w),
                w,
                offset_size,
            ) by {
                assert(i * w == i * width);
            }
        } else {
            let i = choose|i: int|
                0 <= i < n && is_allocated(
                    file_data@,
                    start + #[trigger] (i * width),
                    width as int,
                    offset_size,
                );
            assert(i * w == i * width);
            assert(is_allocated(file_data@, start + (i * w), w, offset_size));
        }
    }
    r
}

/// Read chunk records from a Fixed Array data block.
///
/// Returns a `Vec<ChunkInfo>` with one entry per allocated chunk.
/// `chunk_dimensions` should be the spatial chunk dims only (not including the element-size dim).
/// `element_size` is the datatype size in bytes.
pub fn read_fixed_array_chunks(
    file_data: &[u8],
    header: &FixedArrayHeader,
    dataset_dims: &[u64],
    chunk_dimensions: &[u32],
    element_size: u32,
    offset_size: u8,
    _length_size: u8,
) -> (r: Result<Vec<ChunkInfo>, FormatError>)
    requires
        fixed_array_readable(
            file_data@,
            *header,
            dataset_dims@,
            chunk_dimensions@,
            element_size,
            offset_size,
        ),
    ensures
        crate::error::outcome(r) == fixed_chunks(
            file_data@,
            *header,
            dataset_dims@,
            chunk_dimensions@,
            element_size,
            offset_size,
        ),
{
    let len: usize = byte_len(file_data);
    let db_offset: usize = header.data_block_address as usize;
    let os: usize = offset_size as usize;
    // Parse data block header: FADB(4) + version(1) + client_id(1) + header_address(offset_size)
    let db_header_size: usize = 6 + os;
    ensure_len(file_data, db_offset, db_header_size)?;
    if !tag_at(file_data, db_offset, 0x46, 0x41, 0x44, 0x42) {
        return Err(FormatError::chunked("invalid Fixed Array data block signature"));
    }
    // Check if paged

    if header.num_elements > power_of_two(header.max_nelmts_bits) {
        return Err(FormatError::chunked("paged Fixed Array data blocks not yet supported"));
    }
    // Non-paged: elements stored directly

    let num_elements: usize = header.num_elements as usize;
    // Chunks are stored in row-major order within the dataset space
    let ghost g = grid_of(dataset_dims@, chunk_dimensions@, element_size);
    let chunk = widen(chunk_dimensions, chunk_dimensions.len());
    proof {
        assert forall|i: int| 0 <= i < chunk@.len() implies #[trigger] chunk@[i] > 0 by {
            assert(chunk_dimensions@[i] > 0);
        }
    }
    let counts = chunk_counts(dataset_dims, &chunk);
    let chunk_byte_size: u64 = dims_product(&chunk) * (element_size as u64);
    proof {
        if has_elements(dataset_dims@, chunk_dimensions@.len() as int) {
            crate::grid::lemma_counts_are_grid(dataset_dims@, chunk@);
        }
    }
    let ghost start = db_offset + db_header_size;
    let mut pos: usize = db_offset + db_header_size;
    let mut chunks: Vec<ChunkInfo> = Vec::new();
    let mut i: usize = 0;
    let ghost width = element_width(*header, offset_size);
    let ghost goal = fixed_elements_at(
        file_data@,
        start as int,
        *header,
        offset_size,
        g,
        0,
        num_elements as int,
        Seq::empty(),
    );
    assert(chunks.deep_view() =~= Seq::<ChunkInfoModel>::empty());
    assert(0 * width == 0);
    while i < num_elements
        invariant
            len == file_data@.len(),
            len <= isize::MAX,
            os == offset_size,
            i <= num_elements,
            pos <= len,
            start == header.data_block_address as usize + 6 + offset_size,
            width == element_width(*header, offset_size),
            pos == start + i * width,
            counts@ == g.counts,
            chunk@ == g.chunk,
            chunk_byte_size == g.bytes,
            header.client_id != 0 && num_elements > 0 ==> os + 4 <= header.element_size,
            (crate::grid::is_grid(counts@, chunk@) && (header.client_id != 0
                ==> header.element_size <= os + 12)) || forall|k: int|
                0 <= k < num_elements ==> !is_allocated(
                    file_data@,
                    start + #[trigger] (k * width),
                    width,
                    offset_size,
                ),
            goal == fixed_chunks(
                file_data@,
                *header,
                dataset_dims@,
                chunk_dimensions@,
                element_size,
                offset_size,
            ),
            goal == fixed_elements_at(
                file_data@,
                pos as int,
                *header,
                offset_size,
                g,
                i as int,
                num_elements as int,
                chunks.deep_view(),
            ),
        decreases num_elements - i,
    {
        let ghost before = chunks.deep_view();
        let info = read_fixed_element(
            file_data,
            pos,
            header,
            offset_size,
            chunk_byte_size,
            i,
            &counts,
            &chunk,
            Ghost(g),
        )?;
        if let Some(ci) = info {
            chunks.push(ci);
            assert(chunks.deep_view() =~= before.push(ci.deep_view()));
        }
        pos += if header.client_id == 0 {
            os
        } else {
            header.element_size as usize
        };
        proof {
            assert((i + 1) * width == i * width + width) by (nonlinear_arith);
        }
        i += 1;
    }
    Ok(chunks)
}

/// Read the element at `pos`.
fn read_fixed_element(
    file_data: &[u8],
    pos: usize,
    header: &FixedArrayHeader,
    offset_size: u8,
    chunk_byte_size: u64,
    index: usize,
    counts: &Vec<u64>,
    chunk: &Vec<u64>,
    Ghost(g): Ghost<ChunkGrid>,
) -> (r: Result<Option<ChunkInfo>, FormatError>)
    requires
        file_data@.len() <= isize::MAX,
        pos <= file_data@.len(),
        counts@ == g.counts,
        chunk@ == g.chunk,
        chunk_byte_size == g.bytes,
        header.client_id != 0 ==> offset_size + 4 <= header.element_size,
        is_allocated(file_data@, pos as int, element_width(*header, offset_size), offset_size)
            ==> crate::grid::is_grid(counts@, chunk@) && (header.client_id != 0
            ==> header.element_size <= offset_size + 12),
    ensures
        match r {
            Ok(Some(info)) => fixed_element_at(
                file_data@,
                pos as int,
                *header,
                offset_size,
                g,
                index as int,
            ) == Ok::<Option<ChunkInfoModel>, ErrorModel>(Some(info.deep_view())),
            Ok(None) => fixed_element_at(
                file_data@,
                pos as int,
                *header,
                offset_size,
                g,
                index as int,
            ) == Ok::<Option<ChunkInfoModel>, ErrorModel>(None),
            Err(e) => fixed_element_at(
                file_data@,
                pos as int,
                *header,
                offset_size,
                g,
                index as int,
            ) == Err::<Option<ChunkInfoModel>, ErrorModel>(e.deep_view()),
        },
        r is Ok ==> pos + element_width(*header, offset_size) <= file_data@.len(),
{
    let os: usize = offset_size as usize;
    let elem_data = slice_subrange(file_data, pos, file_data.len());
    if header.client_id == 0 {
        // Non-filtered: just address
        ensure_len(elem_data, 0, os)?;
        let address = read_offset(file_data, pos, offset_size)?;
        if is_undefined_bytes(file_data, pos, offset_size) {
            return Ok(None);  // unallocated chunk
        }
        let offsets = grid_offsets(index as u64, counts.as_slice(), chunk.as_slice());
        Ok(
            Some(
                ChunkInfo {
                    chunk_size: chunk_byte_size as u32,
                    filter_mask: 0,
                    offsets,
                    address,
                },
            ),
        )
    } else {
        // Filtered: address(offset_size) + chunk_size(variable) + filter_mask(4)
        let elem_total: usize = header.element_size as usize;
        let chunk_size_bytes: usize = elem_total - os - 4;
        ensure_len(elem_data, 0, elem_total)?;
        let address = read_offset(file_data, pos, offset_size)?;
        if is_undefined_bytes(file_data, pos, offset_size) {
            return Ok(None);  // unallocated chunk
        }
        // Read chunk_size (variable length, little-endian)

        let sized = slice_subrange(file_data, pos + os, file_data.len());
        let chunk_size = read_variable_length(sized, chunk_size_bytes)?;
        let fm_off: usize = pos + os + chunk_size_bytes;
        let filter_mask = order_u32(slice_subrange(file_data, fm_off, fm_off + 4));
        proof {
            assert(sized@.subrange(0, chunk_size_bytes as int) =~= file_data@.subrange(
                pos + os,
                pos + elem_total - 4,
            ));
        }
        let offsets = grid_offsets(index as u64, counts.as_slice(), chunk.as_slice());
        Ok(Some(ChunkInfo { chunk_size: chunk_size as u32, filter_mask, offsets, address }))
    }
}

/// Convert a linear chunk index to N-dimensional chunk offsets in dataset space.
pub fn index_to_chunk_offsets(
    index: usize,
    num_chunks_per_dim: &[u64],
    chunk_dimensions: &[u32],
) -> (offsets: Vec<u64>)
    requires
        crate::grid::is_grid(
            num_chunks_per_dim@,
            crate::grid::widened(chunk_dimensions@, chunk_dimensions@.len() as int),
        ),
    ensures
        offsets@ == crate::grid::offsets_of(
            index as int,
            num_chunks_per_dim@,
            crate::grid::widened(chunk_dimensions@, chunk_dimensions@.len() as int),
        ),
{
    let chunk = widen(chunk_dimensions, chunk_dimensions.len());
    grid_offsets(index as u64, num_chunks_per_dim, chunk.as_slice())
}

} // verus!
