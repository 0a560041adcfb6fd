//! Chunked dataset writing: chunk splitting, compression, index building.

use vstd::prelude::*;
use vstd::slice::slice_to_vec;
use crate::bytes::{byte_len, put_fill, put_le, put_slice, put_u32};
use crate::checksum::jenkins_lookup3;
use crate::chunk_cache::align_to_cache_line;
use crate::dataspace::dims_product;
use crate::error::{ErrorModel, FormatError};
use crate::extensible_array::super_info;
use crate::filter_pipeline::{
    FilterDescription, FilterModel, FilterPipeline, PipelineModel, FILTER_DEFLATE,
    FILTER_FLETCHER32, FILTER_SHUFFLE,
};
use crate::filters::compress_chunk;
use crate::grid::{chunk_counts, extract_chunk, grid_offsets, row_strides, to_words};

verus! {

broadcast use vstd::std_specs::control_flow::group_control_flow_axioms;

/// Round a file offset up to the next cache-line boundary.
///
/// This ensures chunk data starts at an address that is a multiple of the cache line size.
pub fn align_chunk_offset(offset: u64) -> (r: u64)
    requires
        offset + 63 <= u64::MAX,
    ensures
        r == crate::chunk_cache::aligned(offset as int),
{
    (offset + 63) / 64 * 64
}

/// Options for chunked dataset creation.
#[derive(Debug)]
pub struct ChunkOptions {
    /// Chunk dimensions (one per dataset dimension).
    pub chunk_dims: Option<Vec<u64>>,
    /// Deflate compression level (0-9), None = no deflate.
    pub deflate_level: Option<u32>,
    /// Whether to apply shuffle filter before compression.
    pub shuffle: bool,
    /// Whether to apply fletcher32 checksum.
    pub fletcher32: bool,
}

/// The content of [`ChunkOptions`].
pub struct OptionsModel {
    pub chunk_dims: Option<Seq<u64>>,
    pub deflate_level: Option<u32>,
    pub shuffle: bool,
    pub fletcher32: bool,
}

impl DeepView for ChunkOptions {
    type V = OptionsModel;

    open spec fn deep_view(&self) -> OptionsModel {
        OptionsModel {
            chunk_dims: match self.chunk_dims {
                Some(dims) => Some(dims@),
                None => None,
            },
            deflate_level: self.deflate_level,
            shuffle: self.shuffle,
            fletcher32: self.fletcher32,
        }
    }
}

/// The options that ask for nothing.
pub open spec fn no_options() -> OptionsModel {
    OptionsModel { chunk_dims: None, deflate_level: None, shuffle: false, fletcher32: false }
}

impl Default for ChunkOptions {
    fn default() -> (options: Self)
        ensures
            options.deep_view() == no_options(),
    {
        ChunkOptions { chunk_dims: None, deflate_level: None, shuffle: false, fletcher32: false }
    }
}

impl Clone for ChunkOptions {
    fn clone(&self) -> (copy: Self)
        ensures
            copy.deep_view() == self.deep_view(),
    {
        ChunkOptions {
            chunk_dims: match &self.chunk_dims {
                Some(dims) => Some(slice_to_vec(dims.as_slice())),
                None => None,
            },
            deflate_level: self.deflate_level,
            shuffle: self.shuffle,
            fletcher32: self.fletcher32,
        }
    }
}

/// A filter without a name.
pub open spec fn plain_filter(filter_id: u16, client_data: Seq<u32>) -> FilterModel {
    FilterModel { filter_id, name: None, flags: 0, client_data }
}

impl ChunkOptions {
    /// The filters that the options ask for: shuffle, deflate and fletcher32, in this order.
    pub open spec fn filters(self, element_size: u32) -> Seq<FilterModel> {
        let none = Seq::<FilterModel>::empty();
        let a = if self.shuffle {
            none.push(plain_filter(FILTER_SHUFFLE, seq![element_size]))
        } else {
            none
        };
        let b = match self.deflate_level {
            Some(level) => a.push(plain_filter(FILTER_DEFLATE, seq![level])),
            None => a,
        };
        if self.fletcher32 {
            b.push(plain_filter(FILTER_FLETCHER32, Seq::empty()))
        } else {
            b
        }
    }

    /// The pipeline that the options ask for, if any.
    pub open spec fn pipeline(self, element_size: u32) -> Option<PipelineModel> {
        if self.filters(element_size).len() == 0 {
            None
        } else {
            Some(PipelineModel { version: 2, filters: self.filters(element_size) })
        }
    }

    /// Whether any chunking option is enabled.
    pub fn is_chunked(&self) -> (r: bool)
        ensures
            r == (self.chunk_dims is Some || self.deflate_level is Some || self.shuffle
                || self.fletcher32),
    {
        self.chunk_dims.is_some() || self.deflate_level.is_some() || self.shuffle || self.fletcher32
    }

    /// Build a FilterPipeline from the options.
    pub fn build_pipeline(&self, element_size: u32) -> (r: Option<FilterPipeline>)
        ensures
            match r {
                Some(pl) => self.pipeline(element_size) == Some(pl.deep_view()),
                None => self.pipeline(element_size) is None,
            },
    {
        let mut filters: Vec<FilterDescription> = Vec::new();
        assert(filters.deep_view() =~= Seq::<FilterModel>::empty());
        if self.shuffle {
            let mut client_data: Vec<u32> = Vec::new();
            client_data.push(element_size);
            assert(client_data@ =~= seq![element_size]);
            push_filter(&mut filters, FILTER_SHUFFLE, client_data);
        }
        if let Some(level) = self.deflate_level {
            let mut client_data: Vec<u32> = Vec::new();
            client_data.push(level);
            assert(client_data@ =~= seq![level]);
            push_filter(&mut filters, FILTER_DEFLATE, client_data);
        }
        if self.fletcher32 {
            let client_data: Vec<u32> = Vec::new();
            assert(client_data@ =~= Seq::<u32>::empty());
            push_filter(&mut filters, FILTER_FLETCHER32, client_data);
        }
        assert(filters.deep_view().len() == filters@.len());
        if filters.len() == 0 {
            None
        } else {
            Some(FilterPipeline { version: 2, filters })
        }
    }

    /// Determine chunk dimensions, using user-specified or auto-computing.
    pub fn resolve_chunk_dims(&self, shape: &[u64]) -> (dims: Vec<u64>)
        ensures
            dims@ == match self.chunk_dims {
                Some(user) => user@,
                None => shape@,
            },
    {
        if let Some(dims) = &self.chunk_dims {
            let copy = dims.clone();
            assert(copy@ =~= dims@);
            copy
        } else {
            // Auto chunk: use the full dataset shape (single chunk)
            let copy = slice_to_vec(shape);
            assert(copy@ =~= shape@);
            copy
        }
    }
}

fn push_filter(filters: &mut Vec<FilterDescription>, filter_id: u16, client_data: Vec<u32>)
    ensures
        final(filters).deep_view() == old(filters).deep_view().push(
            plain_filter(filter_id, client_data@),
        ),
{
    filters.push(FilterDescription { filter_id, name: None, flags: 0, client_data });
    assert(filters.deep_view() =~= old(filters).deep_view().push(
        plain_filter(filter_id, client_data@),
    ));
}

/// A chunk that has been written to the file buffer.
#[derive(Debug, Clone, Copy)]
pub struct WrittenChunk {
    /// Address within the file where chunk data starts.
    pub address: u64,
    /// Size of the (possibly compressed) chunk data in bytes.
    pub compressed_size: u64,
    /// Original uncompressed size in bytes.
    pub raw_size: u64,
    /// Filter mask (0 = all filters applied).
    pub filter_mask: u32,
}

/// Result of building a chunked dataset.
pub struct ChunkedDataResult {
    /// Raw bytes containing all chunk data + index structures.
    pub data_bytes: Vec<u8>,
    /// The DataLayout v4 message bytes.
    pub layout_message: Vec<u8>,
    /// The FilterPipeline message bytes, if any.
    pub pipeline_message: Option<Vec<u8>>,
}

/// The content of a [`ChunkedDataResult`].
pub struct ChunkedDataModel {
    pub data_bytes: Seq<u8>,
    pub layout_message: Seq<u8>,
    pub pipeline_message: Option<Seq<u8>>,
}

impl DeepView for ChunkedDataResult {
    type V = ChunkedDataModel;

    open spec fn deep_view(&self) -> ChunkedDataModel {
        ChunkedDataModel {
            data_bytes: self.data_bytes@,
            layout_message: self.layout_message@,
            pipeline_message: match self.pipeline_message {
                Some(bytes) => Some(bytes@),
                None => None,
            },
        }
    }
}

// ---- Splitting ----

/// Whether a data set can be split into chunks: each extent of a chunk is positive, there is one
/// for each axis, and all counts, strides and sizes fit in the machine word.
pub open spec fn is_splittable(shape: Seq<u64>, chunk: Seq<u64>, size: int) -> bool {
    shape.len() > 0 ==> {
        let cd = crate::grid::words(chunk);
        let dd = crate::grid::words(shape);
        &&& chunk.len() == shape.len()
        &&& forall|d: int| 0 <= d < chunk.len() ==> #[trigger] chunk[d] > 0
        &&& crate::dataspace::is_countable(crate::grid::counts_of(shape, chunk))
        &&& crate::grid::strides_fit(dd)
        &&& crate::grid::strides_fit(cd)
        &&& crate::grid::prefixes_fit(cd)
        &&& crate::grid::tail(dd, 0) <= usize::MAX
        &&& crate::grid::tail(dd, 0) * size <= usize::MAX
    }
}

/// The number of chunks of a data set.
pub open spec fn chunk_total(shape: Seq<u64>, chunk: Seq<u64>) -> nat {
    if shape.len() == 0 {
        1
    } else {
        crate::dataspace::product(
            crate::grid::counts_of(shape, chunk),
            chunk.len() as int,
        )
    }
}

/// The offsets and the bytes of chunk `i`.
pub open spec fn chunk_of(
    raw: Seq<u8>,
    shape: Seq<u64>,
    chunk: Seq<u64>,
    size: int,
    i: int,
) -> (Seq<u64>, Seq<u8>) {
    if shape.len() == 0 {
        (Seq::empty(), raw)
    } else {
        let offsets = crate::grid::offsets_of(i, crate::grid::counts_of(shape, chunk), chunk);
        (
            offsets,
            crate::grid::extracted(
                raw,
                crate::grid::words(offsets),
                crate::grid::words(chunk),
                crate::grid::words(shape),
                size,
            ),
        )
    }
}

/// A chunk has an offset for each axis.
proof fn lemma_offsets_len(index: int, counts: Seq<u64>, chunk: Seq<u64>, n: int)
    requires
        0 <= n,
    ensures
        crate::grid::offsets_to(index, counts, chunk, n).len() == n,
    decreases n,
{
    if n > 0 {
        lemma_offsets_len(index / counts[n - 1] as int, counts, chunk, n - 1);
    }
}

/// Split raw data into chunk-sized pieces based on shape and chunk dimensions.
/// Returns a Vec of (chunk_offset_per_dim, chunk_raw_bytes).
pub fn split_into_chunks(
    raw_data: &[u8],
    shape: &[u64],
    chunk_dims: &[u64],
    element_size: usize,
) -> (chunks: Vec<(Vec<u64>, Vec<u8>)>)
    requires
        is_splittable(shape@, chunk_dims@, element_size as int),
    ensures
        chunks@.len() == chunk_total(shape@, chunk_dims@),
        forall|i: int|
            0 <= i < chunks@.len() ==> ((#[trigger] chunks@[i]).0@, chunks@[i].1@) == chunk_of(
                raw_data@,
                shape@,
                chunk_dims@,
                element_size as int,
                i,
            ),
{
    let rank: usize = shape.len();
    let mut result: Vec<(Vec<u64>, Vec<u8>)> = Vec::new();
    if rank == 0 {
        let offsets: Vec<u64> = Vec::new();
        let bytes = slice_to_vec(raw_data);
        assert(offsets@ =~= Seq::<u64>::empty());
        assert(bytes@ =~= raw_data@);
        result.push((offsets, bytes));
        return result;
    }
    let chunk = slice_to_vec(chunk_dims);
    assert(chunk@ =~= chunk_dims@);
    // Compute number of chunks per dimension
    let counts = chunk_counts(shape, &chunk);
    let total_chunks: u64 = dims_product(&counts);
    let shape_vec = slice_to_vec(shape);
    assert(shape_vec@ =~= shape@);
    let ds_dims = to_words(&shape_vec);
    let cd = to_words(&chunk);
    // Dataset and chunk strides (row-major)
    let ds_strides = row_strides(&ds_dims);
    let chunk_strides = row_strides(&cd);
    let mut i: u64 = 0;
    while i < total_chunks
        invariant
            i <= total_chunks,
            total_chunks == chunk_total(shape@, chunk_dims@),
            total_chunks == crate::dataspace::product(counts@, counts@.len() as int),
            is_splittable(shape@, chunk_dims@, element_size as int),
            shape@.len() > 0,
            chunk@ == chunk_dims@,
            counts@ == crate::grid::counts_of(shape@, chunk_dims@),
            cd@ == crate::grid::words(chunk_dims@),
            ds_dims@ == crate::grid::words(shape@),
            crate::grid::are_strides(ds_strides@, ds_dims@),
            crate::grid::are_strides(chunk_strides@, cd@),
            result@.len() == i,
            forall|k: int|
                0 <= k < i ==> ((#[trigger] result@[k]).0@, result@[k].1@) == chunk_of(
                    raw_data@,
                    shape@,
                    chunk_dims@,
                    element_size as int,
                    k,
                ),
        decreases total_chunks - i,
    {
        proof {
            lemma_grid_of_split(shape@, chunk_dims@, element_size as int);
            lemma_offsets_len(i as int, counts@, chunk@, counts@.len() as int);
        }
        // Chunk offset in dataset space
        let offsets = grid_offsets(i, counts.as_slice(), chunk.as_slice());
        let off = to_words(&offsets);
        let bytes = extract_chunk(
            raw_data,
            &off,
            &cd,
            &ds_dims,
            &ds_strides,
            &chunk_strides,
            element_size,
        );
        result.push((offsets, bytes));
        i += 1;
    }
    result
}

/// Where there are chunks at all, they form a grid.
pub proof fn lemma_grid_of_split(shape: Seq<u64>, chunk: Seq<u64>, size: int)
    requires
        is_splittable(shape, chunk, size),
        shape.len() > 0,
        chunk_total(shape, chunk) > 0,
    ensures
        crate::grid::is_grid(crate::grid::counts_of(shape, chunk), chunk),
        forall|i: int|
            0 <= i < chunk.len() ==> #[trigger] crate::grid::counts_of(shape, chunk)[i] > 0,
{
    let counts = crate::grid::counts_of(shape, chunk);
    let n = chunk.len() as int;
    assert forall|i: int| 0 <= i < n implies #[trigger] counts[i] > 0 && (counts[i] - 1) * chunk[i]
        <= u64::MAX by {
        lemma_factor_positive(counts, n, i);
        assert(chunk[i] > 0);
        let a = shape[i] as int;
        let b = chunk[i] as int;
        crate::grid::lemma_ceil_div(a, b);
        let q = crate::grid::ceil_div(a, b);
        assert(counts[i] == q);
        assert((q - 1) * b == q * b - b) by (nonlinear_arith);
    }
}

/// Each factor of a positive product is positive.
pub proof fn lemma_factor_positive(dims: Seq<u64>, n: int, i: int)
    requires
        0 <= i < n <= dims.len(),
        crate::dataspace::product(dims, n) > 0,
    ensures
        dims[i] > 0,
    decreases n,
{
    let a = crate::dataspace::product(dims, n - 1) as int;
    let b = dims[n - 1] as int;
    assert(a > 0 && b > 0) by (nonlinear_arith)
        requires
            a * b > 0,
            a >= 0,
            b >= 0,
    ;
    if i < n - 1 {
        lemma_factor_positive(dims, n - 1, i);
    }
}

// ---- Layout messages ----

/// The largest of the first `n` extents and the element size.
pub open spec fn largest(chunk: Seq<u32>, n: int, size: u32) -> u32
    decreases n,
{
    if n <= 0 {
        size
    } else {
        let m = largest(chunk, n - 1, size);
        if chunk[n - 1] > m {
            chunk[n - 1]
        } else {
            m
        }
    }
}

/// The number of bytes in which the extents are encoded.
pub open spec fn extent_width(chunk: Seq<u32>, size: u32) -> u8 {
    let m = largest(chunk, chunk.len() as int, size);
    if m <= 0xFF {
        1
    } else if m <= 0xFFFF {
        2
    } else {
        4
    }
}

/// The bytes of the extents from the `from`-th on.
pub open spec fn extents_bytes(chunk: Seq<u32>, from: int, width: u8) -> Seq<u8>
    decreases chunk.len() - from,
{
    if from >= chunk.len() {
        Seq::empty()
    } else {
        crate::bytes::le_bytes(chunk[from] as nat, width as nat) + extents_bytes(
            chunk,
            from + 1,
            width,
        )
    }
}

/// The first part of a layout message (version 4, chunked): flags, the extents of a chunk and the
/// element size.
pub open spec fn layout_head(flags: u8, chunk: Seq<u32>, size: u32) -> Seq<u8> {
    let width = extent_width(chunk, size);
    seq![4u8, 2u8, flags, (chunk.len() % 256 + 1) as u8, width] + extents_bytes(chunk, 0, width)
        + crate::bytes::le_bytes(size as nat, width as nat)
}

/// The bytes of an address of four or eight bytes.
pub open spec fn address_field(v: u64, os: u8) -> Seq<u8> {
    if os == 4 || os == 8 {
        crate::bytes::le_bytes(v as nat, os as nat)
    } else {
        Seq::empty()
    }
}

/// The layout message of a single chunk.
pub open spec fn single_chunk_layout(
    chunk: Seq<u32>,
    address: u64,
    filtered_size: Option<u64>,
    filter_mask: Option<u32>,
    os: u8,
    size: u32,
) -> Seq<u8> {
    let flags = if filtered_size is Some {
        2u8
    } else {
        0u8
    };
    let filtered = if filtered_size is Some && filter_mask is Some {
        crate::bytes::le_bytes(filtered_size->0 as nat, 8) + crate::bytes::le_bytes(
            filter_mask->0 as nat,
            4,
        )
    } else {
        Seq::empty()
    };
    layout_head(flags, chunk, size) + seq![1u8] + filtered + address_field(address, os)
}

/// The layout message of chunks in a Fixed Array.
pub open spec fn fixed_array_layout(
    chunk: Seq<u32>,
    address: u64,
    os: u8,
    size: u32,
    max_bits: u8,
) -> Seq<u8> {
    layout_head(0, chunk, size) + seq![3u8, max_bits] + address_field(address, os)
}

/// The layout message of chunks in an Extensible Array.
pub open spec fn extensible_array_layout(
    chunk: Seq<u32>,
    address: u64,
    os: u8,
    size: u32,
) -> Seq<u8> {
    layout_head(0, chunk, size) + seq![4u8, 32, 4, 4, 16, 10] + address_field(address, os)
}

fn write_layout_head(flags: u8, chunk_dims: &[u32], element_size: u32) -> (buf: Vec<u8>)
    requires
        chunk_dims@.len() % 256 < 255,
    ensures
        buf@ == layout_head(flags, chunk_dims@, element_size),
{
    let mut max_dim: u32 = element_size;
    let mut k: usize = 0;
    while k < chunk_dims.len()
        invariant
            k <= chunk_dims@.len(),
            max_dim == largest(chunk_dims@, k as int, element_size),
        decreases chunk_dims@.len() - k,
    {
        if chunk_dims[k] > max_dim {
            max_dim = chunk_dims[k];
        }
        k += 1;
    }
    let width: u8 = if max_dim <= 0xFF {
        1
    } else if max_dim <= 0xFFFF {
        2
    } else {
        4
    };
    let mut buf: Vec<u8> = Vec::new();
    buf.push(4);  // version
    buf.push(2);  // class = chunked
    buf.push(flags);
    // dimensionality = rank + 1 (chunk dims + element size dim)
    buf.push((chunk_dims.len() % 256) as u8 + 1);
    buf.push(width);
    let ghost head = seq![4u8, 2u8, flags, (chunk_dims@.len() % 256 + 1) as u8, width];
    assert(buf@ =~= head);
    // dimension sizes (chunk dims + element size)
    k = 0;
    assert(buf@ + extents_bytes(chunk_dims@, 0, width) =~= head + extents_bytes(
        chunk_dims@,
        0,
        width,
    ));
    while k < chunk_dims.len()
        invariant
            k <= chunk_dims@.len(),
            buf@ + extents_bytes(chunk_dims@, k as int, width) =~= head + extents_bytes(
                chunk_dims@,
                0,
                width,
            ),
        decreases chunk_dims@.len() - k,
    {
        let ghost before = buf@;
        put_le(&mut buf, chunk_dims[k] as u64, width as usize);
        proof {
            let a = crate::bytes::le_bytes(chunk_dims@[k as int] as nat, width as nat);
            let b = extents_bytes(chunk_dims@, k + 1, width);
            assert(before + a + b =~= before + (a + b));
        }
        k += 1;
    }
    assert(buf@ + extents_bytes(chunk_dims@, k as int, width) =~= buf@);
    put_le(&mut buf, element_size as u64, width as usize);
    buf
}

fn put_address_field(buf: &mut Vec<u8>, v: u64, offset_size: u8)
    ensures
        final(buf)@ == old(buf)@ + address_field(v, offset_size),
{
    match offset_size {
        4 | 8 => put_le(buf, v, offset_size as usize),
        _ => {
            assert(buf@ + address_field(v, offset_size) =~= buf@);
        },
    }
}

/// Serialize a v4 single chunk layout message (public for OH size estimation).
pub fn serialize_v4_single_chunk_pub(
    chunk_dims: &[u32],
    chunk_address: u64,
    filtered_size: Option<u64>,
    filter_mask: Option<u32>,
    offset_size: u8,
    element_size: u32,
) -> (buf: Vec<u8>)
    requires
        chunk_dims@.len() % 256 < 255,
    ensures
        buf@ == single_chunk_layout(
            chunk_dims@,
            chunk_address,
            filtered_size,
            filter_mask,
            offset_size,
            element_size,
        ),
{
    // flags: bit 1 = filters for single chunk
    let flags: u8 = if filtered_size.is_some() {
        0x02
    } else {
        0x00
    };
    let mut buf = write_layout_head(flags, chunk_dims, element_size);
    let ghost head = buf@;
    // chunk index type = 1 (single chunk)
    buf.push(1);
    assert(buf@ =~= head + seq![1u8]);
    let ghost typed = buf@;
    // Index-specific fields
    if let (Some(fs), Some(fm)) = (filtered_size, filter_mask) {
        put_le(&mut buf, fs, 8);
        put_u32(&mut buf, fm);
        proof {
            let a = crate::bytes::le_bytes(fs as nat, 8);
            let b = crate::bytes::le_bytes(fm as nat, 4);
            assert(typed + a + b =~= typed + (a + b));
        }
    } else {
        assert(typed + Seq::<u8>::empty() =~= typed);
    }
    put_address_field(&mut buf, chunk_address, offset_size);
    buf
}

/// Serialize a v4 Fixed Array layout message.
pub fn serialize_v4_fixed_array(
    chunk_dims: &[u32],
    fixed_array_address: u64,
    offset_size: u8,
    element_size: u32,
    max_bits: u8,
) -> (buf: Vec<u8>)
    requires
        chunk_dims@.len() % 256 < 255,
    ensures
        buf@ == fixed_array_layout(
            chunk_dims@,
            fixed_array_address,
            offset_size,
            element_size,
            max_bits,
        ),
{
    let mut buf = write_layout_head(0, chunk_dims, element_size);
    let ghost head = buf@;
    // chunk index type = 3 (Fixed Array)
    buf.push(3);
    // max_dblk_page_nelmts_bits: must match FAHD max_nelmts_bits
    buf.push(max_bits);
    assert(buf@ =~= head + seq![3u8, max_bits]);
    put_address_field(&mut buf, fixed_array_address, offset_size);
    buf
}

/// Serialize a v4 Extensible Array layout message.
pub fn serialize_v4_extensible_array(
    chunk_dims: &[u32],
    ea_address: u64,
    offset_size: u8,
    element_size: u32,
) -> (buf: Vec<u8>)
    requires
        chunk_dims@.len() % 256 < 255,
    ensures
        buf@ == extensible_array_layout(chunk_dims@, ea_address, offset_size, element_size),
{
    let mut buf = write_layout_head(0, chunk_dims, element_size);
    let ghost head = buf@;
    // chunk index type = 4 (Extensible Array)
    buf.push(4);
    buf.push(32);  // max_nelmts_bits
    buf.push(4);  // idx_blk_elmts
    buf.push(4);  // super_blk_min_data_ptrs
    buf.push(16);  // data_blk_min_elmts
    buf.push(10);  // max_dblk_page_nelmts_bits
    assert(buf@ =~= head + seq![4u8, 32, 4, 4, 16, 10]);
    put_address_field(&mut buf, ea_address, offset_size);
    buf
}

// ---- Array elements ----

/// The largest raw size of the first `n` chunks.
pub open spec fn largest_raw(chunks: Seq<WrittenChunk>, n: int) -> u64
    decreases n,
{
    if n <= 0 {
        0
    } else {
        let m = largest_raw(chunks, n - 1);
        if chunks[n - 1].raw_size > m {
            chunks[n - 1].raw_size
        } else {
            m
        }
    }
}

/// The number of bytes in which the size of a filtered chunk is encoded: one more than the
/// largest unfiltered size needs, at most eight.
pub open spec fn size_field_width(chunks: Seq<WrittenChunk>) -> nat {
    let w = 1 + crate::bytes::byte_width(largest_raw(chunks, chunks.len() as int) as nat);
    if w <= 8 {
        w
    } else {
        8
    }
}

/// The number of bytes of the size field, which only filtered chunks have.
pub open spec fn size_bytes(chunks: Seq<WrittenChunk>, has_filters: bool) -> nat {
    if has_filters {
        size_field_width(chunks)
    } else {
        0
    }
}

/// The number of bytes of an array element.
pub open spec fn element_bytes(chunks: Seq<WrittenChunk>, os: u8, has_filters: bool) -> nat {
    if has_filters {
        os as nat + size_field_width(chunks) + 4
    } else {
        os as nat
    }
}

/// The bytes of the array element for a chunk.
pub open spec fn chunk_element(c: WrittenChunk, os: u8, has_filters: bool, width: nat) -> Seq<u8> {
    let address = crate::bytes::le_bytes(c.address as nat, os as nat);
    if has_filters {
        address + (crate::bytes::le_bytes(c.compressed_size as nat, width)
            + crate::bytes::le_bytes(c.filter_mask as nat, 4))
    } else {
        address
    }
}

/// The bytes of the array element for a chunk that is not there.
pub open spec fn undefined_element(os: u8, has_filters: bool, width: nat) -> Seq<u8> {
    let address = Seq::new(os as nat, |i: int| 0xFFu8);
    if has_filters {
        address + Seq::new(width + 4, |i: int| 0u8)
    } else {
        address
    }
}

/// The bytes of `count` elements: those of the chunks from the `from`-th on, and undefined ones
/// where there are no more chunks.
pub open spec fn elements_bytes(
    chunks: Seq<WrittenChunk>,
    from: int,
    count: int,
    os: u8,
    has_filters: bool,
    width: nat,
) -> Seq<u8>
    decreases count,
{
    if count <= 0 {
        Seq::empty()
    } else {
        (if from < chunks.len() {
            chunk_element(chunks[from], os, has_filters, width)
        } else {
            undefined_element(os, has_filters, width)
        }) + elements_bytes(chunks, from + 1, count - 1, os, has_filters, width)
    }
}

/// `body` and its checksum.
pub open spec fn summed(body: Seq<u8>) -> Seq<u8> {
    body + crate::bytes::le_bytes(crate::checksum::lookup3(body) as nat, 4)
}

fn put_checksum(buf: &mut Vec<u8>)
    ensures
        final(buf)@ == summed(old(buf)@),
{
    let checksum = jenkins_lookup3(buf.as_slice());
    put_u32(buf, checksum);
}

fn encoded_size_width(chunks: &[WrittenChunk]) -> (w: usize)
    ensures
        w == size_field_width(chunks@),
        2 <= w <= 8,
{
    let mut max_raw: u64 = 0;
    let mut k: usize = 0;
    while k < chunks.len()
        invariant
            k <= chunks@.len(),
            max_raw == largest_raw(chunks@, k as int),
        decreases chunks@.len() - k,
    {
        if chunks[k].raw_size > max_raw {
            max_raw = chunks[k].raw_size;
        }
        k += 1;
    }
    let mut rest: u64 = max_raw;
    let mut w: usize = 1;
    while rest >= 256 && w < 8
        invariant
            1 <= w <= 8,
            crate::bytes::byte_width(max_raw as nat) == (w - 1) + crate::bytes::byte_width(rest as nat),
        decreases rest,
    {
        rest = rest / 256;
        w += 1;
    }
    proof {
        assert(crate::bytes::byte_width(rest as nat) >= 1);
    }
    if w < 8 {
        w + 1
    } else {
        8
    }
}

fn write_chunk_element(
    buf: &mut Vec<u8>,
    chunk: &WrittenChunk,
    offset_size: u8,
    has_filters: bool,
    chunk_size_bytes: usize,
)
    ensures
        final(buf)@ == old(buf)@ + chunk_element(
            *chunk,
            offset_size,
            has_filters,
            chunk_size_bytes as nat,
        ),
{
    put_le(buf, chunk.address, offset_size as usize);
    if has_filters {
        let ghost before = buf@;
        put_le(buf, chunk.compressed_size, chunk_size_bytes);
        put_u32(buf, chunk.filter_mask);
        proof {
            let x = crate::bytes::le_bytes(chunk.address as nat, offset_size as nat);
            let a = crate::bytes::le_bytes(chunk.compressed_size as nat, chunk_size_bytes as nat);
            let b = crate::bytes::le_bytes(chunk.filter_mask as nat, 4);
            assert(old(buf)@ + x + a + b =~= old(buf)@ + (x + (a + b)));
        }
    }
}

fn write_undefined_element(
    buf: &mut Vec<u8>,
    offset_size: u8,
    has_filters: bool,
    chunk_size_bytes: usize,
)
    requires
        chunk_size_bytes <= 8,
    ensures
        final(buf)@ == old(buf)@ + undefined_element(
            offset_size,
            has_filters,
            chunk_size_bytes as nat,
        ),
{
    put_fill(buf, 0xFF, offset_size as usize);
    if has_filters {
        put_fill(buf, 0, chunk_size_bytes + 4);
    }
    assert(buf@ =~= old(buf)@ + undefined_element(
        offset_size,
        has_filters,
        chunk_size_bytes as nat,
    ));
}

fn write_elements(
    buf: &mut Vec<u8>,
    chunks: &[WrittenChunk],
    from: usize,
    count: usize,
    offset_size: u8,
    has_filters: bool,
    chunk_size_bytes: usize,
)
    requires
        chunk_size_bytes <= 8,
    ensures
        final(buf)@ == old(buf)@ + elements_bytes(
            chunks@,
            from as int,
            count as int,
            offset_size,
            has_filters,
            chunk_size_bytes as nat,
        ),
{
    let ghost w = chunk_size_bytes as nat;
    let mut k: usize = 0;
    while k < count
        invariant
            k <= count,
            chunk_size_bytes <= 8,
            w == chunk_size_bytes,
            buf@ + elements_bytes(
                chunks@,
                from + k,
                count - k,
                offset_size,
                has_filters,
                w,
            ) =~= old(buf)@ + elements_bytes(
                chunks@,
                from as int,
                count as int,
                offset_size,
                has_filters,
                w,
            ),
        decreases count - k,
    {
        let ghost before = buf@;
        if from < chunks.len() && k < chunks.len() - from {
            write_chunk_element(
                buf,
                &chunks[from + k],
                offset_size,
                has_filters,
                chunk_size_bytes,
            );
        } else {
            write_undefined_element(buf, offset_size, has_filters, chunk_size_bytes);
        }
        proof {
            let a = if from + k < chunks@.len() {
                chunk_element(chunks@[from + k], offset_size, has_filters, w)
            } else {
                undefined_element(offset_size, has_filters, w)
            };
            let b = elements_bytes(
                chunks@,
                from + k + 1,
                count - k - 1,
                offset_size,
                has_filters,
                w,
            );
            assert(before + a + b =~= before + (a + b));
        }
        k += 1;
    }
    assert(buf@ + elements_bytes(
        chunks@,
        from + k,
        count - k,
        offset_size,
        has_filters,
        w,
    ) =~= buf@);
}

// ---- Fixed Array ----

/// The client of an array: whether its chunks are filtered.
pub open spec fn client(has_filters: bool) -> u8 {
    if has_filters {
        1
    } else {
        0
    }
}

/// The length of a Fixed Array header.
pub open spec fn fixed_header_size(os: u8, ls: u8) -> int {
    12 + ls + os
}

/// The bytes of a Fixed Array header.
pub open spec fn fixed_header_bytes(
    chunks: Seq<WrittenChunk>,
    os: u8,
    ls: u8,
    has_filters: bool,
    base: u64,
) -> Seq<u8> {
    summed(
        crate::fixed_array::fahd() + seq![
            0u8,
            client(has_filters),
            element_bytes(chunks, os, has_filters) as u8,
            10u8,
        ] + crate::bytes::le_bytes(chunks.len(), ls as nat) + crate::bytes::le_bytes(
            (base + fixed_header_size(os, ls)) as nat,
            os as nat,
        ),
    )
}

/// The bytes of a Fixed Array data block.
pub open spec fn fixed_block_bytes(
    chunks: Seq<WrittenChunk>,
    os: u8,
    has_filters: bool,
    base: u64,
) -> Seq<u8> {
    summed(
        crate::fixed_array::fadb() + seq![0u8, client(has_filters)] + crate::bytes::le_bytes(
            base as nat,
            os as nat,
        ) + elements_bytes(
            chunks,
            0,
            chunks.len() as int,
            os,
            has_filters,
            size_bytes(chunks, has_filters),
        ),
    )
}

/// The bytes of a Fixed Array at `base`.
pub open spec fn fixed_array_bytes(
    chunks: Seq<WrittenChunk>,
    os: u8,
    ls: u8,
    has_filters: bool,
    base: u64,
) -> Seq<u8> {
    fixed_header_bytes(chunks, os, ls, has_filters, base) + fixed_block_bytes(
        chunks,
        os,
        has_filters,
        base,
    )
}

/// Build a complete Fixed Array at a known absolute address.
pub fn build_fixed_array_at(
    chunks: &[WrittenChunk],
    offset_size: u8,
    length_size: u8,
    has_filters: bool,
    fa_base_address: u64,
) -> (combined: Vec<u8>)
    requires
        offset_size == 4 || offset_size == 8,
        length_size == 4 || length_size == 8,
        fa_base_address + fixed_header_size(offset_size, length_size) <= u64::MAX,
    ensures
        combined@ == fixed_array_bytes(
            chunks@,
            offset_size,
            length_size,
            has_filters,
            fa_base_address,
        ),
{
    let os: usize = offset_size as usize;
    let num_elements: usize = chunks.len();
    // For filtered chunks, the compressed size is encoded in as many bytes as the unfiltered
    // size needs, and one more.
    let chunk_size_bytes: usize = if has_filters {
        encoded_size_width(chunks)
    } else {
        0
    };
    let elem_size: usize = if has_filters {
        os + chunk_size_bytes + 4
    } else {
        os
    };
    let client_id: u8 = if has_filters {
        1
    } else {
        0
    };
    let fahd_total_size: u64 = 12 + length_size as u64 + offset_size as u64;
    let fadb_address: u64 = fa_base_address + fahd_total_size;
    // Build FAHD
    let mut combined: Vec<u8> = Vec::new();
    combined.push(0x46);
    combined.push(0x41);
    combined.push(0x48);
    combined.push(0x44);
    combined.push(0);  // version
    combined.push(client_id);
    combined.push(elem_size as u8);
    // max_nelmts_bits (page_size = 1024)
    combined.push(10);
    assert(combined@ =~= crate::fixed_array::fahd() + seq![0u8, client_id, elem_size as u8, 10u8]);
    put_le(&mut combined, num_elements as u64, length_size as usize);
    put_le(&mut combined, fadb_address, os);
    put_checksum(&mut combined);
    // Build FADB
    let mut fadb: Vec<u8> = Vec::new();
    fadb.push(0x46);
    fadb.push(0x41);
    fadb.push(0x44);
    fadb.push(0x42);
    fadb.push(0);  // version
    fadb.push(client_id);
    assert(fadb@ =~= crate::fixed_array::fadb() + seq![0u8, client_id]);
    // header address
    put_le(&mut fadb, fa_base_address, os);
    // Element data
    write_elements(
        &mut fadb,
        chunks,
        0,
        num_elements,
        offset_size,
        has_filters,
        chunk_size_bytes,
    );
    put_checksum(&mut fadb);
    put_slice(&mut combined, fadb.as_slice());
    combined
}

// ---- Extensible Array ----

/// The number of super blocks that an Extensible Array can have. The data blocks of the first four
/// stand in the index block.
pub const SUPER_BLOCKS: usize = 29;

/// The sizes of the data blocks that the index block lists: those of the first four super blocks.
pub open spec fn block_sizes() -> Seq<usize> {
    seq![16, 32, 32, 32, 64, 64]
}

/// The index of the first element of data block `i` of a list of data blocks of the given sizes,
/// which starts with element `first`.
pub open spec fn block_start(sizes: Seq<usize>, first: int, i: int) -> int {
    first + crate::extensible_array::sum_to(sizes, i)
}

/// The bytes of the data block for the `count` elements from `from` on.
#[verifier::opaque]
pub open spec fn block_bytes(
    chunks: Seq<WrittenChunk>,
    from: int,
    count: int,
    os: u8,
    has_filters: bool,
    base: u64,
) -> Seq<u8> {
    summed(
        crate::extensible_array::eadb() + seq![0u8, client(has_filters)] + crate::bytes::le_bytes(
            base as nat,
            os as nat,
        ) + crate::bytes::le_bytes((from - 4) as nat, 4) + elements_bytes(
            chunks,
            from,
            count,
            os,
            has_filters,
            size_bytes(chunks, has_filters),
        ),
    )
}

/// The bytes of the first `n` data blocks of a list, as far as they hold chunks.
pub open spec fn blocks_bytes(
    chunks: Seq<WrittenChunk>,
    sizes: Seq<usize>,
    first: int,
    n: int,
    os: u8,
    has_filters: bool,
    base: u64,
) -> Seq<u8>
    decreases n,
{
    if n <= 0 {
        Seq::empty()
    } else {
        let before = blocks_bytes(chunks, sizes, first, n - 1, os, has_filters, base);
        let from = block_start(sizes, first, n - 1);
        if from < chunks.len() {
            before + block_bytes(chunks, from, sizes[n - 1] as int, os, has_filters, base)
        } else {
            before
        }
    }
}

/// The address of data block `i` of a list, the first of which stands at `start`; the undefined one
/// for a block without chunks.
pub open spec fn block_address(
    chunks: Seq<WrittenChunk>,
    sizes: Seq<usize>,
    first: int,
    i: int,
    os: u8,
    has_filters: bool,
    base: u64,
    start: int,
) -> int {
    if block_start(sizes, first, i) < chunks.len() {
        start + blocks_bytes(chunks, sizes, first, i, os, has_filters, base).len()
    } else {
        u64::MAX as int
    }
}

/// The addresses of the first `n` data blocks of a list.
pub open spec fn block_addresses(
    chunks: Seq<WrittenChunk>,
    sizes: Seq<usize>,
    first: int,
    n: int,
    os: u8,
    has_filters: bool,
    base: u64,
    start: int,
) -> Seq<u8>
    decreases n,
{
    if n <= 0 {
        Seq::empty()
    } else {
        block_addresses(chunks, sizes, first, n - 1, os, has_filters, base, start)
            + crate::bytes::le_bytes(
            block_address(chunks, sizes, first, n - 1, os, has_filters, base, start) as nat,
            os as nat,
        )
    }
}

/// The number of the first `i` data blocks of a list that hold any of `n` chunks.
pub open spec fn active_blocks(n: int, sizes: Seq<usize>, first: int, i: int) -> nat
    decreases i,
{
    if i <= 0 {
        0
    } else if block_start(sizes, first, i - 1) < n {
        active_blocks(n, sizes, first, i - 1) + 1
    } else {
        active_blocks(n, sizes, first, i - 1)
    }
}

/// The number of elements in the first `i` data blocks of a list that hold any of `n` chunks.
pub open spec fn active_elements(n: int, sizes: Seq<usize>, first: int, i: int) -> nat
    decreases i,
{
    if i <= 0 {
        0
    } else if block_start(sizes, first, i - 1) < n {
        active_elements(n, sizes, first, i - 1) + sizes[i - 1] as nat
    } else {
        active_elements(n, sizes, first, i - 1)
    }
}

/// The sizes of the data blocks of super block `k`.
pub open spec fn super_sizes(k: int) -> Seq<usize> {
    crate::extensible_array::equal_sizes(
        crate::extensible_array::super_count(k),
        crate::extensible_array::super_size(k, 16) as usize,
    )
}

/// The index of the first element of super block `k`.
pub open spec fn super_start(k: int) -> int
    decreases k,
{
    if k <= 0 {
        4
    } else {
        super_start(k - 1) + crate::extensible_array::super_count(k - 1)
            * crate::extensible_array::super_size(k - 1, 16)
    }
}

/// The length of super block `k` without its data blocks.
pub open spec fn super_head_size(k: int, os: u8) -> int {
    10 + os + crate::extensible_array::super_count(k) * os
}

/// The bytes of super block `k` at `at` without its data blocks, which follow it.
#[verifier::opaque]
pub open spec fn super_head(
    chunks: Seq<WrittenChunk>,
    k: int,
    os: u8,
    has_filters: bool,
    base: u64,
    at: int,
) -> Seq<u8> {
    summed(
        crate::extensible_array::easb() + seq![0u8, client(has_filters)] + crate::bytes::le_bytes(
            base as nat,
            os as nat,
        ) + block_addresses(
            chunks,
            super_sizes(k),
            super_start(k),
            super_sizes(k).len() as int,
            os,
            has_filters,
            base,
            at + super_head_size(k, os),
        ),
    )
}

/// The bytes of the data blocks of super block `k`.
#[verifier::opaque]
pub open spec fn super_blocks(
    chunks: Seq<WrittenChunk>,
    k: int,
    os: u8,
    has_filters: bool,
    base: u64,
) -> Seq<u8> {
    blocks_bytes(
        chunks,
        super_sizes(k),
        super_start(k),
        super_sizes(k).len() as int,
        os,
        has_filters,
        base,
    )
}

/// The bytes of the super blocks from the fourth up to the `k`-th, as far as they hold chunks, each
/// followed by its data blocks. The first one stands at `start`.
pub open spec fn supers_bytes(
    chunks: Seq<WrittenChunk>,
    k: int,
    os: u8,
    has_filters: bool,
    base: u64,
    start: int,
) -> Seq<u8>
    decreases k,
{
    if k <= 4 {
        Seq::empty()
    } else {
        let before = supers_bytes(chunks, k - 1, os, has_filters, base, start);
        if super_start(k - 1) < chunks.len() {
            before + super_head(chunks, k - 1, os, has_filters, base, start + before.len())
                + super_blocks(chunks, k - 1, os, has_filters, base)
        } else {
            before
        }
    }
}

/// The address of super block `k`; the undefined one for a block without chunks.
pub open spec fn super_address(
    chunks: Seq<WrittenChunk>,
    k: int,
    os: u8,
    has_filters: bool,
    base: u64,
    start: int,
) -> int {
    if super_start(k) < chunks.len() {
        start + supers_bytes(chunks, k, os, has_filters, base, start).len()
    } else {
        u64::MAX as int
    }
}

/// The addresses of the super blocks from the fourth up to the `k`-th.
pub open spec fn super_addresses(
    chunks: Seq<WrittenChunk>,
    k: int,
    os: u8,
    has_filters: bool,
    base: u64,
    start: int,
) -> Seq<u8>
    decreases k,
{
    if k <= 4 {
        Seq::empty()
    } else {
        super_addresses(chunks, k - 1, os, has_filters, base, start) + crate::bytes::le_bytes(
            super_address(chunks, k - 1, os, has_filters, base, start) as nat,
            os as nat,
        )
    }
}

/// The number of data blocks that hold any of `n` chunks: those that the index block lists, and
/// those of the super blocks from the fourth up to the `k`-th.
pub open spec fn all_blocks(n: int, k: int) -> nat
    decreases k,
{
    if k <= 4 {
        active_blocks(n, block_sizes(), 4, 6)
    } else {
        all_blocks(n, k - 1) + active_blocks(
            n,
            super_sizes(k - 1),
            super_start(k - 1),
            super_sizes(k - 1).len() as int,
        )
    }
}

/// The number of elements in those data blocks.
pub open spec fn all_elements(n: int, k: int) -> nat
    decreases k,
{
    if k <= 4 {
        active_elements(n, block_sizes(), 4, 6)
    } else {
        all_elements(n, k - 1) + active_elements(
            n,
            super_sizes(k - 1),
            super_start(k - 1),
            super_sizes(k - 1).len() as int,
        )
    }
}

/// The length of the index block.
pub open spec fn index_block_size(chunks: Seq<WrittenChunk>, os: u8, has_filters: bool) -> int {
    10 + 32 * os + 4 * element_bytes(chunks, os, has_filters)
}

/// Where the data blocks of an Extensible Array at `base` start.
pub open spec fn blocks_position(
    chunks: Seq<WrittenChunk>,
    os: u8,
    ls: u8,
    has_filters: bool,
    base: u64,
) -> int {
    base + crate::extensible_array::header_size(os, ls) + index_block_size(chunks, os, has_filters)
}

/// The bytes of the data blocks that the index block lists.
pub open spec fn listed_blocks(
    chunks: Seq<WrittenChunk>,
    os: u8,
    has_filters: bool,
    base: u64,
) -> Seq<u8> {
    blocks_bytes(chunks, block_sizes(), 4, 6, os, has_filters, base)
}

/// Where the super blocks of an Extensible Array at `base` start.
pub open spec fn supers_position(
    chunks: Seq<WrittenChunk>,
    os: u8,
    ls: u8,
    has_filters: bool,
    base: u64,
) -> int {
    blocks_position(chunks, os, ls, has_filters, base) + listed_blocks(
        chunks,
        os,
        has_filters,
        base,
    ).len()
}

/// The bytes of the super blocks.
pub open spec fn listed_supers(
    chunks: Seq<WrittenChunk>,
    os: u8,
    ls: u8,
    has_filters: bool,
    base: u64,
) -> Seq<u8> {
    supers_bytes(
        chunks,
        SUPER_BLOCKS as int,
        os,
        has_filters,
        base,
        supers_position(chunks, os, ls, has_filters, base),
    )
}

/// The bytes of an Extensible Array header.
pub open spec fn extensible_header_bytes(
    chunks: Seq<WrittenChunk>,
    os: u8,
    ls: u8,
    has_filters: bool,
    base: u64,
) -> Seq<u8> {
    let n = chunks.len() as int;
    let size = element_bytes(chunks, os, has_filters);
    let blocks = all_blocks(n, SUPER_BLOCKS as int);
    let elements = all_elements(n, SUPER_BLOCKS as int);
    summed(
        crate::extensible_array::eahd() + seq![
            0u8,
            client(has_filters),
            size as u8,
            32u8,
            4u8,
            16u8,
            4u8,
            10u8,
        ] + crate::bytes::le_bytes(0, ls as nat) + crate::bytes::le_bytes(0, ls as nat)
            + crate::bytes::le_bytes(blocks, ls as nat) + crate::bytes::le_bytes(
            blocks * (10 + os as nat) + elements * size,
            ls as nat,
        ) + crate::bytes::le_bytes(n as nat, ls as nat) + crate::bytes::le_bytes(
            4 + elements,
            ls as nat,
        ) + crate::bytes::le_bytes(
            (base + crate::extensible_array::header_size(os, ls)) as nat,
            os as nat,
        ),
    )
}

/// The bytes of the index block: four elements, the addresses of six data blocks and those of
/// twenty-five super blocks.
pub open spec fn index_block_bytes(
    chunks: Seq<WrittenChunk>,
    os: u8,
    ls: u8,
    has_filters: bool,
    base: u64,
) -> Seq<u8> {
    summed(
        crate::extensible_array::eaib() + seq![0u8, client(has_filters)] + crate::bytes::le_bytes(
            base as nat,
            os as nat,
        ) + elements_bytes(chunks, 0, 4, os, has_filters, size_bytes(chunks, has_filters))
            + block_addresses(
            chunks,
            block_sizes(),
            4,
            6,
            os,
            has_filters,
            base,
            blocks_position(chunks, os, ls, has_filters, base),
        ) + super_addresses(
            chunks,
            SUPER_BLOCKS as int,
            os,
            has_filters,
            base,
            supers_position(chunks, os, ls, has_filters, base),
        ),
    )
}

/// The bytes of an Extensible Array at `base`.
pub open spec fn extensible_array_bytes(
    chunks: Seq<WrittenChunk>,
    os: u8,
    ls: u8,
    has_filters: bool,
    base: u64,
) -> Seq<u8> {
    extensible_header_bytes(chunks, os, ls, has_filters, base) + index_block_bytes(
        chunks,
        os,
        ls,
        has_filters,
        base,
    ) + listed_blocks(chunks, os, has_filters, base) + listed_supers(
        chunks,
        os,
        ls,
        has_filters,
        base,
    )
}

/// The length of an Extensible Array.
pub open spec fn extensible_array_size(
    chunks: Seq<WrittenChunk>,
    os: u8,
    ls: u8,
    has_filters: bool,
    base: u64,
) -> int {
    crate::extensible_array::header_size(os, ls) + index_block_size(chunks, os, has_filters)
        + listed_blocks(chunks, os, has_filters, base).len() + listed_supers(
        chunks,
        os,
        ls,
        has_filters,
        base,
    ).len()
}

// ---- Facts on data blocks and super blocks ----

proof fn lemma_elements_len(
    chunks: Seq<WrittenChunk>,
    from: int,
    count: int,
    os: u8,
    has_filters: bool,
    width: nat,
)
    requires
        count >= 0,
    ensures
        elements_bytes(chunks, from, count, os, has_filters, width).len() == count * (if has_filters {
            os + width + 4
        } else {
            os as int
        }),
    decreases count,
{
    let w: int = if has_filters {
        os + width + 4
    } else {
        os as int
    };
    if count > 0 {
        lemma_elements_len(chunks, from + 1, count - 1, os, has_filters, width);
        if from < chunks.len() {
            let c = chunks[from];
            crate::bytes::lemma_le_bytes_len(c.address as nat, os as nat);
            crate::bytes::lemma_le_bytes_len(c.compressed_size as nat, width);
            crate::bytes::lemma_le_bytes_len(c.filter_mask as nat, 4);
        }
        assert(count * w == w + (count - 1) * w) by (nonlinear_arith);
    } else {
        assert(0 * w == 0);
    }
}

pub(crate) proof fn lemma_summed_len(body: Seq<u8>)
    ensures
        summed(body).len() == body.len() + 4,
{
    crate::bytes::lemma_le_bytes_len(crate::checksum::lookup3(body) as nat, 4);
}

/// The length of a data block.
pub(crate) proof fn lemma_block_len(
    chunks: Seq<WrittenChunk>,
    from: int,
    count: int,
    os: u8,
    has_filters: bool,
    base: u64,
)
    requires
        count >= 0,
    ensures
        block_bytes(chunks, from, count, os, has_filters, base).len() == 14 + os + count
            * element_bytes(chunks, os, has_filters),
{
    reveal(block_bytes);
    let w = size_bytes(chunks, has_filters);
    lemma_elements_len(chunks, from, count, os, has_filters, w);
    crate::bytes::lemma_le_bytes_len(base as nat, os as nat);
    crate::bytes::lemma_le_bytes_len((from - 4) as nat, 4);
    lemma_summed_len(
        crate::extensible_array::eadb() + seq![0u8, client(has_filters)] + crate::bytes::le_bytes(
            base as nat,
            os as nat,
        ) + crate::bytes::le_bytes((from - 4) as nat, 4) + elements_bytes(
            chunks,
            from,
            count,
            os,
            has_filters,
            w,
        ),
    );
}

/// The first data blocks of a list stand in front of the others.
pub(crate) proof fn lemma_blocks_prefix(
    chunks: Seq<WrittenChunk>,
    sizes: Seq<usize>,
    first: int,
    i: int,
    n: int,
    os: u8,
    has_filters: bool,
    base: u64,
)
    requires
        0 <= i <= n,
    ensures
        ({
            let a = blocks_bytes(chunks, sizes, first, i, os, has_filters, base);
            let b = blocks_bytes(chunks, sizes, first, n, os, has_filters, base);
            &&& a.len() <= b.len()
            &&& b.subrange(0, a.len() as int) == a
        }),
    decreases n - i,
{
    let a = blocks_bytes(chunks, sizes, first, i, os, has_filters, base);
    let b = blocks_bytes(chunks, sizes, first, n, os, has_filters, base);
    if i < n {
        let c = blocks_bytes(chunks, sizes, first, n - 1, os, has_filters, base);
        lemma_blocks_prefix(chunks, sizes, first, i, n - 1, os, has_filters, base);
        assert(b.subrange(0, a.len() as int) =~= c.subrange(0, a.len() as int));
    } else {
        assert(b.subrange(0, a.len() as int) =~= a);
    }
}

/// The super blocks up to one stand in front of the later ones.
pub(crate) proof fn lemma_supers_prefix(
    chunks: Seq<WrittenChunk>,
    k: int,
    n: int,
    os: u8,
    has_filters: bool,
    base: u64,
    start: int,
)
    requires
        4 <= k <= n,
    ensures
        ({
            let a = supers_bytes(chunks, k, os, has_filters, base, start);
            let b = supers_bytes(chunks, n, os, has_filters, base, start);
            &&& a.len() <= b.len()
            &&& b.subrange(0, a.len() as int) == a
        }),
    decreases n - k,
{
    let a = supers_bytes(chunks, k, os, has_filters, base, start);
    let b = supers_bytes(chunks, n, os, has_filters, base, start);
    if k < n {
        let c = supers_bytes(chunks, n - 1, os, has_filters, base, start);
        lemma_supers_prefix(chunks, k, n - 1, os, has_filters, base, start);
        assert(b.subrange(0, a.len() as int) =~= c.subrange(0, a.len() as int));
    } else {
        assert(b.subrange(0, a.len() as int) =~= a);
    }
}

pub(crate) proof fn lemma_addresses_len(
    chunks: Seq<WrittenChunk>,
    sizes: Seq<usize>,
    first: int,
    n: int,
    os: u8,
    has_filters: bool,
    base: u64,
    start: int,
)
    requires
        0 <= n,
    ensures
        block_addresses(chunks, sizes, first, n, os, has_filters, base, start).len() == n * os,
    decreases n,
{
    if n > 0 {
        lemma_addresses_len(chunks, sizes, first, n - 1, os, has_filters, base, start);
        crate::bytes::lemma_le_bytes_len(
            block_address(chunks, sizes, first, n - 1, os, has_filters, base, start) as nat,
            os as nat,
        );
        assert(n * os == (n - 1) * os + os) by (nonlinear_arith);
    } else {
        assert(0 * os == 0);
    }
}

pub(crate) proof fn lemma_super_addresses_len(
    chunks: Seq<WrittenChunk>,
    k: int,
    os: u8,
    has_filters: bool,
    base: u64,
    start: int,
)
    requires
        4 <= k,
    ensures
        super_addresses(chunks, k, os, has_filters, base, start).len() == (k - 4) * os,
    decreases k,
{
    if k > 4 {
        lemma_super_addresses_len(chunks, k - 1, os, has_filters, base, start);
        crate::bytes::lemma_le_bytes_len(
            super_address(chunks, k - 1, os, has_filters, base, start) as nat,
            os as nat,
        );
        assert((k - 4) * os == (k - 5) * os + os) by (nonlinear_arith);
    } else {
        assert(0 * os == 0);
    }
}

pub(crate) proof fn lemma_super_head_len(
    chunks: Seq<WrittenChunk>,
    k: int,
    os: u8,
    has_filters: bool,
    base: u64,
    at: int,
)
    requires
        0 <= k,
    ensures
        super_head(chunks, k, os, has_filters, base, at).len() == super_head_size(k, os),
{
    reveal(super_head);
    let start = at + super_head_size(k, os);
    let count = super_sizes(k).len() as int;
    lemma_addresses_len(
        chunks,
        super_sizes(k),
        super_start(k),
        count,
        os,
        has_filters,
        base,
        start,
    );
    crate::bytes::lemma_le_bytes_len(base as nat, os as nat);
    lemma_summed_len(
        crate::extensible_array::easb() + seq![0u8, client(has_filters)] + crate::bytes::le_bytes(
            base as nat,
            os as nat,
        ) + block_addresses(
            chunks,
            super_sizes(k),
            super_start(k),
            count,
            os,
            has_filters,
            base,
            start,
        ),
    );
}

/// The sizes of super blocks are small numbers.
pub(crate) proof fn lemma_super_bounds(k: int)
    requires
        0 <= k < SUPER_BLOCKS,
    ensures
        1 <= crate::extensible_array::super_count(k) <= 0x4000,
        16 <= crate::extensible_array::super_size(k, 16) <= 0x4_0000,
        crate::extensible_array::super_fits(k, 16),
        super_sizes(k).len() == crate::extensible_array::super_count(k),
{
    let a = (k / 2) as nat;
    let b = ((k + 1) / 2) as nat;
    vstd::arithmetic::power2::lemma2_to64();
    vstd::arithmetic::power2::lemma_pow2_pos(a);
    vstd::arithmetic::power2::lemma_pow2_pos(b);
    if a < 14 {
        vstd::arithmetic::power2::lemma_pow2_strictly_increases(a, 14);
    }
    if b < 14 {
        vstd::arithmetic::power2::lemma_pow2_strictly_increases(b, 14);
    }
}

/// The index of the first element of a super block is a small number.
pub(crate) proof fn lemma_super_start(k: int)
    requires
        0 <= k <= SUPER_BLOCKS,
    ensures
        4 <= super_start(k) <= 4 + k * 0x1_0000_0000,
    decreases k,
{
    if k > 0 {
        lemma_super_start(k - 1);
        lemma_super_bounds(k - 1);
        let a = crate::extensible_array::super_count(k - 1) as int;
        let b = crate::extensible_array::super_size(k - 1, 16);
        assert(0 <= a * b <= 0x1_0000_0000) by (nonlinear_arith)
            requires
                0 <= a <= 0x4000,
                0 <= b <= 0x4_0000,
        ;
    }
}

/// Data blocks of bounded sizes take bounded room.
proof fn lemma_blocks_room(
    chunks: Seq<WrittenChunk>,
    sizes: Seq<usize>,
    first: int,
    n: int,
    os: u8,
    has_filters: bool,
    base: u64,
)
    requires
        0 <= n <= sizes.len(),
        forall|i: int| 0 <= i < sizes.len() ==> #[trigger] sizes[i] <= 0x4_0000,
    ensures
        blocks_bytes(chunks, sizes, first, n, os, has_filters, base).len() <= n * 0x800_0000,
    decreases n,
{
    if n > 0 {
        lemma_blocks_room(chunks, sizes, first, n - 1, os, has_filters, base);
        let from = block_start(sizes, first, n - 1);
        lemma_block_len(chunks, from, sizes[n - 1] as int, os, has_filters, base);
        let a = sizes[n - 1] as int;
        let b = element_bytes(chunks, os, has_filters) as int;
        assert(b <= 267);
        assert(a * b <= 0x4_0000 * 267) by (nonlinear_arith)
            requires
                0 <= a <= 0x4_0000,
                0 <= b <= 267,
        ;
    }
}

/// Super blocks take bounded room.
proof fn lemma_supers_room(
    chunks: Seq<WrittenChunk>,
    k: int,
    os: u8,
    has_filters: bool,
    base: u64,
    start: int,
)
    requires
        4 <= k <= SUPER_BLOCKS,
    ensures
        supers_bytes(chunks, k, os, has_filters, base, start).len() <= k * 0x400_0000_0000,
    decreases k,
{
    if k > 4 {
        lemma_supers_room(chunks, k - 1, os, has_filters, base, start);
        lemma_super_bounds(k - 1);
        let before = supers_bytes(chunks, k - 1, os, has_filters, base, start);
        lemma_super_head_len(chunks, k - 1, os, has_filters, base, start + before.len());
        reveal(super_blocks);
        let n = crate::extensible_array::super_count(k - 1) as int;
        lemma_blocks_room(
            chunks,
            super_sizes(k - 1),
            super_start(k - 1),
            n,
            os,
            has_filters,
            base,
        );
        assert(n * os <= 0x4000 * 255) by (nonlinear_arith)
            requires
                0 <= n <= 0x4000,
                0 <= os <= 255,
        ;
    }
}

// ---- Writing an Extensible Array ----

fn list_block_sizes() -> (sizes: Vec<usize>)
    ensures
        sizes@ == block_sizes(),
{
    let mut sizes: Vec<usize> = Vec::new();
    sizes.push(16);
    sizes.push(32);
    sizes.push(32);
    sizes.push(32);
    sizes.push(64);
    sizes.push(64);
    assert(sizes@ =~= block_sizes());
    sizes
}

/// The sizes of the data blocks of super block `k`.
fn list_super_sizes(k: u8) -> (sizes: Vec<usize>)
    requires
        k < SUPER_BLOCKS,
    ensures
        sizes@ == super_sizes(k as int),
{
    proof {
        lemma_super_bounds(k as int);
    }
    let (count, size) = super_info(k, 16);
    let mut sizes: Vec<usize> = Vec::with_capacity(count);
    let mut i: usize = 0;
    while i < count
        invariant
            i <= count,
            sizes@ == crate::extensible_array::equal_sizes(i as nat, size),
        decreases count - i,
    {
        sizes.push(size);
        i += 1;
        assert(sizes@ =~= crate::extensible_array::equal_sizes(i as nat, size));
    }
    sizes
}

/// The number of data blocks of a list that hold chunks, and of their elements.
fn count_active(num_elements: usize, sizes: &Vec<usize>, first: u64) -> (r: (u64, u64))
    requires
        first <= 0x100_0000_0000,
        sizes@.len() <= 0x4000,
        forall|i: int| 0 <= i < sizes@.len() ==> #[trigger] sizes@[i] <= 0x4_0000,
    ensures
        r.0 == active_blocks(num_elements as int, sizes@, first as int, sizes@.len() as int),
        r.1 == active_elements(num_elements as int, sizes@, first as int, sizes@.len() as int),
        r.0 <= 0x4000,
        r.1 <= 0x1_0000_0000,
{
    let mut count: u64 = 0;
    let mut elements: u64 = 0;
    let mut start: u64 = first;
    let mut i: usize = 0;
    while i < sizes.len()
        invariant
            i <= sizes@.len() <= 0x4000,
            first <= 0x100_0000_0000,
            forall|j: int| 0 <= j < sizes@.len() ==> #[trigger] sizes@[j] <= 0x4_0000,
            start == block_start(sizes@, first as int, i as int),
            start <= first + 0x4_0000 * i,
            count == active_blocks(num_elements as int, sizes@, first as int, i as int),
            elements == active_elements(num_elements as int, sizes@, first as int, i as int),
            count <= i,
            elements <= 0x4_0000 * i,
        decreases sizes@.len() - i,
    {
        let size: usize = sizes[i];
        if start < num_elements as u64 {
            count += 1;
            elements += size as u64;
        }
        start += size as u64;
        i += 1;
    }
    (count, elements)
}

/// The number of all data blocks that hold chunks, and of their elements.
fn count_all(num_elements: usize) -> (r: (u64, u64))
    ensures
        r.0 == all_blocks(num_elements as int, SUPER_BLOCKS as int),
        r.1 == all_elements(num_elements as int, SUPER_BLOCKS as int),
        r.0 <= 30 * 0x4000,
        r.1 <= 30 * 0x1_0000_0000,
{
    let sizes = list_block_sizes();
    let (mut count, mut elements) = count_active(num_elements, &sizes, 4);
    let mut start: u64 = 244;
    let mut k: u8 = 4;
    proof {
        lemma_fourth();
    }
    while (k as usize) < SUPER_BLOCKS
        invariant
            4 <= k <= SUPER_BLOCKS,
            start == super_start(k as int),
            count == all_blocks(num_elements as int, k as int),
            elements == all_elements(num_elements as int, k as int),
            count <= k * 0x4000,
            elements <= k * 0x1_0000_0000,
        decreases SUPER_BLOCKS - k,
    {
        proof {
            lemma_super_bounds(k as int);
            lemma_super_start(k as int);
        }
        let sizes = list_super_sizes(k);
        let (more, more_elements) = count_active(num_elements, &sizes, start);
        count += more;
        elements += more_elements;
        start = next_super(k, start);
        k += 1;
    }
    (count, elements)
}

/// The first super block behind the listed data blocks.
pub(crate) proof fn lemma_fourth()
    ensures
        super_start(4) == 244,
        block_start(block_sizes(), 4, 6) == 244,
        crate::extensible_array::direct_sizes(0, 4, 16) == block_sizes(),
{
    reveal_with_fuel(super_start, 5);
    reveal_with_fuel(crate::extensible_array::sum_to, 7);
    reveal_with_fuel(crate::extensible_array::direct_sizes, 5);
    vstd::arithmetic::power2::lemma2_to64();
    assert(crate::extensible_array::direct_sizes(0, 4, 16) =~= block_sizes());
}

/// The index of the first element of the super block behind the `k`-th, which starts at `start`.
fn next_super(k: u8, start: u64) -> (next: u64)
    requires
        k < SUPER_BLOCKS,
        start == super_start(k as int),
    ensures
        next == super_start(k + 1),
{
    proof {
        lemma_super_bounds(k as int);
        lemma_super_start(k + 1);
        let a = crate::extensible_array::super_count(k as int) as int;
        let b = crate::extensible_array::super_size(k as int, 16);
        assert(0 <= a * b <= 0x1_0000_0000) by (nonlinear_arith)
            requires
                0 <= a <= 0x4000,
                0 <= b <= 0x4_0000,
        ;
    }
    let (count, size) = super_info(k, 16);
    start + (count as u64) * (size as u64)
}

/// Appends the data block for the `size` elements from `start` on.
fn write_block(
    buf: &mut Vec<u8>,
    chunks: &[WrittenChunk],
    start: usize,
    size: usize,
    offset_size: u8,
    has_filters: bool,
    chunk_size_bytes: usize,
    ea_base_address: u64,
)
    requires
        start >= 4,
        chunk_size_bytes == size_bytes(chunks@, has_filters),
        chunk_size_bytes <= 8,
    ensures
        final(buf)@ == old(buf)@ + block_bytes(
            chunks@,
            start as int,
            size as int,
            offset_size,
            has_filters,
            ea_base_address,
        ),
{
    let client_id: u8 = if has_filters {
        1
    } else {
        0
    };
    let mut aedb: Vec<u8> = Vec::new();
    aedb.push(0x45);
    aedb.push(0x41);
    aedb.push(0x44);
    aedb.push(0x42);
    aedb.push(0);  // version
    aedb.push(client_id);
    assert(aedb@ =~= crate::extensible_array::eadb() + seq![0u8, client_id]);
    put_le(&mut aedb, ea_base_address, offset_size as usize);
    // Block offset: the index of the first element in this data block, behind the inline ones
    put_le(&mut aedb, (start - 4) as u64, 4);
    write_elements(
        &mut aedb,
        chunks,
        start,
        size,
        offset_size,
        has_filters,
        chunk_size_bytes,
    );
    put_checksum(&mut aedb);
    proof {
        reveal(block_bytes);
    }
    put_slice(buf, aedb.as_slice());
}

/// Appends the addresses of the data blocks of a list, which starts with element `first`, and
/// returns the data blocks.
#[verifier::rlimit(60)]
fn write_blocks(
    list: &mut Vec<u8>,
    chunks: &[WrittenChunk],
    sizes: &Vec<usize>,
    first: u64,
    offset_size: u8,
    has_filters: bool,
    chunk_size_bytes: usize,
    ea_base_address: u64,
    dblks_base: u64,
) -> (data_blocks: Vec<u8>)
    requires
        offset_size <= 8,
        chunk_size_bytes == size_bytes(chunks@, has_filters),
        chunk_size_bytes <= 8,
        4 <= first <= 0x100_0000_0000,
        sizes@.len() <= 0x4000,
        forall|i: int| 0 <= i < sizes@.len() ==> #[trigger] sizes@[i] <= 0x4_0000,
        dblks_base + blocks_bytes(
            chunks@,
            sizes@,
            first as int,
            sizes@.len() as int,
            offset_size,
            has_filters,
            ea_base_address,
        ).len() <= u64::MAX,
    ensures
        data_blocks@ == blocks_bytes(
            chunks@,
            sizes@,
            first as int,
            sizes@.len() as int,
            offset_size,
            has_filters,
            ea_base_address,
        ),
        final(list)@ == old(list)@ + block_addresses(
            chunks@,
            sizes@,
            first as int,
            sizes@.len() as int,
            offset_size,
            has_filters,
            ea_base_address,
            dblks_base as int,
        ),
{
    let num_elements: usize = chunks.len();
    let mut data_blocks: Vec<u8> = Vec::new();
    let ghost front = list@;
    let mut start: u64 = first;
    let mut i: usize = 0;
    assert(data_blocks@ =~= Seq::<u8>::empty());
    assert(list@ =~= front + block_addresses(
        chunks@,
        sizes@,
        first as int,
        0,
        offset_size,
        has_filters,
        ea_base_address,
        dblks_base as int,
    ));
    while i < sizes.len()
        invariant
            i <= sizes@.len() <= 0x4000,
            offset_size <= 8,
            num_elements == chunks@.len(),
            front == old(list)@,
            4 <= first <= 0x100_0000_0000,
            forall|j: int| 0 <= j < sizes@.len() ==> #[trigger] sizes@[j] <= 0x4_0000,
            start == block_start(sizes@, first as int, i as int),
            first <= start <= first + 0x4_0000 * i,
            chunk_size_bytes == size_bytes(chunks@, has_filters),
            chunk_size_bytes <= 8,
            dblks_base + blocks_bytes(
                chunks@,
                sizes@,
                first as int,
                sizes@.len() as int,
                offset_size,
                has_filters,
                ea_base_address,
            ).len() <= u64::MAX,
            data_blocks@ == blocks_bytes(
                chunks@,
                sizes@,
                first as int,
                i as int,
                offset_size,
                has_filters,
                ea_base_address,
            ),
            list@ == front + block_addresses(
                chunks@,
                sizes@,
                first as int,
                i as int,
                offset_size,
                has_filters,
                ea_base_address,
                dblks_base as int,
            ),
        decreases sizes@.len() - i,
    {
        let size: usize = sizes[i];
        proof {
            lemma_blocks_prefix(
                chunks@,
                sizes@,
                first as int,
                i as int,
                sizes@.len() as int,
                offset_size,
                has_filters,
                ea_base_address,
            );
            let done = block_addresses(
                chunks@,
                sizes@,
                first as int,
                i as int,
                offset_size,
                has_filters,
                ea_base_address,
                dblks_base as int,
            );
            let address = block_address(
                chunks@,
                sizes@,
                first as int,
                i as int,
                offset_size,
                has_filters,
                ea_base_address,
                dblks_base as int,
            );
            let a = crate::bytes::le_bytes(address as nat, offset_size as nat);
            assert(front + done + a =~= front + (done + a));
        }
        if start < num_elements as u64 {
            // This data block's address
            put_le(list, dblks_base + data_blocks.len() as u64, offset_size as usize);
            write_block(
                &mut data_blocks,
                chunks,
                start as usize,
                size,
                offset_size,
                has_filters,
                chunk_size_bytes,
                ea_base_address,
            );
        } else {
            // No more chunks: undefined address
            put_le(list, u64::MAX, offset_size as usize);
        }
        start += size as u64;
        i += 1;
    }
    data_blocks
}

/// Appends super block `k`, which stands at `at`, and its data blocks.
fn write_super(
    buf: &mut Vec<u8>,
    chunks: &[WrittenChunk],
    k: u8,
    start: u64,
    offset_size: u8,
    has_filters: bool,
    chunk_size_bytes: usize,
    ea_base_address: u64,
    at: u64,
)
    requires
        4 <= k < SUPER_BLOCKS,
        start == super_start(k as int),
        offset_size <= 8,
        chunk_size_bytes == size_bytes(chunks@, has_filters),
        chunk_size_bytes <= 8,
        at + super_head_size(k as int, offset_size) + super_blocks(
            chunks@,
            k as int,
            offset_size,
            has_filters,
            ea_base_address,
        ).len() <= u64::MAX,
    ensures
        final(buf)@ == old(buf)@ + super_head(
            chunks@,
            k as int,
            offset_size,
            has_filters,
            ea_base_address,
            at as int,
        ) + super_blocks(chunks@, k as int, offset_size, has_filters, ea_base_address),
{
    proof {
        reveal(super_head);
        reveal(super_blocks);
        lemma_super_bounds(k as int);
        lemma_super_start(k as int);
        assert(crate::extensible_array::super_count(k as int) * offset_size <= 0x4000 * 8)
            by (nonlinear_arith)
            requires
                0 <= crate::extensible_array::super_count(k as int) <= 0x4000,
                0 <= offset_size <= 8,
        ;
    }
    let sizes = list_super_sizes(k);
    let client_id: u8 = if has_filters {
        1
    } else {
        0
    };
    let mut aesb: Vec<u8> = Vec::new();
    aesb.push(0x45);
    aesb.push(0x41);
    aesb.push(0x53);
    aesb.push(0x42);
    aesb.push(0);  // version
    aesb.push(client_id);
    assert(aesb@ =~= crate::extensible_array::easb() + seq![0u8, client_id]);
    put_le(&mut aesb, ea_base_address, offset_size as usize);
    let head: u64 = 10 + offset_size as u64 + (sizes.len() as u64) * (offset_size as u64);
    let data_blocks = write_blocks(
        &mut aesb,
        chunks,
        &sizes,
        start,
        offset_size,
        has_filters,
        chunk_size_bytes,
        ea_base_address,
        at + head,
    );
    put_checksum(&mut aesb);
    put_slice(buf, aesb.as_slice());
    put_slice(buf, data_blocks.as_slice());
}

/// Appends the addresses of the super blocks to the index block, and returns the super blocks with
/// their data blocks.
#[verifier::rlimit(60)]
fn write_supers(
    aeib: &mut Vec<u8>,
    chunks: &[WrittenChunk],
    offset_size: u8,
    has_filters: bool,
    chunk_size_bytes: usize,
    ea_base_address: u64,
    supers_base: u64,
) -> (supers: Vec<u8>)
    requires
        offset_size <= 8,
        chunk_size_bytes == size_bytes(chunks@, has_filters),
        chunk_size_bytes <= 8,
        supers_base + supers_bytes(
            chunks@,
            SUPER_BLOCKS as int,
            offset_size,
            has_filters,
            ea_base_address,
            supers_base as int,
        ).len() <= u64::MAX,
    ensures
        supers@ == supers_bytes(
            chunks@,
            SUPER_BLOCKS as int,
            offset_size,
            has_filters,
            ea_base_address,
            supers_base as int,
        ),
        final(aeib)@ == old(aeib)@ + super_addresses(
            chunks@,
            SUPER_BLOCKS as int,
            offset_size,
            has_filters,
            ea_base_address,
            supers_base as int,
        ),
{
    let num_elements: usize = chunks.len();
    let mut supers: Vec<u8> = Vec::new();
    let ghost front = aeib@;
    let mut start: u64 = 244;
    let mut k: u8 = 4;
    proof {
        lemma_fourth();
    }
    assert(supers@ =~= Seq::<u8>::empty());
    assert(aeib@ =~= front + super_addresses(
        chunks@,
        4,
        offset_size,
        has_filters,
        ea_base_address,
        supers_base as int,
    ));
    while (k as usize) < SUPER_BLOCKS
        invariant
            4 <= k <= SUPER_BLOCKS,
            offset_size <= 8,
            num_elements == chunks@.len(),
            front == old(aeib)@,
            start == super_start(k as int),
            chunk_size_bytes == size_bytes(chunks@, has_filters),
            chunk_size_bytes <= 8,
            supers_base + supers_bytes(
                chunks@,
                SUPER_BLOCKS as int,
                offset_size,
                has_filters,
                ea_base_address,
                supers_base as int,
            ).len() <= u64::MAX,
            supers@ == supers_bytes(
                chunks@,
                k as int,
                offset_size,
                has_filters,
                ea_base_address,
                supers_base as int,
            ),
            aeib@ == front + super_addresses(
                chunks@,
                k as int,
                offset_size,
                has_filters,
                ea_base_address,
                supers_base as int,
            ),
        decreases SUPER_BLOCKS - k,
    {
        proof {
            let base = supers_base as int;
            lemma_supers_prefix(
                chunks@,
                k + 1,
                SUPER_BLOCKS as int,
                offset_size,
                has_filters,
                ea_base_address,
                base,
            );
            lemma_super_head_len(
                chunks@,
                k as int,
                offset_size,
                has_filters,
                ea_base_address,
                base + supers@.len(),
            );
            let done = super_addresses(
                chunks@,
                k as int,
                offset_size,
                has_filters,
                ea_base_address,
                base,
            );
            let address = super_address(
                chunks@,
                k as int,
                offset_size,
                has_filters,
                ea_base_address,
                base,
            );
            let a = crate::bytes::le_bytes(address as nat, offset_size as nat);
            assert(front + done + a =~= front + (done + a));
        }
        if start < num_elements as u64 {
            // This super block's address
            let at: u64 = supers_base + supers.len() as u64;
            put_le(aeib, at, offset_size as usize);
            write_super(
                &mut supers,
                chunks,
                k,
                start,
                offset_size,
                has_filters,
                chunk_size_bytes,
                ea_base_address,
                at,
            );
        } else {
            // No more chunks: undefined address
            put_le(aeib, u64::MAX, offset_size as usize);
        }
        start = next_super(k, start);
        k += 1;
    }
    supers
}

/// The header of an Extensible Array whose elements take `elem_size` bytes.
#[verifier::spinoff_prover]
#[verifier::rlimit(40)]
fn write_extensible_header(
    chunks: &[WrittenChunk],
    offset_size: u8,
    length_size: u8,
    has_filters: bool,
    elem_size: usize,
    ea_base_address: u64,
) -> (aehd: Vec<u8>)
    requires
        offset_size <= 8,
        elem_size == element_bytes(chunks@, offset_size, has_filters),
        elem_size <= 20,
        ea_base_address + crate::extensible_array::header_size(offset_size, length_size)
            <= u64::MAX,
    ensures
        aehd@ == extensible_header_bytes(
            chunks@,
            offset_size,
            length_size,
            has_filters,
            ea_base_address,
        ),
{
    let os: usize = offset_size as usize;
    let ls: usize = length_size as usize;
    let num_elements: usize = chunks.len();
    let client_id: u8 = if has_filters {
        1
    } else {
        0
    };
    let aehd_size: u64 = 16 + 6 * (length_size as u64) + offset_size as u64;
    let aeib_address: u64 = ea_base_address + aehd_size;
    let (n_active, n_elements) = count_all(num_elements);
    proof {
        assert(n_elements * elem_size <= 30 * 0x1_0000_0000 * 20) by (nonlinear_arith)
            requires
                0 <= n_elements <= 30 * 0x1_0000_0000,
                0 <= elem_size <= 20,
        ;
        assert(n_active * (10 + os) <= 30 * 0x4000 * 18) by (nonlinear_arith)
            requires
                0 <= n_active <= 30 * 0x4000,
                0 <= os <= 8,
        ;
    }
    let data_blk_total_size: u64 = n_active * (10 + offset_size as u64) + n_elements * (
    elem_size as u64);
    let mut aehd: Vec<u8> = Vec::new();
    aehd.push(0x45);
    aehd.push(0x41);
    aehd.push(0x48);
    aehd.push(0x44);
    aehd.push(0);  // version
    aehd.push(client_id);
    aehd.push(elem_size as u8);
    aehd.push(32);  // max_nelmts_bits
    aehd.push(4);  // idx_blk_elmts
    aehd.push(16);  // min_dblk_nelmts
    aehd.push(4);  // super_blk_min_nelmts
    aehd.push(10);  // max_dblk_nelmts_bits
    assert(aehd@ =~= crate::extensible_array::eahd() + seq![
        0u8,
        client_id,
        elem_size as u8,
        32u8,
        4u8,
        16u8,
        4u8,
        10u8,
    ]);
    // 6 stats fields: two reserved, ndata_blks, data_blk_total_size, nelmts, max_idx_set
    put_le(&mut aehd, 0, ls);
    put_le(&mut aehd, 0, ls);
    put_le(&mut aehd, n_active, ls);
    put_le(&mut aehd, data_blk_total_size, ls);
    put_le(&mut aehd, num_elements as u64, ls);
    put_le(&mut aehd, 4 + n_elements, ls);
    put_le(&mut aehd, aeib_address, os);
    put_checksum(&mut aehd);
    aehd
}

/// The index block without its addresses and its checksum.
fn write_index_front(
    chunks: &[WrittenChunk],
    offset_size: u8,
    has_filters: bool,
    chunk_size_bytes: usize,
    ea_base_address: u64,
) -> (aeib: Vec<u8>)
    requires
        chunk_size_bytes <= 8,
    ensures
        aeib@ == crate::extensible_array::eaib() + seq![0u8, client(has_filters)]
            + crate::bytes::le_bytes(ea_base_address as nat, offset_size as nat) + elements_bytes(
            chunks@,
            0,
            4,
            offset_size,
            has_filters,
            chunk_size_bytes as nat,
        ),
{
    let client_id: u8 = if has_filters {
        1
    } else {
        0
    };
    let mut aeib: Vec<u8> = Vec::new();
    aeib.push(0x45);
    aeib.push(0x41);
    aeib.push(0x49);
    aeib.push(0x42);
    aeib.push(0);  // version
    aeib.push(client_id);
    assert(aeib@ =~= crate::extensible_array::eaib() + seq![0u8, client_id]);
    // header address
    put_le(&mut aeib, ea_base_address, offset_size as usize);
    // Inline elements (all slots, unused ones undefined)
    write_elements(&mut aeib, chunks, 0, 4, offset_size, has_filters, chunk_size_bytes);
    aeib
}

/// Build a complete Extensible Array at a known absolute address.
///
/// The first elements stand inline in the index block, the next ones in data blocks that the index
/// block lists, and the others in the data blocks of super blocks. There is room for the chunks in
/// front of `super_start(SUPER_BLOCKS)`, more than eight billion; none is written behind them.
#[verifier::spinoff_prover]
#[verifier::rlimit(40)]
pub fn build_extensible_array_at(
    chunks: &[WrittenChunk],
    offset_size: u8,
    length_size: u8,
    has_filters: bool,
    ea_base_address: u64,
) -> (combined: Vec<u8>)
    requires
        offset_size == 4 || offset_size == 8,
        length_size == 4 || length_size == 8,
        ea_base_address + extensible_array_size(
            chunks@,
            offset_size,
            length_size,
            has_filters,
            ea_base_address,
        ) <= u64::MAX,
    ensures
        combined@ == extensible_array_bytes(
            chunks@,
            offset_size,
            length_size,
            has_filters,
            ea_base_address,
        ),
{
    let os: usize = offset_size as usize;
    // Element encoding size (same logic as Fixed Array)
    let chunk_size_bytes: usize = if has_filters {
        encoded_size_width(chunks)
    } else {
        0
    };
    let elem_size: usize = if has_filters {
        os + chunk_size_bytes + 4
    } else {
        os
    };
    let aehd_size: u64 = 16 + 6 * (length_size as u64) + offset_size as u64;
    let aeib_size: u64 = 10 + 32 * (offset_size as u64) + 4 * (elem_size as u64);
    let dblks_base: u64 = ea_base_address + aehd_size + aeib_size;
    let mut combined = write_extensible_header(
        chunks,
        offset_size,
        length_size,
        has_filters,
        elem_size,
        ea_base_address,
    );
    let mut aeib = write_index_front(
        chunks,
        offset_size,
        has_filters,
        chunk_size_bytes,
        ea_base_address,
    );
    // Data block addresses + build data blocks
    let sizes = list_block_sizes();
    let data_blocks = write_blocks(
        &mut aeib,
        chunks,
        &sizes,
        4,
        offset_size,
        has_filters,
        chunk_size_bytes,
        ea_base_address,
        dblks_base,
    );
    // Super block addresses + build super blocks
    let supers = write_supers(
        &mut aeib,
        chunks,
        offset_size,
        has_filters,
        chunk_size_bytes,
        ea_base_address,
        dblks_base + data_blocks.len() as u64,
    );
    put_checksum(&mut aeib);
    put_slice(&mut combined, aeib.as_slice());
    put_slice(&mut combined, data_blocks.as_slice());
    put_slice(&mut combined, supers.as_slice());
    combined
}

// ---- The whole data set ----

/// What is stored of the bytes of a chunk.
pub open spec fn stored(d: Seq<u8>, pipeline: Option<PipelineModel>, size: u32) -> Result<
    Seq<u8>,
    ErrorModel,
> {
    match pipeline {
        Some(pl) => crate::filters::compressed(pl.filters, 0, d, size),
        None => Ok(d),
    }
}

/// `buf` up to the next cache line.
pub open spec fn padded(buf: Seq<u8>) -> Seq<u8> {
    buf + Seq::new(
        (crate::chunk_cache::aligned(buf.len() as int) - buf.len()) as nat,
        |i: int| 0u8,
    )
}

/// A data set to be written in chunks.
pub struct DatasetModel {
    pub raw: Seq<u8>,
    pub shape: Seq<u64>,
    pub chunk: Seq<u64>,
    pub size: usize,
    pub pipeline: Option<PipelineModel>,
    pub base: u64,
}

impl DatasetModel {
    /// The bytes of chunk `i`.
    pub open spec fn chunk_bytes(self, i: int) -> Seq<u8> {
        chunk_of(self.raw, self.shape, self.chunk, self.size as int, i).1
    }

    /// The number of chunks.
    pub open spec fn count(self) -> int {
        chunk_total(self.shape, self.chunk) as int
    }

    /// The data of the first `n` chunks, each at the start of a cache line, and where it stands.
    pub open spec fn written(self, n: int) -> Result<(Seq<u8>, Seq<WrittenChunk>), ErrorModel>
        decreases n,
    {
        if n <= 0 {
            Ok((Seq::empty(), Seq::empty()))
        } else {
            match self.written(n - 1) {
                Err(e) => Err(e),
                Ok((buf, chunks)) => {
                    let d = self.chunk_bytes(n - 1);
                    match stored(d, self.pipeline, self.size as u32) {
                        Err(e) => Err(e),
                        Ok(c) => Ok(
                            (
                                padded(buf) + c,
                                chunks.push(
                                    WrittenChunk {
                                        address: (self.base + padded(buf).len()) as u64,
                                        compressed_size: c.len() as u64,
                                        raw_size: d.len() as u64,
                                        filter_mask: 0,
                                    },
                                ),
                            ),
                        ),
                    }
                },
            }
        }
    }

    /// The extents of a chunk in 32 bits.
    pub open spec fn extents(self) -> Seq<u32> {
        Seq::new(self.chunk.len(), |i: int| self.chunk[i] as u32)
    }

    /// The written data set: the chunks, then their index, and the messages that describe them.
    pub open spec fn built(self, extensible: bool) -> Result<ChunkedDataModel, ErrorModel> {
        match self.written(self.count()) {
            Err(e) => Err(e),
            Ok((buf, chunks)) => {
                let data = padded(buf);
                let address = (self.base + data.len()) as u64;
                let filtered = self.pipeline is Some;
                let size = self.size as u32;
                let (index, layout_message) = if extensible {
                    (
                        extensible_array_bytes(chunks, 8, 8, filtered, address),
                        extensible_array_layout(self.extents(), address, 8, size),
                    )
                } else if self.count() == 1 {
                    (
                        Seq::empty(),
                        single_chunk_layout(
                            self.extents(),
                            chunks[0].address,
                            if filtered {
                                Some(chunks[0].compressed_size)
                            } else {
                                None
                            },
                            if filtered {
                                Some(0u32)
                            } else {
                                None
                            },
                            8,
                            size,
                        ),
                    )
                } else {
                    (
                        fixed_array_bytes(chunks, 8, 8, filtered, address),
                        fixed_array_layout(self.extents(), address, 8, size, 10),
                    )
                };
                Ok(
                    ChunkedDataModel {
                        data_bytes: data + index,
                        layout_message,
                        pipeline_message: match self.pipeline {
                            Some(pl) => Some(pl.bytes()),
                            None => None,
                        },
                    },
                )
            },
        }
    }

    /// Whether every byte that is written has an address.
    pub open spec fn is_addressable(self, extensible: bool) -> bool {
        self.built(extensible) matches Ok(r) ==> self.base + r.data_bytes.len() <= u64::MAX
    }

    /// The same data set at another address.
    pub open spec fn moved(self, base: u64) -> DatasetModel {
        DatasetModel { base, ..self }
    }

    /// Whether the filters, undone, give each chunk back.
    pub open spec fn restorable(self) -> bool {
        self.pipeline matches Some(pl) ==> forall|i: int|
            0 <= i < self.count() ==> crate::filters::restores(
                pl.filters,
                #[trigger] self.chunk_bytes(i),
                self.size as u32,
            )
    }
}

/// The largest extents, where there are any.
pub open spec fn limits_of(maxshape: Option<&[u64]>) -> Option<Seq<u64>> {
    match maxshape {
        Some(dims) => Some(dims@),
        None => None,
    }
}

/// Whether the data set may grow without limit along some axis.
pub open spec fn is_unlimited(maxshape: Option<Seq<u64>>) -> bool {
    maxshape matches Some(dims) && dims.contains(u64::MAX)
}

/// The data set that is written with the given options.
pub open spec fn dataset_of(
    raw: Seq<u8>,
    shape: Seq<u64>,
    chunk: Seq<u64>,
    size: usize,
    options: ChunkOptions,
    base: u64,
) -> DatasetModel {
    DatasetModel { raw, shape, chunk, size, pipeline: options.pipeline(size as u32), base }
}

/// An error of one chunk is the error of all.
proof fn lemma_written_err(m: DatasetModel, k: int, n: int)
    requires
        0 <= k <= n,
        m.written(k) is Err,
    ensures
        m.written(n) == m.written(k),
    decreases n - k,
{
    if k < n {
        lemma_written_err(m, k, n - 1);
    }
}

// ---- The room that is taken ----

/// Whether chunks of the same raw sizes are written.
spec fn are_alike(a: Seq<WrittenChunk>, b: Seq<WrittenChunk>) -> bool {
    &&& a.len() == b.len()
    &&& forall|i: int| 0 <= i < a.len() ==> (#[trigger] a[i]).raw_size == b[i].raw_size
}

/// What is written of a data set does not depend on its place, but for the addresses.
proof fn lemma_written_moved(m: DatasetModel, base: u64, n: int)
    ensures
        match (m.written(n), m.moved(base).written(n)) {
            (Ok((data, chunks)), Ok((other, others))) => data == other && are_alike(chunks, others),
            (Err(e), Err(f)) => e == f,
            _ => false,
        },
    decreases n,
{
    if n > 0 {
        lemma_written_moved(m, base, n - 1);
        assert(m.moved(base).chunk_bytes(n - 1) == m.chunk_bytes(n - 1));
    }
}

proof fn lemma_largest_alike(a: Seq<WrittenChunk>, b: Seq<WrittenChunk>, n: int)
    requires
        are_alike(a, b),
        n <= a.len(),
    ensures
        largest_raw(a, n) == largest_raw(b, n),
    decreases n,
{
    if n > 0 {
        lemma_largest_alike(a, b, n - 1);
        assert(a[n - 1].raw_size == b[n - 1].raw_size);
    }
}

proof fn lemma_ea_header_len(chunks: Seq<WrittenChunk>, has_filters: bool, base: u64)
    ensures
        extensible_header_bytes(chunks, 8, 8, has_filters, base).len() == 72,
{
    let n = chunks.len();
    let size = element_bytes(chunks, 8, has_filters);
    let blocks = all_blocks(n as int, SUPER_BLOCKS as int);
    let elements = all_elements(n as int, SUPER_BLOCKS as int);
    let z = crate::bytes::le_bytes(0, 8);
    let a = crate::bytes::le_bytes(blocks, 8);
    let b = crate::bytes::le_bytes(blocks * (10 + 8u8 as nat) + elements * size, 8);
    let c = crate::bytes::le_bytes(n, 8);
    let e = crate::bytes::le_bytes(4 + elements, 8);
    let f = crate::bytes::le_bytes(
        (base + crate::extensible_array::header_size(8, 8)) as nat,
        8,
    );
    crate::bytes::lemma_le_bytes_len(0, 8);
    crate::bytes::lemma_le_bytes_len(blocks, 8);
    crate::bytes::lemma_le_bytes_len(blocks * (10 + 8u8 as nat) + elements * size, 8);
    crate::bytes::lemma_le_bytes_len(n, 8);
    crate::bytes::lemma_le_bytes_len(4 + elements, 8);
    crate::bytes::lemma_le_bytes_len(
        (base + crate::extensible_array::header_size(8, 8)) as nat,
        8,
    );
    let body = crate::extensible_array::eahd() + seq![
        0u8,
        client(has_filters),
        size as u8,
        32u8,
        4u8,
        16u8,
        4u8,
        10u8,
    ] + z + z + a + b + c + e + f;
    lemma_summed_len(body);
    assert(extensible_header_bytes(chunks, 8, 8, has_filters, base) == summed(body));
}

#[verifier::spinoff_prover]
#[verifier::rlimit(60)]
proof fn lemma_index_len(chunks: Seq<WrittenChunk>, has_filters: bool, base: u64)
    ensures
        index_block_bytes(chunks, 8, 8, has_filters, base).len() == index_block_size(
            chunks,
            8,
            has_filters,
        ),
{
    let width = size_bytes(chunks, has_filters);
    let start = blocks_position(chunks, 8, 8, has_filters, base);
    let supers = supers_position(chunks, 8, 8, has_filters, base);
    let a = crate::bytes::le_bytes(base as nat, 8);
    let b = elements_bytes(chunks, 0, 4, 8, has_filters, width);
    let c = block_addresses(chunks, block_sizes(), 4, 6, 8, has_filters, base, start);
    let e = super_addresses(chunks, SUPER_BLOCKS as int, 8, has_filters, base, supers);
    crate::bytes::lemma_le_bytes_len(base as nat, 8);
    lemma_elements_len(chunks, 0, 4, 8, has_filters, width);
    lemma_addresses_len(chunks, block_sizes(), 4, 6, 8, has_filters, base, start);
    lemma_super_addresses_len(chunks, SUPER_BLOCKS as int, 8, has_filters, base, supers);
    let body = crate::extensible_array::eaib() + seq![0u8, client(has_filters)] + a + b + c + e;
    lemma_summed_len(body);
    assert(index_block_bytes(chunks, 8, 8, has_filters, base) == summed(body));
}

/// An Extensible Array has the length of its parts, and is not too large.
#[verifier::spinoff_prover]
#[verifier::rlimit(60)]
proof fn lemma_extensible_len(chunks: Seq<WrittenChunk>, has_filters: bool, base: u64)
    ensures
        extensible_array_bytes(chunks, 8, 8, has_filters, base).len() == extensible_array_size(
            chunks,
            8,
            8,
            has_filters,
            base,
        ),
        extensible_array_size(chunks, 8, 8, has_filters, base) < 0x1_0000_0000_0000 - 64,
{
    lemma_ea_header_len(chunks, has_filters, base);
    lemma_index_len(chunks, has_filters, base);
    lemma_blocks_room(chunks, block_sizes(), 4, 6, 8, has_filters, base);
    lemma_supers_room(
        chunks,
        SUPER_BLOCKS as int,
        8,
        has_filters,
        base,
        supers_position(chunks, 8, 8, has_filters, base),
    );
}

/// Extensible Arrays of chunks of the same raw sizes take the same room.
#[verifier::spinoff_prover]
#[verifier::rlimit(40)]
proof fn lemma_extensible_alike(
    a: Seq<WrittenChunk>,
    b: Seq<WrittenChunk>,
    has_filters: bool,
    base: u64,
    other: u64,
)
    requires
        are_alike(a, b),
    ensures
        extensible_array_bytes(a, 8, 8, has_filters, base).len() == extensible_array_bytes(
            b,
            8,
            8,
            has_filters,
            other,
        ).len(),
{
    lemma_largest_alike(a, b, a.len() as int);
    lemma_extensible_len(a, has_filters, base);
    lemma_extensible_len(b, has_filters, other);
    lemma_blocks_alike(a, b, block_sizes(), 4, 6, has_filters, base, other);
    lemma_supers_alike(
        a,
        b,
        SUPER_BLOCKS as int,
        has_filters,
        base,
        other,
        supers_position(a, 8, 8, has_filters, base),
        supers_position(b, 8, 8, has_filters, other),
    );
}

/// A Fixed Array has the length of its parts.
proof fn lemma_fixed_len(chunks: Seq<WrittenChunk>, has_filters: bool, base: u64)
    ensures
        fixed_array_bytes(chunks, 8, 8, has_filters, base).len() == fixed_header_size(8, 8) + 18
            + chunks.len() * element_bytes(chunks, 8, has_filters),
{
    let width = size_bytes(chunks, has_filters);
    crate::bytes::lemma_le_bytes_len(chunks.len(), 8);
    crate::bytes::lemma_le_bytes_len((base + fixed_header_size(8, 8)) as nat, 8);
    crate::bytes::lemma_le_bytes_len(base as nat, 8);
    lemma_elements_len(chunks, 0, chunks.len() as int, 8, has_filters, width);
    assert forall|body: Seq<u8>| (#[trigger] summed(body)).len() == body.len() + 4 by {
        crate::bytes::lemma_le_bytes_len(crate::checksum::lookup3(body) as nat, 4);
    }
    assert(fixed_header_bytes(chunks, 8, 8, has_filters, base).len() == fixed_header_size(8, 8));
    assert(fixed_block_bytes(chunks, 8, has_filters, base).len() == 18 + chunks.len()
        * element_bytes(chunks, 8, has_filters));
}

proof fn lemma_blocks_alike(
    a: Seq<WrittenChunk>,
    b: Seq<WrittenChunk>,
    sizes: Seq<usize>,
    first: int,
    n: int,
    has_filters: bool,
    base: u64,
    other: u64,
)
    requires
        are_alike(a, b),
        0 <= n <= sizes.len(),
    ensures
        blocks_bytes(a, sizes, first, n, 8, has_filters, base).len() == blocks_bytes(
            b,
            sizes,
            first,
            n,
            8,
            has_filters,
            other,
        ).len(),
    decreases n,
{
    if n > 0 {
        lemma_blocks_alike(a, b, sizes, first, n - 1, has_filters, base, other);
        let from = block_start(sizes, first, n - 1);
        lemma_block_len(a, from, sizes[n - 1] as int, 8, has_filters, base);
        lemma_block_len(b, from, sizes[n - 1] as int, 8, has_filters, other);
        lemma_largest_alike(a, b, a.len() as int);
    }
}

proof fn lemma_supers_alike(
    a: Seq<WrittenChunk>,
    b: Seq<WrittenChunk>,
    k: int,
    has_filters: bool,
    base: u64,
    other: u64,
    start: int,
    other_start: int,
)
    requires
        are_alike(a, b),
        4 <= k,
    ensures
        supers_bytes(a, k, 8, has_filters, base, start).len() == supers_bytes(
            b,
            k,
            8,
            has_filters,
            other,
            other_start,
        ).len(),
    decreases k,
{
    if k > 4 {
        lemma_supers_alike(a, b, k - 1, has_filters, base, other, start, other_start);
        let x = supers_bytes(a, k - 1, 8, has_filters, base, start);
        let y = supers_bytes(b, k - 1, 8, has_filters, other, other_start);
        lemma_super_head_len(a, k - 1, 8, has_filters, base, start + x.len());
        lemma_super_head_len(b, k - 1, 8, has_filters, other, other_start + y.len());
        reveal(super_blocks);
        lemma_blocks_alike(
            a,
            b,
            super_sizes(k - 1),
            super_start(k - 1),
            super_sizes(k - 1).len() as int,
            has_filters,
            base,
            other,
        );
    }
}

/// A data set takes as much room at one address as at another, and fails to be written with the
/// same error.
proof fn lemma_room(m: DatasetModel, base: u64, extensible: bool)
    ensures
        match (m.built(extensible), m.moved(base).built(extensible)) {
            (Ok(r), Ok(s)) => r.data_bytes.len() == s.data_bytes.len(),
            (Err(e), Err(f)) => e == f,
            _ => false,
        },
{
    let other = m.moved(base);
    lemma_written_moved(m, base, m.count());
    assert(other.count() == m.count());
    if let Ok((buf, chunks)) = m.written(m.count()) {
        let others = other.written(m.count())->Ok_0.1;
        let here = (m.base + padded(buf).len()) as u64;
        let there = (base + padded(buf).len()) as u64;
        let filtered = m.pipeline is Some;
        lemma_largest_alike(chunks, others, chunks.len() as int);
        lemma_extensible_alike(chunks, others, filtered, here, there);
        lemma_fixed_len(chunks, filtered, here);
        lemma_fixed_len(others, filtered, there);
    }
}

/// A sum that is reduced to 64 bits.
proof fn lemma_wrapping_sum(a: u64, b: u64)
    ensures
        vstd::wrapping::u64_specs::wrapping_add(a, b) == (a + b) as u64,
{
    assert((a + b) as u64 == if a + b > 0xffff_ffff_ffff_ffff {
        a + b - 0x1_0000_0000_0000_0000
    } else {
        a + b
    }) by (bit_vector);
}

fn pad_to_line(buf: &mut Vec<u8>)
    ensures
        final(buf)@ == padded(old(buf)@),
{
    let len: usize = byte_len(buf.as_slice());
    let aligned: usize = align_to_cache_line(len);
    put_fill(buf, 0, aligned - len);
    assert(buf@ =~= padded(old(buf)@));
}

fn contains_unlimited(dims: &[u64]) -> (r: bool)
    ensures
        r == dims@.contains(u64::MAX),
{
    let mut k: usize = 0;
    while k < dims.len()
        invariant
            k <= dims@.len(),
            forall|j: int| 0 <= j < k ==> #[trigger] dims@[j] != u64::MAX,
        decreases dims@.len() - k,
    {
        if dims[k] == u64::MAX {
            assert(dims@[k as int] == u64::MAX);
            return true;
        }
        k += 1;
    }
    false
}

fn narrow_extents(dims: &[u64]) -> (r: Vec<u32>)
    ensures
        r@ == Seq::new(dims@.len(), |i: int| dims@[i] as u32),
{
    let mut r: Vec<u32> = Vec::with_capacity(dims.len());
    let mut k: usize = 0;
    while k < dims.len()
        invariant
            k <= dims@.len(),
            r@.len() == k,
            forall|i: int| 0 <= i < k ==> #[trigger] r@[i] == dims@[i] as u32,
        decreases dims@.len() - k,
    {
        r.push(dims[k] as u32);
        k += 1;
    }
    assert(r@ =~= Seq::new(dims@.len(), |i: int| dims@[i] as u32));
    r
}

/// Build chunked data with absolute addresses.
///
/// How large the filtered chunks are is known only when they are there. Where as much data as a
/// machine can hold, and its index, has addresses behind `base_address`, they fit in any case;
/// [`build_chunked_data_checked`] finds out for every other address.
pub fn build_chunked_data_at(
    raw_data: &[u8],
    shape: &[u64],
    chunk_dims: &[u64],
    element_size: usize,
    options: &ChunkOptions,
    base_address: u64,
) -> (r: Result<ChunkedDataResult, FormatError>)
    requires
        is_splittable(shape@, chunk_dims@, element_size as int),
        chunk_dims@.len() % 256 < 255,
        options.deflate_level matches Some(level) ==> level <= 10,
        base_address + isize::MAX + 0x1_0000_0000_0000 <= u64::MAX || dataset_of(
            raw_data@,
            shape@,
            chunk_dims@,
            element_size,
            *options,
            base_address,
        ).is_addressable(false),
    ensures
        ({
            let m = dataset_of(
                raw_data@,
                shape@,
                chunk_dims@,
                element_size,
                *options,
                base_address,
            );
            &&& crate::error::outcome(r) == m.built(false)
            &&& r is Ok ==> m.restorable()
        }),
{
    build_chunked_data_at_ext(
        raw_data,
        shape,
        chunk_dims,
        element_size,
        options,
        base_address,
        None,
    )
}

/// Build chunked data with absolute addresses and optional maxshape.
/// If `maxshape` has unlimited dims, uses an Extensible Array index.
///
/// As in [`build_chunked_data_at`], what is written must have addresses behind `base_address`.
pub fn build_chunked_data_at_ext(
    raw_data: &[u8],
    shape: &[u64],
    chunk_dims: &[u64],
    element_size: usize,
    options: &ChunkOptions,
    base_address: u64,
    maxshape: Option<&[u64]>,
) -> (r: Result<ChunkedDataResult, FormatError>)
    requires
        is_splittable(shape@, chunk_dims@, element_size as int),
        chunk_dims@.len() % 256 < 255,
        options.deflate_level matches Some(level) ==> level <= 10,
        base_address + isize::MAX + 0x1_0000_0000_0000 <= u64::MAX || dataset_of(
            raw_data@,
            shape@,
            chunk_dims@,
            element_size,
            *options,
            base_address,
        ).is_addressable(is_unlimited(limits_of(maxshape))),
    ensures
        ({
            let m = dataset_of(
                raw_data@,
                shape@,
                chunk_dims@,
                element_size,
                *options,
                base_address,
            );
            &&& crate::error::outcome(r) == m.built(is_unlimited(limits_of(maxshape)))
            &&& r is Ok ==> m.restorable()
        }),
{
    let size: u32 = element_size as u32;
    let pipeline = options.build_pipeline(size);
    let chunks = split_into_chunks(raw_data, shape, chunk_dims, element_size);
    let num_chunks: usize = chunks.len();
    let has_filters = pipeline.is_some();
    let ghost m = dataset_of(
        raw_data@,
        shape@,
        chunk_dims@,
        element_size,
        *options,
        base_address,
    );
    proof {
        if let Some(pl) = m.pipeline {
            assert(crate::filters::levels_fit(pl.filters));
        }
    }
    // Compress each chunk, padding to cache-line boundaries for aligned access
    let mut data_buf: Vec<u8> = Vec::new();
    let mut written_chunks: Vec<WrittenChunk> = Vec::new();
    let mut k: usize = 0;
    assert(data_buf@ =~= Seq::<u8>::empty());
    assert(written_chunks@ =~= Seq::<WrittenChunk>::empty());
    while k < num_chunks
        invariant
            k <= num_chunks,
            num_chunks == chunks@.len(),
            num_chunks == m.count(),
            size == element_size as u32,
            m == dataset_of(
                raw_data@,
                shape@,
                chunk_dims@,
                element_size,
                *options,
                base_address,
            ),
            pipeline is Some <==> m.pipeline is Some,
            pipeline matches Some(pl) ==> m.pipeline == Some(pl.deep_view())
                && crate::filters::levels_fit(pl.deep_view().filters),
            forall|i: int|
                0 <= i < chunks@.len() ==> ((#[trigger] chunks@[i]).0@, chunks@[i].1@) == chunk_of(
                    raw_data@,
                    shape@,
                    chunk_dims@,
                    element_size as int,
                    i,
                ),
            m.written(k as int) == Ok::<(Seq<u8>, Seq<WrittenChunk>), ErrorModel>(
                (data_buf@, written_chunks@),
            ),
            written_chunks@.len() == k,
            m.pipeline matches Some(pl) ==> forall|i: int|
                0 <= i < k ==> crate::filters::restores(
                    pl.filters,
                    #[trigger] m.chunk_bytes(i),
                    size,
                ),
        decreases num_chunks - k,
    {
        let chunk_bytes = chunks[k].1.as_slice();
        proof {
            assert((chunks@[k as int].0@, chunks@[k as int].1@) == chunk_of(
                raw_data@,
                shape@,
                chunk_dims@,
                element_size as int,
                k as int,
            ));
            assert(chunk_bytes@ == m.chunk_bytes(k as int));
        }
        let compressed: Vec<u8> = match &pipeline {
            Some(pl) => match compress_chunk(chunk_bytes, pl, size) {
                Ok(out) => out,
                Err(e) => {
                    proof {
                        assert(m.written(k + 1) is Err);
                        lemma_written_err(m, k + 1, m.count());
                    }
                    return Err(e);
                },
            },
            None => {
                let copy = slice_to_vec(chunk_bytes);
                assert(copy@ =~= chunk_bytes@);
                copy
            },
        };
        // Pad current position to cache-line boundary
        pad_to_line(&mut data_buf);
        let len: usize = byte_len(data_buf.as_slice());
        // The sum exceeds 64 bits only where a later chunk fails
        let address: u64 = base_address.wrapping_add(len as u64);
        proof {
            lemma_wrapping_sum(base_address, len as u64);
        }
        let compressed_size: u64 = compressed.len() as u64;
        let raw_size: u64 = chunk_bytes.len() as u64;
        put_slice(&mut data_buf, compressed.as_slice());
        written_chunks.push(
            WrittenChunk { address, compressed_size, raw_size, filter_mask: 0 },
        );
        k += 1;
    }
    let chunk_dims_u32 = narrow_extents(chunk_dims);
    assert(chunk_dims_u32@ =~= m.extents());
    // Determine if we should use Extensible Array (resizable datasets)
    let use_extensible = match maxshape {
        Some(ms) => contains_unlimited(ms),
        None => false,
    };
    // Pad before index structures so they are also cache-line aligned
    pad_to_line(&mut data_buf);
    let len: usize = byte_len(data_buf.as_slice());
    let ghost data = data_buf@;
    proof {
        let address = (base_address + len) as u64;
        lemma_extensible_len(written_chunks@, has_filters, address);
        lemma_fixed_len(written_chunks@, has_filters, address);
        assert(len <= base_address + len <= u64::MAX) by {
            if base_address + isize::MAX + 0x1_0000_0000_0000 > u64::MAX {
                assert(m.built(use_extensible)->Ok_0.data_bytes.len() >= data.len());
            }
        }
    }
    let index_address: u64 = base_address + len as u64;
    let layout_message = if use_extensible {
        let ea_bytes = build_extensible_array_at(
            written_chunks.as_slice(),
            8,
            8,
            has_filters,
            index_address,
        );
        put_slice(&mut data_buf, ea_bytes.as_slice());
        serialize_v4_extensible_array(chunk_dims_u32.as_slice(), index_address, 8, size)
    } else if num_chunks == 1 {
        let filtered_size = if has_filters {
            Some(written_chunks[0].compressed_size)
        } else {
            None
        };
        let filter_mask = if has_filters {
            Some(0u32)
        } else {
            None
        };
        assert(data + Seq::<u8>::empty() =~= data);
        serialize_v4_single_chunk_pub(
            chunk_dims_u32.as_slice(),
            written_chunks[0].address,
            filtered_size,
            filter_mask,
            8,
            size,
        )
    } else {
        let fa_bytes = build_fixed_array_at(
            written_chunks.as_slice(),
            8,
            8,
            has_filters,
            index_address,
        );
        put_slice(&mut data_buf, fa_bytes.as_slice());
        serialize_v4_fixed_array(chunk_dims_u32.as_slice(), index_address, 8, size, 10)
    };
    let pipeline_message = match &pipeline {
        Some(pl) => Some(pl.serialize()),
        None => None,
    };
    Ok(ChunkedDataResult { data_bytes: data_buf, layout_message, pipeline_message })
}

/// Build chunked data with absolute addresses and optional maxshape, at any address: there is no
/// result where the data, with its index, does not have addresses behind `base_address`.
pub fn build_chunked_data_checked(
    raw_data: &[u8],
    shape: &[u64],
    chunk_dims: &[u64],
    element_size: usize,
    options: &ChunkOptions,
    base_address: u64,
    maxshape: Option<&[u64]>,
) -> (r: Option<Result<ChunkedDataResult, FormatError>>)
    requires
        is_splittable(shape@, chunk_dims@, element_size as int),
        chunk_dims@.len() % 256 < 255,
        options.deflate_level matches Some(level) ==> level <= 10,
    ensures
        ({
            let m = dataset_of(
                raw_data@,
                shape@,
                chunk_dims@,
                element_size,
                *options,
                base_address,
            );
            let extensible = is_unlimited(limits_of(maxshape));
            &&& r is Some <==> m.is_addressable(extensible)
            &&& r matches Some(built) ==> {
                &&& crate::error::outcome(built) == m.built(extensible)
                &&& built is Ok ==> m.restorable()
            }
        }),
{
    let ghost extensible = is_unlimited(limits_of(maxshape));
    // At the start of the file everything fits
    let first = build_chunked_data_at_ext(
        raw_data,
        shape,
        chunk_dims,
        element_size,
        options,
        0,
        maxshape,
    );
    proof {
        let m = dataset_of(raw_data@, shape@, chunk_dims@, element_size, *options, 0);
        let other = dataset_of(
            raw_data@,
            shape@,
            chunk_dims@,
            element_size,
            *options,
            base_address,
        );
        assert(m.moved(base_address) == other);
        lemma_room(m, base_address, extensible);
    }
    match first {
        Ok(built) => {
            let room: usize = byte_len(built.data_bytes.as_slice());
            match base_address.checked_add(room as u64) {
                Some(_) => Some(
                    build_chunked_data_at_ext(
                        raw_data,
                        shape,
                        chunk_dims,
                        element_size,
                        options,
                        base_address,
                        maxshape,
                    ),
                ),
                None => None,
            }
        },
        Err(e) => Some(Err(e)),
    }
}

} // verus!
