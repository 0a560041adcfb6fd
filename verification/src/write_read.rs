//! Laws on what the writer of chunked data sets writes: the reader gives it back.

use vstd::prelude::*;
use vstd::arithmetic::div_mod::*;
use crate::bytes;
use crate::chunk_cache::ChunkInfoModel;
use crate::chunked_read::ChunkedModel;
use crate::chunked_write;
use crate::chunked_write::{ChunkOptions, DatasetModel, WrittenChunk};
use crate::data_layout::DataLayoutModel;
use crate::dataspace::{DataspaceModel, DataspaceType};
use crate::error::ErrorModel;
use crate::extensible_array::ExtensibleArrayHeader;
use crate::filter_pipeline::PipelineModel;
use crate::fixed_array::{ChunkGrid, FixedArrayHeader};

verus! {

// ---- Fields ----

/// A number of eight bytes at `p` is read back.
proof fn lemma_u64_field(d: Seq<u8>, p: int, v: nat, rest: Seq<u8>)
    requires
        0 <= p <= d.len(),
        v <= u64::MAX,
        d.subrange(p, d.len() as int) == bytes::le_bytes(v, 8) + rest,
    ensures
        p + 8 <= d.len(),
        bytes::u64_at(d, p) == v,
        crate::utils::uint_at(d, p, 8) == v,
        d.subrange(p + 8, d.len() as int) == rest,
        v == u64::MAX <==> crate::utils::undefined_bytes(d, p, 8),
{
    bytes::lemma_le_bytes_len(v, 8);
    bytes::lemma_peel(d, p, bytes::le_bytes(v, 8), rest);
    crate::bytes::lemma_u64_round_trip(d, p, v as u64);
    if crate::utils::undefined_bytes(d, p, 8) {
        assert(bytes::u64_at(d, p) == u64::MAX);
    }
    if v == u64::MAX {
        assert forall|k: int| p <= k < p + 8 implies d[k] == 0xFF by {
            reveal_with_fuel(bytes::le_bytes, 9);
            let s = d.subrange(p, p + 8);
            assert(s[k - p] == d[k]);
        }
    }
}

/// A number of four bytes at `p` is read back.
proof fn lemma_u32_field(d: Seq<u8>, p: int, v: nat, rest: Seq<u8>)
    requires
        0 <= p <= d.len(),
        v <= u32::MAX,
        d.subrange(p, d.len() as int) == bytes::le_bytes(v, 4) + rest,
    ensures
        p + 4 <= d.len(),
        crate::bytes::u32_at(d, p) == v,
        d.subrange(p + 4, d.len() as int) == rest,
{
    bytes::lemma_le_bytes_len(v, 4);
    bytes::lemma_peel(d, p, bytes::le_bytes(v, 4), rest);
    crate::bytes::lemma_u32_round_trip(d, p, v as u32);
}

/// The undefined address of `os` bytes, which is the largest number that they hold.
pub open spec fn top(os: u8) -> u64 {
    if os == 4 {
        0xFFFF_FFFF
    } else {
        u64::MAX
    }
}

/// Whether addresses and lengths of `os` bytes are written.
pub open spec fn is_wide(os: u8) -> bool {
    os == 4 || os == 8
}

/// A number of `os` bytes at `p` is read back.
proof fn lemma_word_field(d: Seq<u8>, p: int, v: nat, os: u8, rest: Seq<u8>)
    requires
        is_wide(os),
        0 <= p <= d.len(),
        v <= top(os),
        d.subrange(p, d.len() as int) == bytes::le_bytes(v, os as nat) + rest,
    ensures
        p + os <= d.len(),
        crate::utils::uint_at(d, p, os) == v,
        crate::utils::offset_at(d, p, os) == Ok::<u64, ErrorModel>(v as u64),
        d.subrange(p + os, d.len() as int) == rest,
        v == top(os) <==> crate::utils::undefined_bytes(d, p, os),
{
    if os == 8 {
        lemma_u64_field(d, p, v, rest);
    } else {
        lemma_u32_field(d, p, v, rest);
        bytes::lemma_peel(d, p, bytes::le_bytes(v, 4), rest);
        if crate::utils::undefined_bytes(d, p, 4) {
            assert(bytes::u32_at(d, p) == u32::MAX);
        }
        if v == u32::MAX {
            assert forall|k: int| p <= k < p + 4 implies d[k] == 0xFF by {
                reveal_with_fuel(bytes::le_bytes, 5);
                let s = d.subrange(p, p + 4);
                assert(s[k - p] == d[k]);
            }
        }
    }
}

/// The bytes of an undefined address.
proof fn lemma_top_bytes(os: u8)
    requires
        is_wide(os),
    ensures
        bytes::le_bytes(u64::MAX as nat, os as nat) == bytes::le_bytes(top(os) as nat, os as nat),
{
    if os == 4 {
        reveal_with_fuel(bytes::le_bytes, 5);
    }
}

/// Bytes at `p` are read one by one.
proof fn lemma_byte_fields(d: Seq<u8>, p: int, a: Seq<u8>, rest: Seq<u8>)
    requires
        0 <= p <= d.len(),
        d.subrange(p, d.len() as int) == a + rest,
    ensures
        p + a.len() <= d.len(),
        d.subrange(p, p + a.len()) == a,
        forall|i: int| 0 <= i < a.len() ==> #[trigger] a[i] == d[p + i],
        d.subrange(p + a.len(), d.len() as int) == rest,
{
    bytes::lemma_peel(d, p, a, rest);
    assert forall|i: int| 0 <= i < a.len() implies #[trigger] a[i] == d[p + i] by {
        assert(d.subrange(p, p + a.len())[i] == d[p + i]);
    }
}

// ---- Layout messages ----

proof fn lemma_largest(chunk: Seq<u32>, n: int, size: u32)
    requires
        0 <= n <= chunk.len(),
    ensures
        size <= chunked_write::largest(chunk, n, size),
        forall|i: int| 0 <= i < n ==> #[trigger] chunk[i] <= chunked_write::largest(chunk, n, size),
    decreases n,
{
    if n > 0 {
        lemma_largest(chunk, n - 1, size);
    }
}

/// An extent of `width` bytes at `p` is read back.
proof fn lemma_dimension_field(d: Seq<u8>, p: int, v: u32, width: u8, rest: Seq<u8>)
    requires
        0 <= p <= d.len(),
        width == 1 || width == 2 || width == 4,
        v < bytes::pow256(width as nat),
        d.subrange(p, d.len() as int) == bytes::le_bytes(v as nat, width as nat) + rest,
    ensures
        p + width <= d.len(),
        crate::data_layout::dimension_at(d, p, width) == v,
        d.subrange(p + width, d.len() as int) == rest,
{
    bytes::lemma_le_bytes_len(v as nat, width as nat);
    bytes::lemma_peel(d, p, bytes::le_bytes(v as nat, width as nat), rest);
    crate::utils::lemma_uint_round_trip(d, p, v as nat, width);
}

proof fn lemma_extents_field(
    d: Seq<u8>,
    p: int,
    chunk: Seq<u32>,
    from: int,
    width: u8,
    rest: Seq<u8>,
)
    requires
        0 <= p <= d.len(),
        0 <= from <= chunk.len(),
        width == 1 || width == 2 || width == 4,
        forall|i: int| 0 <= i < chunk.len() ==> #[trigger] chunk[i] < bytes::pow256(width as nat),
        d.subrange(p, d.len() as int) == chunked_write::extents_bytes(chunk, from, width) + rest,
    ensures
        p + (chunk.len() - from) * width <= d.len(),
        forall|i: int|
            from <= i < chunk.len() ==> #[trigger] chunk[i] == crate::data_layout::dimension_at(
                d,
                p + (i - from) * width,
                width,
            ),
        d.subrange(p + (chunk.len() - from) * width, d.len() as int) == rest,
    decreases chunk.len() - from,
{
    if from < chunk.len() {
        let a = bytes::le_bytes(chunk[from] as nat, width as nat);
        let b = chunked_write::extents_bytes(chunk, from + 1, width);
        assert(a + b + rest =~= a + (b + rest));
        lemma_dimension_field(d, p, chunk[from], width, b + rest);
        lemma_extents_field(d, p + width, chunk, from + 1, width, rest);
        assert((chunk.len() - from) * width == width + (chunk.len() - (from + 1)) * width)
            by (nonlinear_arith);
        assert forall|i: int| from <= i < chunk.len() implies #[trigger] chunk[i]
            == crate::data_layout::dimension_at(d, p + (i - from) * width, width) by {
            if i > from {
                assert((i - from) * width == width + (i - (from + 1)) * width) by (nonlinear_arith);
            } else {
                assert(0 * width == 0);
            }
        }
    } else {
        assert(chunked_write::extents_bytes(chunk, from, width) + rest =~= rest);
        assert((chunk.len() - from) * width == 0) by (nonlinear_arith)
            requires
                chunk.len() == from,
        ;
    }
}

/// The first part of a layout message, and where the type of the index follows.
#[verifier::spinoff_prover]
#[verifier::rlimit(40)]
proof fn lemma_layout_head(d: Seq<u8>, flags: u8, chunk: Seq<u32>, size: u32, rest: Seq<u8>)
    requires
        chunk.len() < 255,
        d == chunked_write::layout_head(flags, chunk, size) + rest,
    ensures
        ({
            let width = chunked_write::extent_width(chunk, size);
            let p = 5 + (chunk.len() + 1) * width;
            &&& d.len() >= 5
            &&& d[0] == 4
            &&& d[1] == 2
            &&& d[2] == flags
            &&& d[3] == chunk.len() + 1
            &&& d[4] == width
            &&& crate::utils::is_width(width)
            &&& 0 <= p <= d.len()
            &&& d.subrange(p, d.len() as int) == rest
            &&& Seq::new(
                d[3] as nat,
                |i: int| crate::data_layout::dimension_at(d, 5 + i * width, width),
            ) == chunk.push(size)
        }),
{
    let width = chunked_write::extent_width(chunk, size);
    let n = chunk.len() as int;
    let head = seq![4u8, 2u8, flags, (chunk.len() % 256 + 1) as u8, width];
    let ext = chunked_write::extents_bytes(chunk, 0, width);
    let last = bytes::le_bytes(size as nat, width as nat);
    assert(d =~= head + (ext + (last + rest)));
    assert(d.subrange(0, d.len() as int) =~= d);
    lemma_byte_fields(d, 0, head, ext + (last + rest));
    assert(head[0] == d[0] && head[1] == d[1] && head[2] == d[2] && head[3] == d[3] && head[4]
        == d[4]);
    lemma_largest(chunk, n, size);
    crate::bytes::lemma_pow256_values();
    assert forall|i: int| 0 <= i < chunk.len() implies #[trigger] chunk[i] < bytes::pow256(
        width as nat,
    ) by {
        assert(chunk[i] <= chunked_write::largest(chunk, n, size));
    }
    lemma_extents_field(d, 5, chunk, 0, width, last + rest);
    lemma_dimension_field(d, 5 + n * width, size, width, rest);
    assert((n + 1) * width == n * width + width) by (nonlinear_arith);
    let dims = Seq::new(
        d[3] as nat,
        |i: int| crate::data_layout::dimension_at(d, 5 + i * width, width),
    );
    assert forall|i: int| 0 <= i < dims.len() implies dims[i] == chunk.push(size)[i] by {
        if i < n {
            assert(chunk[i] == crate::data_layout::dimension_at(d, 5 + (i - 0) * width, width));
        }
    }
    assert(dims =~= chunk.push(size));
}

/// The layout of a chunked data set. The address of all ones is undefined.
pub open spec fn chunked_layout(
    chunk: Seq<u32>,
    size: u32,
    address: u64,
    index_type: u8,
    filtered_size: Option<u64>,
    filter_mask: Option<u32>,
) -> DataLayoutModel {
    DataLayoutModel::Chunked {
        chunk_dimensions: chunk.push(size),
        btree_address: if address == u64::MAX {
            None
        } else {
            Some(address)
        },
        version: 4,
        chunk_index_type: Some(index_type),
        single_chunk_filtered_size: filtered_size,
        single_chunk_filter_mask: filter_mask,
    }
}

proof fn lemma_regroup_filtered(
    a: Seq<u8>,
    b: Seq<u8>,
    f: Seq<u8>,
    m: Seq<u8>,
    c: Seq<u8>,
    d: Seq<u8>,
)
    ensures
        a + b + (f + m) + c + d == a + (b + (f + (m + (c + d)))),
        a + b + Seq::empty() + c + d == a + (b + (c + d)),
{
    assert(a + b + (f + m) + c + d =~= a + (b + (f + (m + (c + d)))));
    assert(a + b + Seq::<u8>::empty() + c + d =~= a + (b + (c + d)));
}

/// Parsing the layout message of a single chunk gives its extents, its address, and its size and
/// mask if it is filtered.
pub proof fn law_single_chunk_layout(
    chunk: Seq<u32>,
    address: u64,
    filtered_size: Option<u64>,
    filter_mask: Option<u32>,
    size: u32,
    rest: Seq<u8>,
)
    requires
        chunk.len() < 255,
        filtered_size is Some <==> filter_mask is Some,
    ensures
        crate::data_layout::layout_of(
            chunked_write::single_chunk_layout(chunk, address, filtered_size, filter_mask, 8, size) + rest,
            8,
            8,
        ) == Ok::<DataLayoutModel, ErrorModel>(
            chunked_layout(chunk, size, address, 1, filtered_size, filter_mask),
        ),
{
    let d = chunked_write::single_chunk_layout(chunk, address, filtered_size, filter_mask, 8, size) + rest;
    let flags = if filtered_size is Some {
        2u8
    } else {
        0u8
    };
    let head = chunked_write::layout_head(flags, chunk, size);
    let a = bytes::le_bytes(address as nat, 8);
    let width = chunked_write::extent_width(chunk, size);
    let p = 5 + (chunk.len() + 1) * width;
    if filtered_size is Some {
        let f = bytes::le_bytes(filtered_size->0 as nat, 8);
        let m = bytes::le_bytes(filter_mask->0 as nat, 4);
        lemma_regroup_filtered(head, seq![1u8], f, m, a, rest);
        lemma_layout_head(d, flags, chunk, size, seq![1u8] + (f + (m + (a + rest))));
        lemma_byte_fields(d, p, seq![1u8], f + (m + (a + rest)));
        assert(seq![1u8][0] == d[p + 0]);
        lemma_u64_field(d, p + 1, filtered_size->0 as nat, m + (a + rest));
        lemma_u32_field(d, p + 9, filter_mask->0 as nat, a + rest);
        lemma_u64_field(d, p + 13, address as nat, rest);
    } else {
        lemma_regroup_filtered(head, seq![1u8], Seq::empty(), Seq::empty(), a, rest);
        lemma_layout_head(d, flags, chunk, size, seq![1u8] + (a + rest));
        lemma_byte_fields(d, p, seq![1u8], a + rest);
        assert(seq![1u8][0] == d[p + 0]);
        lemma_u64_field(d, p + 1, address as nat, rest);
    }
    assert(d[3] * d[4] == (chunk.len() + 1) * width);
}

/// Parsing the layout message of a Fixed Array gives the extents of its chunks and its address.
pub proof fn law_fixed_array_layout(
    chunk: Seq<u32>,
    address: u64,
    size: u32,
    max_bits: u8,
    rest: Seq<u8>,
)
    requires
        chunk.len() < 255,
    ensures
        crate::data_layout::layout_of(
            chunked_write::fixed_array_layout(chunk, address, 8, size, max_bits) + rest,
            8,
            8,
        ) == Ok::<DataLayoutModel, ErrorModel>(
            chunked_layout(chunk, size, address, 3, None, None),
        ),
{
    let d = chunked_write::fixed_array_layout(chunk, address, 8, size, max_bits) + rest;
    let a = bytes::le_bytes(address as nat, 8);
    let width = chunked_write::extent_width(chunk, size);
    let p = 5 + (chunk.len() + 1) * width;
    let t = seq![3u8, max_bits];
    assert(d =~= chunked_write::layout_head(0, chunk, size) + (t + (a + rest)));
    lemma_layout_head(d, 0, chunk, size, t + (a + rest));
    lemma_byte_fields(d, p, t, a + rest);
    assert(t[0] == d[p + 0]);
    lemma_u64_field(d, p + 2, address as nat, rest);
    assert(d[3] * d[4] == (chunk.len() + 1) * width);
}

/// Parsing the layout message of an Extensible Array gives the extents of its chunks and its
/// address.
pub proof fn law_extensible_array_layout(
    chunk: Seq<u32>,
    address: u64,
    size: u32,
    rest: Seq<u8>,
)
    requires
        chunk.len() < 255,
    ensures
        crate::data_layout::layout_of(
            chunked_write::extensible_array_layout(chunk, address, 8, size) + rest,
            8,
            8,
        ) == Ok::<DataLayoutModel, ErrorModel>(
            chunked_layout(chunk, size, address, 4, None, None),
        ),
{
    let d = chunked_write::extensible_array_layout(chunk, address, 8, size) + rest;
    let a = bytes::le_bytes(address as nat, 8);
    let width = chunked_write::extent_width(chunk, size);
    let p = 5 + (chunk.len() + 1) * width;
    let t = seq![4u8, 32, 4, 4, 16, 10];
    assert(d =~= chunked_write::layout_head(0, chunk, size) + (t + (a + rest)));
    lemma_layout_head(d, 0, chunk, size, t + (a + rest));
    lemma_byte_fields(d, p, t, a + rest);
    assert(t[0] == d[p + 0]);
    lemma_u64_field(d, p + 6, address as nat, rest);
    assert(d[3] * d[4] == (chunk.len() + 1) * width);
}

// ---- Array elements ----

/// What the index says of written chunk `i`.
pub open spec fn indexed_chunk(
    chunks: Seq<WrittenChunk>,
    has_filters: bool,
    g: ChunkGrid,
    i: int,
) -> ChunkInfoModel {
    if has_filters {
        crate::fixed_array::chunk_at(
            g,
            i,
            chunks[i].compressed_size as u32,
            chunks[i].filter_mask,
            chunks[i].address,
        )
    } else {
        crate::fixed_array::chunk_at(g, i, g.bytes as u64 as u32, 0, chunks[i].address)
    }
}

/// What the index says of the written chunks from `from` to `to`.
pub open spec fn indexed_chunks(
    chunks: Seq<WrittenChunk>,
    has_filters: bool,
    g: ChunkGrid,
    from: int,
    to: int,
) -> Seq<ChunkInfoModel> {
    Seq::new((to - from) as nat, |k: int| indexed_chunk(chunks, has_filters, g, from + k))
}

/// Whether the array elements have room for what they say of the chunks: each chunk has an
/// address of `os` bytes, and the size of a filtered chunk fits in its field.
pub open spec fn indexable(chunks: Seq<WrittenChunk>, os: u8, has_filters: bool) -> bool {
    forall|i: int|
        0 <= i < chunks.len() ==> (#[trigger] chunks[i]).address < top(os) && (has_filters
            ==> chunks[i].compressed_size < bytes::pow256(chunked_write::size_field_width(chunks)))
}

proof fn lemma_size_width(chunks: Seq<WrittenChunk>)
    ensures
        2 <= chunked_write::size_field_width(chunks) <= 8,
{
    let n = chunked_write::largest_raw(chunks, chunks.len() as int) as nat;
    assert(bytes::byte_width(n) >= 1);
}

/// The fields of the array element at `p`.
proof fn lemma_element_fields(
    d: Seq<u8>,
    p: int,
    chunks: Seq<WrittenChunk>,
    i: int,
    os: u8,
    has_filters: bool,
    rest: Seq<u8>,
)
    requires
        is_wide(os),
        0 <= p <= d.len(),
        0 <= i < chunks.len(),
        indexable(chunks, os, has_filters),
        d.subrange(p, d.len() as int) == chunked_write::chunk_element(
            chunks[i],
            os,
            has_filters,
            chunked_write::size_bytes(chunks, has_filters),
        ) + rest,
    ensures
        ({
            let w = chunked_write::element_bytes(chunks, os, has_filters) as int;
            let c = chunks[i];
            &&& p + w <= d.len()
            &&& d.subrange(p + w, d.len() as int) == rest
            &&& crate::utils::uint_at(d, p, os) == c.address
            &&& !crate::utils::undefined_bytes(d, p, os)
            &&& has_filters ==> bytes::le_value(d.subrange(p + os, p + w - 4)) == c.compressed_size
                && crate::bytes::u32_at(d, p + w - 4) == c.filter_mask
        }),
{
    let c = chunks[i];
    let a = bytes::le_bytes(c.address as nat, os as nat);
    let w = chunked_write::size_field_width(chunks);
    assert(chunks[i].address < top(os));
    if has_filters {
        let s = bytes::le_bytes(c.compressed_size as nat, w);
        let m = bytes::le_bytes(c.filter_mask as nat, 4);
        assert(a + (s + m) + rest =~= a + (s + (m + rest)));
        lemma_word_field(d, p, c.address as nat, os, s + (m + rest));
        bytes::lemma_le_bytes_len(c.compressed_size as nat, w);
        bytes::lemma_peel(d, p + os, s, m + rest);
        lemma_u32_field(d, p + os + w, c.filter_mask as nat, rest);
        crate::bytes::lemma_le_round_trip(c.compressed_size as nat, w);
        lemma_small_mod(c.compressed_size as nat, bytes::pow256(w));
    } else {
        lemma_word_field(d, p, c.address as nat, os, rest);
    }
}

/// An undefined array element at `p`.
proof fn lemma_undefined_field(
    d: Seq<u8>,
    p: int,
    os: u8,
    has_filters: bool,
    width: nat,
    rest: Seq<u8>,
)
    requires
        0 <= p <= d.len(),
        d.subrange(p, d.len() as int) == chunked_write::undefined_element(os, has_filters, width) + rest,
    ensures
        ({
            let w: int = if has_filters {
                os + width + 4
            } else {
                os as int
            };
            &&& p + w <= d.len()
            &&& d.subrange(p + w, d.len() as int) == rest
            &&& crate::utils::undefined_bytes(d, p, os)
        }),
{
    let e = chunked_write::undefined_element(os, has_filters, width);
    lemma_byte_fields(d, p, e, rest);
    assert forall|k: int| p <= k < p + os implies d[k] == 0xFF by {
        assert(e[k - p] == d[p + (k - p)]);
    }
}

// ---- Fixed Array ----

/// The header of the Fixed Array at `base`.
pub open spec fn written_fixed_header(
    chunks: Seq<WrittenChunk>,
    os: u8,
    ls: u8,
    has_filters: bool,
    base: u64,
) -> FixedArrayHeader {
    FixedArrayHeader {
        client_id: chunked_write::client(has_filters),
        element_size: chunked_write::element_bytes(chunks, os, has_filters) as u8,
        max_nelmts_bits: 10,
        num_elements: chunks.len() as u64,
        data_block_address: (base + chunked_write::fixed_header_size(os, ls)) as u64,
    }
}

#[verifier::spinoff_prover]
#[verifier::rlimit(40)]
proof fn lemma_fixed_elements(
    d: Seq<u8>,
    p: int,
    chunks: Seq<WrittenChunk>,
    os: u8,
    has_filters: bool,
    h: FixedArrayHeader,
    g: ChunkGrid,
    i: int,
    rest: Seq<u8>,
    done: Seq<ChunkInfoModel>,
)
    requires
        0 <= p <= d.len(),
        0 <= i <= chunks.len(),
        is_wide(os),
        indexable(chunks, os, has_filters),
        h.client_id == chunked_write::client(has_filters),
        h.element_size == chunked_write::element_bytes(chunks, os, has_filters),
        d.subrange(p, d.len() as int) == chunked_write::elements_bytes(
            chunks,
            i,
            chunks.len() - i,
            os,
            has_filters,
            chunked_write::size_bytes(chunks, has_filters),
        ) + rest,
    ensures
        crate::fixed_array::fixed_elements_at(
            d,
            p,
            h,
            os,
            g,
            i,
            chunks.len() as int,
            done,
        ) == Ok::<Seq<ChunkInfoModel>, ErrorModel>(
            done + indexed_chunks(chunks, has_filters, g, i, chunks.len() as int),
        ),
    decreases chunks.len() - i,
{
    let n = chunks.len() as int;
    let w = chunked_write::size_bytes(chunks, has_filters);
    if i < n {
        let a = chunked_write::chunk_element(chunks[i], os, has_filters, w);
        let b = chunked_write::elements_bytes(chunks, i + 1, n - i - 1, os, has_filters, w);
        assert(a + b + rest =~= a + (b + rest));
        lemma_element_fields(d, p, chunks, i, os, has_filters, b + rest);
        let width = chunked_write::element_bytes(chunks, os, has_filters) as int;
        let info = indexed_chunk(chunks, has_filters, g, i);
        assert(crate::fixed_array::element_width(h, os) == width);
        assert(crate::fixed_array::fixed_element_at(d, p, h, os, g, i) == Ok::<
            Option<ChunkInfoModel>,
            ErrorModel,
        >(Some(info)));
        lemma_fixed_elements(
            d,
            p + width,
            chunks,
            os,
            has_filters,
            h,
            g,
            i + 1,
            rest,
            done.push(info),
        );
        assert(done.push(info) + indexed_chunks(chunks, has_filters, g, i + 1, n) =~= done
            + indexed_chunks(chunks, has_filters, g, i, n));
    } else {
        assert(done + indexed_chunks(chunks, has_filters, g, i, n) =~= done);
    }
}

proof fn lemma_regroup_10(
    a: Seq<u8>,
    b: Seq<u8>,
    c: Seq<u8>,
    d: Seq<u8>,
    e: Seq<u8>,
    f: Seq<u8>,
    g: Seq<u8>,
    h: Seq<u8>,
    i: Seq<u8>,
    j: Seq<u8>,
    k: Seq<u8>,
)
    ensures
        (a + b + c + d + e) + (f + g + h + i + j) + k == a + (b + (c + (d + (e + (f + (g + (h + (i
            + (j + k))))))))),
{
    let t = f + (g + (h + (i + (j + k))));
    assert(f + g + h + i + j + k =~= t);
    assert((a + b + c + d + e) + (f + g + h + i + j) + k =~= (a + b + c + d + e) + (f + g + h + i
        + j + k));
    assert((a + b + c + d + e) + t =~= a + (b + (c + (d + (e + t)))));
}

/// The header of a Fixed Array is read back.
proof fn lemma_fixed_header(
    d: Seq<u8>,
    base: u64,
    chunks: Seq<WrittenChunk>,
    os: u8,
    ls: u8,
    has_filters: bool,
    sum: Seq<u8>,
    rest: Seq<u8>,
)
    requires
        is_wide(os),
        is_wide(ls),
        d.len() <= usize::MAX,
        base + chunked_write::fixed_header_size(os, ls) <= top(os),
        base <= d.len(),
        sum.len() == 4,
        chunks.len() <= top(ls),
        d.subrange(base as int, d.len() as int) == crate::fixed_array::fahd() + (seq![
            0u8,
            chunked_write::client(has_filters),
            chunked_write::element_bytes(chunks, os, has_filters) as u8,
            10u8,
        ] + (bytes::le_bytes(chunks.len(), ls as nat) + (bytes::le_bytes((base + chunked_write::fixed_header_size(os, ls)) as nat, os as nat) + (sum
            + rest)))),
    ensures
        crate::fixed_array::fixed_array_at(d, base as int, os, ls) == Ok::<
            FixedArrayHeader,
            ErrorModel,
        >(written_fixed_header(chunks, os, ls, has_filters, base)),
        base + chunked_write::fixed_header_size(os, ls) <= d.len(),
        d.subrange(base + chunked_write::fixed_header_size(os, ls), d.len() as int) == rest,
{
    let h = written_fixed_header(chunks, os, ls, has_filters, base);
    let n = chunks.len();
    let b = base as int;
    let t0 = crate::fixed_array::fahd();
    let t1 = seq![0u8, chunked_write::client(has_filters), h.element_size, 10u8];
    let f1 = bytes::le_bytes(n, ls as nat);
    let f2 = bytes::le_bytes((base + chunked_write::fixed_header_size(os, ls)) as nat, os as nat);
    lemma_byte_fields(d, b, t0, t1 + (f1 + (f2 + (sum + rest))));
    lemma_byte_fields(d, b + 4, t1, f1 + (f2 + (sum + rest)));
    assert(t1[0] == d[b + 4 + 0] && t1[1] == d[b + 4 + 1] && t1[2] == d[b + 4 + 2] && t1[3] == d[b
        + 4 + 3]);
    let at = (base + chunked_write::fixed_header_size(os, ls)) as nat;
    lemma_word_field(d, b + 8, n, ls, f2 + (sum + rest));
    lemma_word_field(d, b + 8 + ls, at, os, sum + rest);
    bytes::lemma_peel(d, b + 8 + ls + os, sum, rest);
}

/// What is read of a Fixed Array, whatever its checksums are.
#[verifier::spinoff_prover]
#[verifier::rlimit(40)]
proof fn lemma_fixed_array_parts(
    d: Seq<u8>,
    chunks: Seq<WrittenChunk>,
    os: u8,
    ls: u8,
    has_filters: bool,
    base: u64,
    dims: Seq<u64>,
    chunk: Seq<u32>,
    size: u32,
    rest: Seq<u8>,
    sum: Seq<u8>,
    sum2: Seq<u8>,
)
    requires
        chunks.len() <= 1024,
        is_wide(os),
        indexable(chunks, os, has_filters),
        is_wide(ls),
        d.len() <= usize::MAX,
        base + chunked_write::fixed_header_size(os, ls) <= top(os),
        base <= d.len(),
        sum.len() == 4,
        d.subrange(base as int, d.len() as int) == (crate::fixed_array::fahd() + seq![
            0u8,
            chunked_write::client(has_filters),
            chunked_write::element_bytes(chunks, os, has_filters) as u8,
            10u8,
        ] + bytes::le_bytes(chunks.len(), ls as nat) + bytes::le_bytes((base + chunked_write::fixed_header_size(os, ls)) as nat, os as nat) + sum) + (
        crate::fixed_array::fadb() + seq![0u8, chunked_write::client(has_filters)]
            + bytes::le_bytes(base as nat, os as nat) + chunked_write::elements_bytes(
            chunks,
            0,
            chunks.len() as int,
            os,
            has_filters,
            chunked_write::size_bytes(chunks, has_filters),
        ) + sum2) + rest,
    ensures
        ({
            let h = written_fixed_header(chunks, os, ls, has_filters, base);
            let g = crate::fixed_array::grid_of(dims, chunk, size);
            &&& crate::fixed_array::fixed_array_at(d, base as int, os, ls) == Ok::<
                FixedArrayHeader,
                ErrorModel,
            >(h)
            &&& crate::fixed_array::fixed_chunks(d, h, dims, chunk, size, os) == Ok::<
                Seq<ChunkInfoModel>,
                ErrorModel,
            >(indexed_chunks(chunks, has_filters, g, 0, chunks.len() as int))
        }),
{
    let h = written_fixed_header(chunks, os, ls, has_filters, base);
    let g = crate::fixed_array::grid_of(dims, chunk, size);
    let n = chunks.len();
    let w = chunked_write::size_bytes(chunks, has_filters);
    let b = base as int;
    lemma_size_width(chunks);
    let t0 = crate::fixed_array::fahd();
    let t1 = seq![0u8, chunked_write::client(has_filters), h.element_size, 10u8];
    let f1 = bytes::le_bytes(n, ls as nat);
    let f2 = bytes::le_bytes((base + chunked_write::fixed_header_size(os, ls)) as nat, os as nat);
    let u0 = crate::fixed_array::fadb();
    let u1 = seq![0u8, chunked_write::client(has_filters)];
    let f3 = bytes::le_bytes(base as nat, os as nat);
    let el = chunked_write::elements_bytes(chunks, 0, n as int, os, has_filters, w);
    lemma_regroup_10(t0, t1, f1, f2, sum, u0, u1, f3, el, sum2, rest);
    let t = u0 + (u1 + (f3 + (el + (sum2 + rest))));
    lemma_fixed_header(d, base, chunks, os, ls, has_filters, sum, t);
    let p = b + chunked_write::fixed_header_size(os, ls);
    lemma_byte_fields(d, p, u0, u1 + (f3 + (el + (sum2 + rest))));
    bytes::lemma_peel(d, p + 4, u1, f3 + (el + (sum2 + rest)));
    lemma_word_field(d, p + 6, base as nat, os, el + (sum2 + rest));
    vstd::arithmetic::power2::lemma2_to64();
    lemma_fixed_elements(
        d,
        p + 6 + os,
        chunks,
        os,
        has_filters,
        h,
        g,
        0,
        sum2 + rest,
        Seq::empty(),
    );
    let all = indexed_chunks(chunks, has_filters, g, 0, n as int);
    assert(Seq::<ChunkInfoModel>::empty() + all =~= all);
}

/// A Fixed Array of at most 1024 chunks, with addresses and lengths of four or eight bytes, read back, lists the chunks as they were written.
#[verifier::spinoff_prover]
#[verifier::rlimit(40)]
pub proof fn law_fixed_array_round_trip(
    d: Seq<u8>,
    chunks: Seq<WrittenChunk>,
    os: u8,
    ls: u8,
    has_filters: bool,
    base: u64,
    dims: Seq<u64>,
    chunk: Seq<u32>,
    size: u32,
    rest: Seq<u8>,
)
    requires
        chunks.len() <= 1024,
        is_wide(os),
        indexable(chunks, os, has_filters),
        is_wide(ls),
        d.len() <= usize::MAX,
        base + chunked_write::fixed_header_size(os, ls) <= top(os),
        base <= d.len(),
        d.subrange(base as int, d.len() as int) == chunked_write::fixed_array_bytes(
            chunks,
            os,
            ls,
            has_filters,
            base,
        ) + rest,
    ensures
        ({
            let h = written_fixed_header(chunks, os, ls, has_filters, base);
            let g = crate::fixed_array::grid_of(dims, chunk, size);
            &&& crate::fixed_array::fixed_array_at(d, base as int, os, ls) == Ok::<
                FixedArrayHeader,
                ErrorModel,
            >(h)
            &&& crate::fixed_array::fixed_chunks(d, h, dims, chunk, size, os) == Ok::<
                Seq<ChunkInfoModel>,
                ErrorModel,
            >(indexed_chunks(chunks, has_filters, g, 0, chunks.len() as int))
        }),
{
    let w = chunked_write::size_bytes(chunks, has_filters);
    let head = crate::fixed_array::fahd() + seq![
        0u8,
        chunked_write::client(has_filters),
        chunked_write::element_bytes(chunks, os, has_filters) as u8,
        10u8,
    ] + bytes::le_bytes(chunks.len(), ls as nat) + bytes::le_bytes((base + chunked_write::fixed_header_size(os, ls)) as nat, os as nat);
    let body = crate::fixed_array::fadb() + seq![0u8, chunked_write::client(has_filters)]
        + bytes::le_bytes(base as nat, os as nat) + chunked_write::elements_bytes(
        chunks,
        0,
        chunks.len() as int,
        os,
        has_filters,
        w,
    );
    let sum = bytes::le_bytes(crate::checksum::lookup3(head) as nat, 4);
    let sum2 = bytes::le_bytes(crate::checksum::lookup3(body) as nat, 4);
    bytes::lemma_le_bytes_len(crate::checksum::lookup3(head) as nat, 4);
    lemma_fixed_array_parts(
        d,
        chunks,
        os,
        ls,
        has_filters,
        base,
        dims,
        chunk,
        size,
        rest,
        sum,
        sum2,
    );
}

// ---- Extensible Array ----

/// The header of the Extensible Array at `base`.
pub open spec fn written_extensible_header(
    chunks: Seq<WrittenChunk>,
    os: u8,
    ls: u8,
    has_filters: bool,
    base: u64,
) -> ExtensibleArrayHeader {
    ExtensibleArrayHeader {
        client_id: chunked_write::client(has_filters),
        element_size: chunked_write::element_bytes(chunks, os, has_filters) as u8,
        max_nelmts_bits: 32,
        idx_blk_elmts: 4,
        min_dblk_nelmts: 16,
        super_blk_min_nelmts: 4,
        max_dblk_nelmts_bits: 10,
        num_elements: chunks.len() as u64,
        index_block_address: (base + crate::extensible_array::header_size(os, ls)) as u64,
    }
}

/// `x`, or the number of chunks where there are fewer.
pub open spec fn cap(chunks: Seq<WrittenChunk>, x: int) -> int {
    if x <= chunks.len() {
        x
    } else {
        chunks.len() as int
    }
}

proof fn lemma_indexed_parts(
    chunks: Seq<WrittenChunk>,
    has_filters: bool,
    g: ChunkGrid,
    a: int,
    b: int,
    c: int,
)
    requires
        a <= b <= c,
    ensures
        indexed_chunks(chunks, has_filters, g, a, b) + indexed_chunks(chunks, has_filters, g, b, c)
            == indexed_chunks(chunks, has_filters, g, a, c),
{
    assert(indexed_chunks(chunks, has_filters, g, a, b) + indexed_chunks(
        chunks,
        has_filters,
        g,
        b,
        c,
    ) =~= indexed_chunks(chunks, has_filters, g, a, c));
}

#[verifier::spinoff_prover]
#[verifier::rlimit(40)]
proof fn lemma_ea_elements(
    d: Seq<u8>,
    p: int,
    chunks: Seq<WrittenChunk>,
    os: u8,
    has_filters: bool,
    h: ExtensibleArrayHeader,
    g: ChunkGrid,
    from: int,
    count: int,
    rest: Seq<u8>,
    done: Seq<ChunkInfoModel>,
)
    requires
        is_wide(os),
        0 <= p <= d.len(),
        0 <= from,
        0 <= count,
        indexable(chunks, os, has_filters),
        h.client_id == chunked_write::client(has_filters),
        h.element_size == chunked_write::element_bytes(chunks, os, has_filters),
        d.subrange(p, d.len() as int) == chunked_write::elements_bytes(
            chunks,
            from,
            count,
            os,
            has_filters,
            chunked_write::size_bytes(chunks, has_filters),
        ) + rest,
    ensures
        crate::extensible_array::ea_elements_at(d, p, h, os, g, from, count, done) == Ok::<
            Seq<ChunkInfoModel>,
            ErrorModel,
        >(
            done + indexed_chunks(
                chunks,
                has_filters,
                g,
                cap(chunks, from),
                cap(chunks, from + count),
            ),
        ),
        p + count * chunked_write::element_bytes(chunks, os, has_filters) <= d.len(),
        d.subrange(
            p + count * chunked_write::element_bytes(chunks, os, has_filters),
            d.len() as int,
        ) == rest,
    decreases count,
{
    let n = chunks.len() as int;
    let w = chunked_write::size_bytes(chunks, has_filters);
    let width = chunked_write::element_bytes(chunks, os, has_filters) as int;
    let end = cap(chunks, from + count);
    if count > 0 {
        let b = chunked_write::elements_bytes(chunks, from + 1, count - 1, os, has_filters, w);
        assert(count * width == width + (count - 1) * width) by (nonlinear_arith);
        assert(crate::extensible_array::ea_width(h.client_id, h.element_size, os) == width);
        if from < n {
            let a = chunked_write::chunk_element(chunks[from], os, has_filters, w);
            assert(a + b + rest =~= a + (b + rest));
            lemma_element_fields(d, p, chunks, from, os, has_filters, b + rest);
            let info = indexed_chunk(chunks, has_filters, g, from);
            assert(crate::extensible_array::ea_element_at(
                d,
                p,
                h.client_id,
                h.element_size,
                os,
                g,
                from,
            ) == Ok::<Option<ChunkInfoModel>, ErrorModel>(Some(info)));
            lemma_ea_elements(
                d,
                p + width,
                chunks,
                os,
                has_filters,
                h,
                g,
                from + 1,
                count - 1,
                rest,
                done.push(info),
            );
            assert(done.push(info) + indexed_chunks(chunks, has_filters, g, from + 1, end) =~= done
                + indexed_chunks(chunks, has_filters, g, from, end));
        } else {
            let a = chunked_write::undefined_element(os, has_filters, w);
            assert(a + b + rest =~= a + (b + rest));
            lemma_undefined_field(d, p, os, has_filters, w, b + rest);
            lemma_ea_elements(
                d,
                p + width,
                chunks,
                os,
                has_filters,
                h,
                g,
                from + 1,
                count - 1,
                rest,
                done,
            );
        }
    } else {
        assert(done + indexed_chunks(chunks, has_filters, g, cap(chunks, from), end) =~= done);
        assert(chunked_write::elements_bytes(chunks, from, count, os, has_filters, w) + rest
            =~= rest);
        assert(0 * width == 0);
    }
}

/// Elements can be taken apart.
proof fn lemma_elements_split(
    chunks: Seq<WrittenChunk>,
    from: int,
    a: int,
    b: int,
    os: u8,
    has_filters: bool,
    width: nat,
)
    requires
        0 <= a,
        0 <= b,
    ensures
        chunked_write::elements_bytes(chunks, from, a + b, os, has_filters, width)
            == chunked_write::elements_bytes(chunks, from, a, os, has_filters, width)
            + chunked_write::elements_bytes(chunks, from + a, b, os, has_filters, width),
    decreases a,
{
    if a > 0 {
        lemma_elements_split(chunks, from + 1, a - 1, b, os, has_filters, width);
        let e = if from < chunks.len() {
            chunked_write::chunk_element(chunks[from], os, has_filters, width)
        } else {
            chunked_write::undefined_element(os, has_filters, width)
        };
        let x = chunked_write::elements_bytes(chunks, from + 1, a - 1, os, has_filters, width);
        let y = chunked_write::elements_bytes(chunks, from + a, b, os, has_filters, width);
        assert(e + (x + y) =~= e + x + y);
    } else {
        let y = chunked_write::elements_bytes(chunks, from, b, os, has_filters, width);
        assert(Seq::<u8>::empty() + y =~= y);
    }
}

/// The parts of a data block.
proof fn lemma_block_parts(
    chunks: Seq<WrittenChunk>,
    from: int,
    count: int,
    os: u8,
    has_filters: bool,
    base: u64,
    rest: Seq<u8>,
) -> (sum: Seq<u8>)
    ensures
        chunked_write::block_bytes(chunks, from, count, os, has_filters, base) + rest
            == crate::extensible_array::eadb() + (seq![0u8, chunked_write::client(has_filters)] + (
        bytes::le_bytes(base as nat, os as nat) + (bytes::le_bytes((from - 4) as nat, 4) + (
        chunked_write::elements_bytes(
            chunks,
            from,
            count,
            os,
            has_filters,
            chunked_write::size_bytes(chunks, has_filters),
        ) + (sum + rest))))),
{
    reveal(chunked_write::block_bytes);
    let a = crate::extensible_array::eadb();
    let b = seq![0u8, chunked_write::client(has_filters)];
    let c = bytes::le_bytes(base as nat, os as nat);
    let e = bytes::le_bytes((from - 4) as nat, 4);
    let f = chunked_write::elements_bytes(
        chunks,
        from,
        count,
        os,
        has_filters,
        chunked_write::size_bytes(chunks, has_filters),
    );
    let body = a + b + c + e + f;
    let sum = bytes::le_bytes(crate::checksum::lookup3(body) as nat, 4);
    lemma_regroup_6(a, b, c, e, f, sum, rest);
    sum
}

proof fn lemma_regroup_6(
    a: Seq<u8>,
    b: Seq<u8>,
    c: Seq<u8>,
    d: Seq<u8>,
    e: Seq<u8>,
    f: Seq<u8>,
    g: Seq<u8>,
)
    ensures
        a + b + c + d + e + f + g == a + (b + (c + (d + (e + (f + g))))),
{
    assert(a + b + c + d + e + f + g =~= a + (b + (c + (d + (e + (f + g))))));
}

/// A data block is read back.
#[verifier::spinoff_prover]
#[verifier::rlimit(40)]
proof fn lemma_ea_block(
    d: Seq<u8>,
    p: int,
    chunks: Seq<WrittenChunk>,
    os: u8,
    has_filters: bool,
    h: ExtensibleArrayHeader,
    g: ChunkGrid,
    base: u64,
    from: int,
    count: int,
    rest: Seq<u8>,
)
    requires
        is_wide(os),
        0 <= p <= d.len(),
        4 <= from,
        0 <= count <= 0x4_0000,
        indexable(chunks, os, has_filters),
        h.client_id == chunked_write::client(has_filters),
        h.element_size == chunked_write::element_bytes(chunks, os, has_filters),
        h.max_nelmts_bits == 32,
        d.subrange(p, d.len() as int) == chunked_write::block_bytes(
            chunks,
            from,
            count,
            os,
            has_filters,
            base,
        ) + rest,
    ensures
        crate::extensible_array::ea_block_at(d, p, count, h, os, g, from) == Ok::<
            Seq<ChunkInfoModel>,
            ErrorModel,
        >(indexed_chunks(chunks, has_filters, g, cap(chunks, from), cap(chunks, from + count))),
        p < d.len(),
{
    let a = crate::extensible_array::eadb();
    let b = seq![0u8, chunked_write::client(has_filters)];
    let c = bytes::le_bytes(base as nat, os as nat);
    let e = bytes::le_bytes((from - 4) as nat, 4);
    let el = chunked_write::elements_bytes(
        chunks,
        from,
        count,
        os,
        has_filters,
        chunked_write::size_bytes(chunks, has_filters),
    );
    let sum = lemma_block_parts(chunks, from, count, os, has_filters, base, rest);
    bytes::lemma_le_bytes_len(base as nat, os as nat);
    bytes::lemma_le_bytes_len((from - 4) as nat, 4);
    lemma_byte_fields(d, p, a, b + (c + (e + (el + (sum + rest)))));
    bytes::lemma_peel(d, p + 4, b, c + (e + (el + (sum + rest))));
    bytes::lemma_peel(d, p + 6, c, e + (el + (sum + rest)));
    bytes::lemma_peel(d, p + 6 + os, e, el + (sum + rest));
    lemma_ea_elements(
        d,
        p + 10 + os,
        chunks,
        os,
        has_filters,
        h,
        g,
        from,
        count,
        sum + rest,
        Seq::empty(),
    );
    vstd::arithmetic::power2::lemma2_to64();
    let all = indexed_chunks(chunks, has_filters, g, cap(chunks, from), cap(chunks, from + count));
    assert(Seq::<ChunkInfoModel>::empty() + all =~= all);
}

/// Addresses within the data are read.
proof fn lemma_addresses(d: Seq<u8>, p: int, os: u8, count: int, done: Seq<u64>)
    requires
        is_wide(os),
        0 <= p,
        0 <= count,
        p + os * count <= d.len(),
    ensures
        crate::extensible_array::addresses_at(d, p, os, count, done) == Ok::<Seq<u64>, ErrorModel>(
            done + Seq::new(count as nat, |i: int| crate::utils::uint_at(d, p + os * i, os)),
        ),
        crate::extensible_array::addresses_in(d, p, os, count) == count,
    decreases count,
{
    let all = Seq::new(count as nat, |i: int| crate::utils::uint_at(d, p + os * i, os));
    if count > 0 {
        assert(os * count == os + os * (count - 1)) by (nonlinear_arith);
        assert(os * (count - 1) >= 0) by (nonlinear_arith)
            requires
                count >= 1,
                os >= 0,
        ;
        let a = crate::utils::uint_at(d, p, os);
        lemma_addresses(d, p + os, os, count - 1, done.push(a));
        let rest = Seq::new(
            (count - 1) as nat,
            |i: int| crate::utils::uint_at(d, p + os + os * i, os),
        );
        assert(done.push(a) + rest =~= done + all) by {
            assert(p + os * 0 == p);
            assert(all[0] == a);
            assert forall|i: int| 0 <= i < count - 1 implies rest[i] == all[i + 1] by {
                assert(p + os + os * i == p + os * (i + 1)) by (nonlinear_arith);
            }
        }
    } else {
        assert(done + all =~= done);
    }
}

/// The number that stands in a list for the address `a`.
pub open spec fn listed_address(a: int, os: u8) -> int {
    if a == u64::MAX {
        top(os) as int
    } else {
        a
    }
}

/// The addresses of the data blocks of a list are read back.
#[verifier::spinoff_prover]
#[verifier::rlimit(60)]
proof fn lemma_list_addresses(
    d: Seq<u8>,
    p: int,
    chunks: Seq<WrittenChunk>,
    sizes: Seq<usize>,
    first: int,
    n: int,
    os: u8,
    has_filters: bool,
    base: u64,
    start: int,
    rest: Seq<u8>,
)
    requires
        is_wide(os),
        0 <= p <= d.len(),
        0 <= n,
        0 <= start,
        start + chunked_write::blocks_bytes(chunks, sizes, first, n, os, has_filters, base).len()
            <= top(os),
        d.subrange(p, d.len() as int) == chunked_write::block_addresses(
            chunks,
            sizes,
            first,
            n,
            os,
            has_filters,
            base,
            start,
        ) + rest,
    ensures
        p + os * n <= d.len(),
        d.subrange(p + os * n, d.len() as int) == rest,
        forall|i: int|
            0 <= i < n ==> #[trigger] crate::utils::uint_at(d, p + os * i, os) == listed_address(
                chunked_write::block_address(
                    chunks,
                    sizes,
                    first,
                    i,
                    os,
                    has_filters,
                    base,
                    start,
                ),
                os,
            ),
    decreases n,
{
    if n > 0 {
        let a = chunked_write::block_address(
            chunks,
            sizes,
            first,
            n - 1,
            os,
            has_filters,
            base,
            start,
        );
        let last = bytes::le_bytes(a as nat, os as nat);
        let before = chunked_write::block_addresses(
            chunks,
            sizes,
            first,
            n - 1,
            os,
            has_filters,
            base,
            start,
        );
        chunked_write::lemma_blocks_prefix(
            chunks,
            sizes,
            first,
            n - 1,
            n,
            os,
            has_filters,
            base,
        );
        assert(before + last + rest =~= before + (last + rest));
        lemma_list_addresses(
            d,
            p,
            chunks,
            sizes,
            first,
            n - 1,
            os,
            has_filters,
            base,
            start,
            last + rest,
        );
        assert(os * n == os * (n - 1) + os) by (nonlinear_arith);
        lemma_top_bytes(os);
        lemma_word_field(d, p + os * (n - 1), listed_address(a, os) as nat, os, rest);
    } else {
        let none = chunked_write::block_addresses(
            chunks,
            sizes,
            first,
            n,
            os,
            has_filters,
            base,
            start,
        );
        assert(none + rest =~= rest);
        assert(os * 0 == 0);
    }
}

/// A data block of a list that holds chunks is read back.
#[verifier::spinoff_prover]
#[verifier::rlimit(60)]
proof fn lemma_listed_block(
    d: Seq<u8>,
    sizes: Seq<usize>,
    first: int,
    i: int,
    start: int,
    chunks: Seq<WrittenChunk>,
    os: u8,
    has_filters: bool,
    h: ExtensibleArrayHeader,
    g: ChunkGrid,
    base: u64,
)
    requires
        is_wide(os),
        4 <= chunked_write::block_start(sizes, first, i) < chunks.len(),
        0 <= i < sizes.len(),
        indexable(chunks, os, has_filters),
        h.client_id == chunked_write::client(has_filters),
        h.element_size == chunked_write::element_bytes(chunks, os, has_filters),
        h.max_nelmts_bits == 32,
        sizes[i] <= 0x4_0000,
        stands(d, sizes, first, start, chunks, os, has_filters, base),
    ensures
        ({
            let from = chunked_write::block_start(sizes, first, i);
            let p = chunked_write::block_address(
                chunks,
                sizes,
                first,
                i,
                os,
                has_filters,
                base,
                start,
            );
            &&& crate::extensible_array::ea_block_at(d, p, sizes[i] as int, h, os, g, from) == Ok::<
                Seq<ChunkInfoModel>,
                ErrorModel,
            >(indexed_chunks(chunks, has_filters, g, from, cap(chunks, from + sizes[i])))
            &&& 0 <= p < d.len()
            &&& p < top(os)
        }),
{
    let m = sizes.len() as int;
    let from = chunked_write::block_start(sizes, first, i);
    let size = sizes[i] as int;
    let all = chunked_write::blocks_bytes(chunks, sizes, first, m, os, has_filters, base);
    let x = chunked_write::blocks_bytes(chunks, sizes, first, i, os, has_filters, base);
    let b = chunked_write::block_bytes(chunks, from, size, os, has_filters, base);
    chunked_write::lemma_blocks_prefix(chunks, sizes, first, i + 1, m, os, has_filters, base);
    assert(chunked_write::blocks_bytes(chunks, sizes, first, i + 1, os, has_filters, base) == x
        + b);
    let none = Seq::<u8>::empty();
    assert(x + b + none =~= x + b);
    lemma_part(d, start, all, x, b, none);
    let p = start + x.len();
    let rest = d.subrange(p + b.len(), d.len() as int);
    assert(d.subrange(p, d.len() as int) =~= b + rest);
    lemma_ea_block(d, p, chunks, os, has_filters, h, g, base, from, size, rest);
    chunked_write::lemma_block_len(chunks, from, size, os, has_filters, base);
    assert(size * chunked_write::element_bytes(chunks, os, has_filters) >= 0) by (nonlinear_arith)
        requires
            size >= 0,
    ;
}

/// Whether the data blocks of a list stand in `d` at `start`.
spec fn stands(
    d: Seq<u8>,
    sizes: Seq<usize>,
    first: int,
    start: int,
    chunks: Seq<WrittenChunk>,
    os: u8,
    has_filters: bool,
    base: u64,
) -> bool {
    let all = chunked_write::blocks_bytes(
        chunks,
        sizes,
        first,
        sizes.len() as int,
        os,
        has_filters,
        base,
    );
    &&& 0 <= start
    &&& start + all.len() <= d.len() <= usize::MAX
    &&& start + all.len() <= top(os)
    &&& d.subrange(start, start + all.len()) == all
}

/// The data blocks of a list are read back.
#[verifier::spinoff_prover]
#[verifier::rlimit(60)]
proof fn lemma_blocks_read(
    d: Seq<u8>,
    addrs: Seq<u64>,
    sizes: Seq<usize>,
    first: int,
    i: int,
    start: int,
    chunks: Seq<WrittenChunk>,
    os: u8,
    has_filters: bool,
    h: ExtensibleArrayHeader,
    g: ChunkGrid,
    base: u64,
    done: Seq<ChunkInfoModel>,
)
    requires
        is_wide(os),
        4 <= first,
        0 <= i <= sizes.len(),
        indexable(chunks, os, has_filters),
        h.client_id == chunked_write::client(has_filters),
        h.element_size == chunked_write::element_bytes(chunks, os, has_filters),
        h.max_nelmts_bits == 32,
        forall|j: int| 0 <= j < sizes.len() ==> #[trigger] sizes[j] <= 0x4_0000,
        stands(d, sizes, first, start, chunks, os, has_filters, base),
        addrs.len() == sizes.len(),
        forall|j: int|
            0 <= j < sizes.len() ==> #[trigger] addrs[j] == listed_address(
                chunked_write::block_address(
                    chunks,
                    sizes,
                    first,
                    j,
                    os,
                    has_filters,
                    base,
                    start,
                ),
                os,
            ),
    ensures
        crate::extensible_array::ea_blocks(
            d,
            addrs,
            sizes,
            i,
            h,
            os,
            g,
            chunked_write::block_start(sizes, first, i),
            done,
        ) == Ok::<Seq<ChunkInfoModel>, ErrorModel>(
            done + indexed_chunks(
                chunks,
                has_filters,
                g,
                cap(chunks, chunked_write::block_start(sizes, first, i)),
                cap(chunks, chunked_write::block_start(sizes, first, sizes.len() as int)),
            ),
        ),
        chunked_write::block_start(sizes, first, i) <= chunked_write::block_start(
            sizes,
            first,
            sizes.len() as int,
        ),
    decreases sizes.len() - i,
{
    let from = chunked_write::block_start(sizes, first, i);
    let m = sizes.len() as int;
    let end = cap(chunks, chunked_write::block_start(sizes, first, m));
    if i < m {
        let next = chunked_write::block_start(sizes, first, i + 1);
        assert(next == from + sizes[i]);
        let a = chunked_write::block_address(
            chunks,
            sizes,
            first,
            i,
            os,
            has_filters,
            base,
            start,
        );
        assert(addrs[i] == listed_address(a, os));
        let found = if from < chunks.len() {
            indexed_chunks(chunks, has_filters, g, from, cap(chunks, next))
        } else {
            Seq::empty()
        };
        lemma_blocks_read(
            d,
            addrs,
            sizes,
            first,
            i + 1,
            start,
            chunks,
            os,
            has_filters,
            h,
            g,
            base,
            done + found,
        );
        let more = indexed_chunks(chunks, has_filters, g, cap(chunks, next), end);
        if from < chunks.len() {
            lemma_listed_block(d, sizes, first, i, start, chunks, os, has_filters, h, g, base);
            lemma_indexed_parts(chunks, has_filters, g, from, cap(chunks, next), end);
            assert(done + found + more =~= done + (found + more));
        } else {
            assert(done + found =~= done);
        }
    } else {
        assert(done + indexed_chunks(chunks, has_filters, g, cap(chunks, from), end) =~= done);
    }
}

// ---- Super blocks ----

/// The parts of a super block.
proof fn lemma_super_parts(
    chunks: Seq<WrittenChunk>,
    k: int,
    os: u8,
    has_filters: bool,
    base: u64,
    at: int,
    rest: Seq<u8>,
) -> (sum: Seq<u8>)
    ensures
        chunked_write::super_head(chunks, k, os, has_filters, base, at) + rest
            == crate::extensible_array::easb() + (seq![0u8, chunked_write::client(has_filters)] + (
        bytes::le_bytes(base as nat, os as nat) + (chunked_write::block_addresses(
            chunks,
            chunked_write::super_sizes(k),
            chunked_write::super_start(k),
            chunked_write::super_sizes(k).len() as int,
            os,
            has_filters,
            base,
            at + chunked_write::super_head_size(k, os),
        ) + (sum + rest)))),
{
    reveal(chunked_write::super_head);
    let a = crate::extensible_array::easb();
    let b = seq![0u8, chunked_write::client(has_filters)];
    let c = bytes::le_bytes(base as nat, os as nat);
    let e = chunked_write::block_addresses(
        chunks,
        chunked_write::super_sizes(k),
        chunked_write::super_start(k),
        chunked_write::super_sizes(k).len() as int,
        os,
        has_filters,
        base,
        at + chunked_write::super_head_size(k, os),
    );
    let body = a + b + c + e;
    let sum = bytes::le_bytes(crate::checksum::lookup3(body) as nat, 4);
    assert(a + b + c + e + sum + rest =~= a + (b + (c + (e + (sum + rest)))));
    sum
}

/// A super block is read back.
#[verifier::spinoff_prover]
#[verifier::rlimit(60)]
proof fn lemma_super_read(
    d: Seq<u8>,
    at: int,
    chunks: Seq<WrittenChunk>,
    k: int,
    os: u8,
    has_filters: bool,
    h: ExtensibleArrayHeader,
    g: ChunkGrid,
    base: u64,
)
    requires
        is_wide(os),
        4 <= k < chunked_write::SUPER_BLOCKS,
        indexable(chunks, os, has_filters),
        h.client_id == chunked_write::client(has_filters),
        h.element_size == chunked_write::element_bytes(chunks, os, has_filters),
        h.max_nelmts_bits == 32,
        ({
            let head = chunked_write::super_head(chunks, k, os, has_filters, base, at);
            let blocks = chunked_write::super_blocks(chunks, k, os, has_filters, base);
            &&& 0 <= at
            &&& at + head.len() + blocks.len() <= d.len() <= usize::MAX
            &&& at + head.len() + blocks.len() <= top(os)
            &&& d.subrange(at, at + head.len()) == head
            &&& d.subrange(at + head.len(), at + head.len() + blocks.len()) == blocks
        }),
    ensures
        crate::extensible_array::ea_super_at(
            d,
            at,
            crate::extensible_array::super_count(k) as usize,
            crate::extensible_array::super_size(k, 16) as usize,
            h,
            os,
            g,
            chunked_write::super_start(k),
        ) == Ok::<Seq<ChunkInfoModel>, ErrorModel>(
            indexed_chunks(
                chunks,
                has_filters,
                g,
                cap(chunks, chunked_write::super_start(k)),
                cap(chunks, chunked_write::super_start(k + 1)),
            ),
        ),
        at + 4 <= d.len(),
{
    let head = chunked_write::super_head(chunks, k, os, has_filters, base, at);
    let sizes = chunked_write::super_sizes(k);
    let first = chunked_write::super_start(k);
    let start = at + chunked_write::super_head_size(k, os);
    let count = sizes.len() as int;
    chunked_write::lemma_super_bounds(k);
    chunked_write::lemma_super_start(k);
    chunked_write::lemma_super_head_len(chunks, k, os, has_filters, base, at);
    reveal(chunked_write::super_blocks);
    let rest = d.subrange(at + head.len(), d.len() as int);
    assert(d.subrange(at, d.len() as int) =~= head + rest);
    let sum = lemma_super_parts(chunks, k, os, has_filters, base, at, rest);
    let a = crate::extensible_array::easb();
    let b = seq![0u8, chunked_write::client(has_filters)];
    let c = bytes::le_bytes(base as nat, os as nat);
    let list = chunked_write::block_addresses(
        chunks,
        sizes,
        first,
        count,
        os,
        has_filters,
        base,
        start,
    );
    bytes::lemma_le_bytes_len(base as nat, os as nat);
    lemma_byte_fields(d, at, a, b + (c + (list + (sum + rest))));
    bytes::lemma_peel(d, at + 4, b, c + (list + (sum + rest)));
    bytes::lemma_peel(d, at + 6, c, list + (sum + rest));
    let p = at + 6 + os;
    lemma_list_addresses(
        d,
        p,
        chunks,
        sizes,
        first,
        count,
        os,
        has_filters,
        base,
        start,
        sum + rest,
    );
    lemma_addresses(d, p, os, count, Seq::empty());
    let found = Seq::new(count as nat, |i: int| crate::utils::uint_at(d, p + os * i, os));
    assert(Seq::<u64>::empty() + found =~= found);
    lemma_blocks_read(
        d,
        found,
        sizes,
        first,
        0,
        start,
        chunks,
        os,
        has_filters,
        h,
        g,
        base,
        Seq::empty(),
    );
    crate::extensible_array::lemma_equal_sum(
        crate::extensible_array::super_count(k),
        crate::extensible_array::super_size(k, 16) as usize,
        count,
    );
    let all = indexed_chunks(
        chunks,
        has_filters,
        g,
        cap(chunks, first),
        cap(chunks, chunked_write::super_start(k + 1)),
    );
    assert(Seq::<ChunkInfoModel>::empty() + all =~= all);
}

/// The super blocks that the reader expects are those that hold chunks.
proof fn lemma_layout(k: int, n: int)
    requires
        4 <= k <= chunked_write::SUPER_BLOCKS,
        n <= chunked_write::super_start(chunked_write::SUPER_BLOCKS as int),
    ensures
        ({
            let infos = crate::extensible_array::super_layout(
                k,
                16,
                chunked_write::super_start(k) - 244,
                n - 244,
            );
            &&& k + infos.len() <= chunked_write::SUPER_BLOCKS
            &&& chunked_write::super_start(k + infos.len()) >= n
            &&& forall|i: int|
                0 <= i < infos.len() ==> {
                    &&& (#[trigger] infos[i]).0 == crate::extensible_array::super_count(k + i)
                    &&& infos[i].1 == crate::extensible_array::super_size(k + i, 16)
                    &&& chunked_write::super_start(k + i) < n
                }
        }),
    decreases chunked_write::SUPER_BLOCKS - k,
{
    let covered = chunked_write::super_start(k) - 244;
    let infos = crate::extensible_array::super_layout(k, 16, covered, n - 244);
    if chunked_write::super_start(k) < n {
        chunked_write::lemma_super_bounds(k);
        let a = crate::extensible_array::super_count(k) as int;
        let b = crate::extensible_array::super_size(k, 16);
        assert(a * b > 0) by (nonlinear_arith)
            requires
                a >= 1,
                b >= 16,
        ;
        lemma_layout(k + 1, n);
        let more = crate::extensible_array::super_layout(k + 1, 16, covered + a * b, n - 244);
        assert(infos == seq![(a as usize, b as usize)] + more);
        assert forall|i: int| 0 <= i < infos.len() implies {
            &&& (#[trigger] infos[i]).0 == crate::extensible_array::super_count(k + i)
            &&& infos[i].1 == crate::extensible_array::super_size(k + i, 16)
            &&& chunked_write::super_start(k + i) < n
        } by {
            if i > 0 {
                assert(infos[i] == more[i - 1]);
                assert(k + 1 + (i - 1) == k + i);
            }
        }
    }
}

/// Where there are chunks in a later super block, the earlier ones hold chunks, too.
proof fn lemma_starts_grow(a: int, b: int)
    requires
        0 <= a <= b <= chunked_write::SUPER_BLOCKS,
    ensures
        chunked_write::super_start(a) <= chunked_write::super_start(b),
    decreases b - a,
{
    if a < b {
        lemma_starts_grow(a, b - 1);
        chunked_write::lemma_super_bounds(b - 1);
        let x = crate::extensible_array::super_count(b - 1) as int;
        let y = crate::extensible_array::super_size(b - 1, 16);
        assert(x * y >= 0) by (nonlinear_arith)
            requires
                x >= 0,
                y >= 0,
        ;
    }
}

/// The super blocks are read back.
#[verifier::spinoff_prover]
#[verifier::rlimit(60)]
proof fn lemma_supers_read(
    d: Seq<u8>,
    addrs: Seq<u64>,
    infos: Seq<(usize, usize)>,
    i: int,
    start: int,
    chunks: Seq<WrittenChunk>,
    os: u8,
    has_filters: bool,
    h: ExtensibleArrayHeader,
    g: ChunkGrid,
    base: u64,
    done: Seq<ChunkInfoModel>,
)
    requires
        is_wide(os),
        indexable(chunks, os, has_filters),
        h.client_id == chunked_write::client(has_filters),
        h.element_size == chunked_write::element_bytes(chunks, os, has_filters),
        h.max_nelmts_bits == 32,
        0 <= i <= infos.len(),
        4 + infos.len() <= chunked_write::SUPER_BLOCKS,
        addrs.len() == infos.len(),
        chunked_write::super_start(4 + infos.len() as int) >= chunks.len(),
        forall|j: int|
            0 <= j < infos.len() ==> {
                &&& (#[trigger] infos[j]).0 == crate::extensible_array::super_count(4 + j)
                &&& infos[j].1 == crate::extensible_array::super_size(4 + j, 16)
                &&& chunked_write::super_start(4 + j) < chunks.len()
            },
        forall|j: int|
            0 <= j < infos.len() ==> #[trigger] addrs[j] == listed_address(
                chunked_write::super_address(chunks, 4 + j, os, has_filters, base, start),
                os,
            ),
        ({
            let all = chunked_write::supers_bytes(
                chunks,
                chunked_write::SUPER_BLOCKS as int,
                os,
                has_filters,
                base,
                start,
            );
            &&& 0 <= start
            &&& start + all.len() <= d.len() <= usize::MAX
            &&& start + all.len() <= top(os)
            &&& d.subrange(start, start + all.len()) == all
        }),
    ensures
        crate::extensible_array::ea_supers(
            d,
            addrs,
            infos,
            i,
            h,
            os,
            g,
            chunked_write::super_start(4 + i),
            done,
        ) == Ok::<Seq<ChunkInfoModel>, ErrorModel>(
            done + indexed_chunks(
                chunks,
                has_filters,
                g,
                cap(chunks, chunked_write::super_start(4 + i)),
                chunks.len() as int,
            ),
        ),
    decreases infos.len() - i,
{
    let n = chunks.len() as int;
    let k = 4 + i;
    let from = chunked_write::super_start(k);
    if i < infos.len() {
        let last = chunked_write::SUPER_BLOCKS as int;
        let all = chunked_write::supers_bytes(chunks, last, os, has_filters, base, start);
        let x = chunked_write::supers_bytes(chunks, k, os, has_filters, base, start);
        let y = chunked_write::supers_bytes(chunks, k + 1, os, has_filters, base, start);
        let at = start + x.len();
        let head = chunked_write::super_head(chunks, k, os, has_filters, base, at);
        let blocks = chunked_write::super_blocks(chunks, k, os, has_filters, base);
        assert(infos[i].0 == crate::extensible_array::super_count(k));
        assert(addrs[i] == listed_address(
            chunked_write::super_address(chunks, k, os, has_filters, base, start),
            os,
        ));
        chunked_write::lemma_supers_prefix(chunks, k + 1, last, os, has_filters, base, start);
        assert(y == x + head + blocks);
        lemma_part(d, start, all, x, head, blocks);
        chunked_write::lemma_super_head_len(chunks, k, os, has_filters, base, at);
        lemma_super_read(d, at, chunks, k, os, has_filters, h, g, base);
        chunked_write::lemma_super_bounds(k);
        assert(chunked_write::super_head_size(k, os) > 0) by {
            assert(crate::extensible_array::super_count(k) * os >= 0) by (nonlinear_arith)
                requires
                    crate::extensible_array::super_count(k) >= 0,
            ;
        }
        assert(addrs[i] == at);
        lemma_starts_grow(k, k + 1);
        let next = chunked_write::super_start(k + 1);
        let found = indexed_chunks(chunks, has_filters, g, from, cap(chunks, next));
        lemma_supers_read(
            d,
            addrs,
            infos,
            i + 1,
            start,
            chunks,
            os,
            has_filters,
            h,
            g,
            base,
            done + found,
        );
        lemma_indexed_parts(chunks, has_filters, g, from, cap(chunks, next), n);
        let more = indexed_chunks(chunks, has_filters, g, cap(chunks, next), n);
        assert(done + found + more =~= done + (found + more));
    } else {
        assert(done + indexed_chunks(chunks, has_filters, g, cap(chunks, from), n) =~= done);
    }
}

/// Parts of what stands in `d` at `start`.
proof fn lemma_part(
    d: Seq<u8>,
    start: int,
    all: Seq<u8>,
    x: Seq<u8>,
    a: Seq<u8>,
    b: Seq<u8>,
)
    requires
        0 <= start,
        start + all.len() <= d.len(),
        d.subrange(start, start + all.len()) == all,
        (x + a + b).len() <= all.len(),
        all.subrange(0, (x + a + b).len() as int) == x + a + b,
    ensures
        d.subrange(start + x.len(), start + x.len() + a.len()) == a,
        d.subrange(start + x.len() + a.len(), start + x.len() + a.len() + b.len()) == b,
{
    let y = x + a + b;
    let i = x.len() as int;
    let j = i + a.len();
    let k = j + b.len();
    assert(y.subrange(i, j) =~= a);
    assert(y.subrange(j, k) =~= b);
    assert(all.subrange(0, k).subrange(i, j) =~= all.subrange(i, j));
    assert(all.subrange(0, k).subrange(j, k) =~= all.subrange(j, k));
    assert(d.subrange(start, start + all.len()).subrange(i, j) =~= d.subrange(start + i, start + j));
    assert(d.subrange(start, start + all.len()).subrange(j, k) =~= d.subrange(start + j, start + k));
}

/// The addresses of the super blocks are read back.
proof fn lemma_super_list(
    d: Seq<u8>,
    p: int,
    chunks: Seq<WrittenChunk>,
    k: int,
    os: u8,
    has_filters: bool,
    base: u64,
    start: int,
    rest: Seq<u8>,
)
    requires
        is_wide(os),
        0 <= p <= d.len(),
        4 <= k,
        0 <= start,
        start + chunked_write::supers_bytes(chunks, k, os, has_filters, base, start).len()
            <= top(os),
        d.subrange(p, d.len() as int) == chunked_write::super_addresses(
            chunks,
            k,
            os,
            has_filters,
            base,
            start,
        ) + rest,
    ensures
        p + os * (k - 4) <= d.len(),
        d.subrange(p + os * (k - 4), d.len() as int) == rest,
        forall|i: int|
            0 <= i < k - 4 ==> #[trigger] crate::utils::uint_at(d, p + os * i, os)
                == listed_address(
                chunked_write::super_address(chunks, 4 + i, os, has_filters, base, start),
                os,
            ),
    decreases k,
{
    if k > 4 {
        let a = chunked_write::super_address(chunks, k - 1, os, has_filters, base, start);
        let last = bytes::le_bytes(a as nat, os as nat);
        let before = chunked_write::super_addresses(
            chunks,
            k - 1,
            os,
            has_filters,
            base,
            start,
        );
        chunked_write::lemma_supers_prefix(chunks, k - 1, k, os, has_filters, base, start);
        assert(before + last + rest =~= before + (last + rest));
        lemma_super_list(
            d,
            p,
            chunks,
            k - 1,
            os,
            has_filters,
            base,
            start,
            last + rest,
        );
        assert(os * (k - 4) == os * (k - 5) + os) by (nonlinear_arith);
        lemma_top_bytes(os);
        lemma_word_field(d, p + os * (k - 5), listed_address(a, os) as nat, os, rest);
        assert(4 + (k - 5) == k - 1);
    } else {
        let none = chunked_write::super_addresses(chunks, k, os, has_filters, base, start);
        assert(none + rest =~= rest);
        assert(os * 0 == 0);
    }
}

// ---- The whole array ----

/// The header of an Extensible Array is read back, whatever its statistics and its checksum are.
#[verifier::spinoff_prover]
#[verifier::rlimit(40)]
proof fn lemma_ea_header(
    d: Seq<u8>,
    base: u64,
    chunks: Seq<WrittenChunk>,
    os: u8,
    ls: u8,
    has_filters: bool,
    stats: Seq<u8>,
    max_index: Seq<u8>,
    sum: Seq<u8>,
    rest: Seq<u8>,
)
    requires
        is_wide(os),
        is_wide(ls),
        base + crate::extensible_array::header_size(os, ls) <= top(os),
        base <= d.len(),
        stats.len() == 4 * ls,
        max_index.len() == ls,
        sum.len() == 4,
        chunks.len() <= top(ls),
        d.subrange(base as int, d.len() as int) == crate::extensible_array::eahd() + (seq![
            0u8,
            chunked_write::client(has_filters),
            chunked_write::element_bytes(chunks, os, has_filters) as u8,
            32u8,
            4u8,
            16u8,
            4u8,
            10u8,
        ] + (stats + (bytes::le_bytes(chunks.len(), ls as nat) + (max_index + (bytes::le_bytes(
            (base + crate::extensible_array::header_size(os, ls)) as nat,
            os as nat,
        ) + (sum + rest)))))),
    ensures
        crate::extensible_array::extensible_array_at(d, base as int, os, ls) == Ok::<
            ExtensibleArrayHeader,
            ErrorModel,
        >(written_extensible_header(chunks, os, ls, has_filters, base)),
        base + crate::extensible_array::header_size(os, ls) <= d.len(),
        d.subrange(base + crate::extensible_array::header_size(os, ls), d.len() as int) == rest,
{
    let h = written_extensible_header(chunks, os, ls, has_filters, base);
    let n = chunks.len();
    let b = base as int;
    let at = (base + crate::extensible_array::header_size(os, ls)) as nat;
    let t0 = crate::extensible_array::eahd();
    let t1 = seq![
        0u8,
        chunked_write::client(has_filters),
        h.element_size,
        32u8,
        4u8,
        16u8,
        4u8,
        10u8,
    ];
    let f1 = bytes::le_bytes(n, ls as nat);
    let f2 = bytes::le_bytes(at, os as nat);
    let t2 = stats + (f1 + (max_index + (f2 + (sum + rest))));
    lemma_byte_fields(d, b, t0, t1 + t2);
    lemma_byte_fields(d, b + 4, t1, t2);
    assert(t1[0] == d[b + 4 + 0] && t1[1] == d[b + 4 + 1] && t1[2] == d[b + 4 + 2] && t1[3] == d[b
        + 4 + 3]);
    assert(t1[4] == d[b + 4 + 4] && t1[5] == d[b + 4 + 5] && t1[6] == d[b + 4 + 6] && t1[7] == d[b
        + 4 + 7]);
    let p = b + 12 + 4 * ls;
    bytes::lemma_peel(d, b + 12, stats, f1 + (max_index + (f2 + (sum + rest))));
    lemma_word_field(d, p, n, ls, max_index + (f2 + (sum + rest)));
    bytes::lemma_peel(d, p + ls, max_index, f2 + (sum + rest));
    lemma_word_field(d, p + 2 * ls, at, os, sum + rest);
    bytes::lemma_peel(d, p + 2 * ls + os, sum, rest);
}

proof fn lemma_header_parts(
    d: Seq<u8>,
    chunks: Seq<WrittenChunk>,
    os: u8,
    ls: u8,
    has_filters: bool,
    base: u64,
    rest: Seq<u8>,
)
    requires
        is_wide(os),
        is_wide(ls),
        base + crate::extensible_array::header_size(os, ls) <= top(os),
        base <= d.len(),
        chunks.len() <= top(ls),
        d.subrange(base as int, d.len() as int) == chunked_write::extensible_header_bytes(
            chunks,
            os,
            ls,
            has_filters,
            base,
        ) + rest,
    ensures
        crate::extensible_array::extensible_array_at(d, base as int, os, ls) == Ok::<
            ExtensibleArrayHeader,
            ErrorModel,
        >(written_extensible_header(chunks, os, ls, has_filters, base)),
        base + crate::extensible_array::header_size(os, ls) <= d.len(),
        d.subrange(base + crate::extensible_array::header_size(os, ls), d.len() as int) == rest,
{
    let n = chunks.len() as int;
    let size = chunked_write::element_bytes(chunks, os, has_filters);
    let a = crate::extensible_array::eahd();
    let b = seq![0u8, chunked_write::client(has_filters), size as u8, 32u8, 4u8, 16u8, 4u8, 10u8];
    let w = ls as nat;
    let z = bytes::le_bytes(0, w);
    let v2 = chunked_write::all_blocks(n, chunked_write::SUPER_BLOCKS as int);
    let elements = chunked_write::all_elements(n, chunked_write::SUPER_BLOCKS as int);
    let v3 = v2 * (10 + os as nat) + elements * size;
    let v5 = 4 + elements;
    let z2 = bytes::le_bytes(v2, w);
    let z3 = bytes::le_bytes(v3, w);
    let f = bytes::le_bytes(n as nat, w);
    let z5 = bytes::le_bytes(v5, w);
    let g = bytes::le_bytes(
        (base + crate::extensible_array::header_size(os, ls)) as nat,
        os as nat,
    );
    let body = a + b + z + z + z2 + z3 + f + z5 + g;
    let sum = bytes::le_bytes(crate::checksum::lookup3(body) as nat, 4);
    bytes::lemma_le_bytes_len(crate::checksum::lookup3(body) as nat, 4);
    bytes::lemma_le_bytes_len(0, w);
    bytes::lemma_le_bytes_len(v2, w);
    bytes::lemma_le_bytes_len(v3, w);
    bytes::lemma_le_bytes_len(v5, w);
    let stats = z + z + z2 + z3;
    assert(chunked_write::extensible_header_bytes(chunks, os, ls, has_filters, base) == body + sum);
    lemma_regroup_header(a, b, z, z, z2, z3, f, z5, g, sum, rest);
    lemma_ea_header(d, base, chunks, os, ls, has_filters, stats, z5, sum, rest);
}

proof fn lemma_regroup_header(
    a: Seq<u8>,
    b: Seq<u8>,
    c: Seq<u8>,
    d: Seq<u8>,
    e: Seq<u8>,
    f: Seq<u8>,
    g: Seq<u8>,
    h: Seq<u8>,
    i: Seq<u8>,
    j: Seq<u8>,
    k: Seq<u8>,
)
    ensures
        (a + b + c + d + e + f + g + h + i) + j + k == a + (b + ((c + d + e + f) + (g + (h + (i + (j
            + k)))))),
{
    let x = c + d + e + f;
    assert(a + b + c + d + e + f =~= a + b + x);
    let y = a + b + x;
    assert((y + g + h + i) + j + k =~= y + (g + (h + (i + (j + k)))));
    assert(y + (g + (h + (i + (j + k)))) =~= a + (b + (x + (g + (h + (i + (j + k)))))));
}

/// The lists of addresses of an index block.
spec fn block_list(
    chunks: Seq<WrittenChunk>,
    os: u8,
    ls: u8,
    has_filters: bool,
    base: u64,
) -> Seq<u8> {
    chunked_write::block_addresses(
        chunks,
        chunked_write::block_sizes(),
        4,
        6,
        os,
        has_filters,
        base,
        chunked_write::blocks_position(chunks, os, ls, has_filters, base),
    )
}

spec fn super_list(
    chunks: Seq<WrittenChunk>,
    os: u8,
    ls: u8,
    has_filters: bool,
    base: u64,
) -> Seq<u8> {
    chunked_write::super_addresses(
        chunks,
        chunked_write::SUPER_BLOCKS as int,
        os,
        has_filters,
        base,
        chunked_write::supers_position(chunks, os, ls, has_filters, base),
    )
}

spec fn inline_elements(chunks: Seq<WrittenChunk>, os: u8, has_filters: bool) -> Seq<u8> {
    chunked_write::elements_bytes(
        chunks,
        0,
        4,
        os,
        has_filters,
        chunked_write::size_bytes(chunks, has_filters),
    )
}

#[verifier::spinoff_prover]
#[verifier::rlimit(60)]
proof fn lemma_index_parts(
    chunks: Seq<WrittenChunk>,
    os: u8,
    ls: u8,
    has_filters: bool,
    base: u64,
    rest: Seq<u8>,
) -> (sum: Seq<u8>)
    ensures
        chunked_write::index_block_bytes(chunks, os, ls, has_filters, base) + rest
            == crate::extensible_array::eaib() + (seq![0u8, chunked_write::client(has_filters)] + (
        bytes::le_bytes(base as nat, os as nat) + (inline_elements(chunks, os, has_filters) + (
        block_list(chunks, os, ls, has_filters, base) + (super_list(
            chunks,
            os,
            ls,
            has_filters,
            base,
        ) + (sum + rest)))))),
        sum.len() == 4,
{
    let a = crate::extensible_array::eaib();
    let b = seq![0u8, chunked_write::client(has_filters)];
    let c = bytes::le_bytes(base as nat, os as nat);
    let e = inline_elements(chunks, os, has_filters);
    let f = block_list(chunks, os, ls, has_filters, base);
    let s = super_list(chunks, os, ls, has_filters, base);
    let body = a + b + c + e + f + s;
    let sum = bytes::le_bytes(crate::checksum::lookup3(body) as nat, 4);
    bytes::lemma_le_bytes_len(crate::checksum::lookup3(body) as nat, 4);
    assert(chunked_write::index_block_bytes(chunks, os, ls, has_filters, base) == body + sum);
    lemma_regroup_6(a, b, c, e, f, s, sum + rest);
    assert(body + sum + rest =~= body + (sum + rest));
    sum
}

/// What is read of the index block, of its data blocks and of its super blocks.
#[verifier::spinoff_prover]
#[verifier::rlimit(60)]
proof fn lemma_direct_read(
    d: Seq<u8>,
    p: int,
    chunks: Seq<WrittenChunk>,
    os: u8,
    ls: u8,
    has_filters: bool,
    base: u64,
    g: ChunkGrid,
    sum: Seq<u8>,
    rest: Seq<u8>,
)
    requires
        is_wide(os),
        4 < chunks.len() <= chunked_write::super_start(chunked_write::SUPER_BLOCKS as int),
        chunks.len() <= usize::MAX,
        indexable(chunks, os, has_filters),
        d.len() <= usize::MAX,
        d.len() <= top(os),
        sum.len() == 4,
        0 <= p <= d.len(),
        base + crate::extensible_array::header_size(os, ls) <= d.len(),
        p == crate::extensible_array::direct_position(
            written_extensible_header(chunks, os, ls, has_filters, base),
            os,
        ),
        d.subrange(p, d.len() as int) == block_list(chunks, os, ls, has_filters, base) + (
        super_list(chunks, os, ls, has_filters, base) + (sum + (chunked_write::listed_blocks(
            chunks,
            os,
            has_filters,
            base,
        ) + (chunked_write::listed_supers(chunks, os, ls, has_filters, base) + rest)))),
    ensures
        crate::extensible_array::direct_chunks(
            d,
            written_extensible_header(chunks, os, ls, has_filters, base),
            os,
            g,
            indexed_chunks(chunks, has_filters, g, 0, 4),
        ) == Ok::<Seq<ChunkInfoModel>, ErrorModel>(
            indexed_chunks(chunks, has_filters, g, 0, chunks.len() as int),
        ),
{
    let h = written_extensible_header(chunks, os, ls, has_filters, base);
    let n = chunks.len() as int;
    let start = chunked_write::blocks_position(chunks, os, ls, has_filters, base);
    let supers = chunked_write::supers_position(chunks, os, ls, has_filters, base);
    let last = chunked_write::SUPER_BLOCKS as int;
    let sizes = chunked_write::block_sizes();
    let list = block_list(chunks, os, ls, has_filters, base);
    let slist = super_list(chunks, os, ls, has_filters, base);
    let blocks = chunked_write::listed_blocks(chunks, os, has_filters, base);
    let sblocks = chunked_write::listed_supers(chunks, os, ls, has_filters, base);
    let found = indexed_chunks(chunks, has_filters, g, 0, 4);
    lemma_size_width(chunks);
    chunked_write::lemma_fourth();
    chunked_write::lemma_addresses_len(chunks, sizes, 4, 6, os, has_filters, base, start);
    chunked_write::lemma_super_addresses_len(chunks, last, os, has_filters, base, supers);
    let q = p + 6 * os;
    let r = q + 25 * os;
    bytes::lemma_peel(d, p, list, slist + (sum + (blocks + (sblocks + rest))));
    bytes::lemma_peel(d, q, slist, sum + (blocks + (sblocks + rest)));
    bytes::lemma_peel(d, r, sum, blocks + (sblocks + rest));
    assert(start == r + 4);
    bytes::lemma_peel(d, start, blocks, sblocks + rest);
    bytes::lemma_peel(d, supers, sblocks, rest);
    // The data blocks that the index block lists
    lemma_list_addresses(
        d,
        p,
        chunks,
        sizes,
        4,
        6,
        os,
        has_filters,
        base,
        start,
        slist + (sum + (blocks + (sblocks + rest))),
    );
    lemma_addresses(d, p, os, 6, Seq::empty());
    let addrs = Seq::new(6, |i: int| crate::utils::uint_at(d, p + os * i, os));
    assert(Seq::<u64>::empty() + addrs =~= addrs);
    lemma_blocks_read(
        d,
        addrs,
        sizes,
        4,
        0,
        start,
        chunks,
        os,
        has_filters,
        h,
        g,
        base,
        found,
    );
    lemma_indexed_parts(chunks, has_filters, g, 0, 4, cap(chunks, 244));
    assert(crate::extensible_array::listed_sizes(h) == sizes);
    assert(crate::extensible_array::sum_to(sizes, 6) == 240);
    assert(crate::extensible_array::sum_to(sizes, 0) == 0);
    assert(crate::extensible_array::listed_total(h) == 244);
    if n > 244 {
        // The super blocks
        lemma_layout(4, n);
        let infos = crate::extensible_array::listed_supers(h);
        assert(infos == crate::extensible_array::super_layout(4, 16, 0, n - 244));
        lemma_super_list(
            d,
            q,
            chunks,
            last,
            os,
            has_filters,
            base,
            supers,
            sum + (blocks + (sblocks + rest)),
        );
        let count = infos.len() as int;
        assert(os * count <= os * 25) by (nonlinear_arith)
            requires
                count <= 25,
                os >= 0,
        ;
        lemma_addresses(d, q, os, count, Seq::empty());
        let saddrs = Seq::new(count as nat, |i: int| crate::utils::uint_at(d, q + os * i, os));
        assert(Seq::<u64>::empty() + saddrs =~= saddrs);
        assert(crate::extensible_array::super_addresses(d, h, os, 6) == Ok::<Seq<u64>, ErrorModel>(
            saddrs,
        ));
        let direct = indexed_chunks(chunks, has_filters, g, 0, 244);
        lemma_supers_read(
            d,
            saddrs,
            infos,
            0,
            supers,
            chunks,
            os,
            has_filters,
            h,
            g,
            base,
            direct,
        );
        lemma_indexed_parts(chunks, has_filters, g, 0, 244, n);
    }
}

/// What is read of the elements in the index block.
#[verifier::spinoff_prover]
#[verifier::rlimit(60)]
proof fn lemma_inline_read(
    d: Seq<u8>,
    ib: int,
    chunks: Seq<WrittenChunk>,
    os: u8,
    has_filters: bool,
    base: u64,
    h: ExtensibleArrayHeader,
    g: ChunkGrid,
    rest: Seq<u8>,
)
    requires
        is_wide(os),
        indexable(chunks, os, has_filters),
        h.client_id == chunked_write::client(has_filters),
        h.element_size == chunked_write::element_bytes(chunks, os, has_filters),
        0 <= ib <= d.len(),
        d.subrange(ib, d.len() as int) == crate::extensible_array::eaib() + (seq![
            0u8,
            chunked_write::client(has_filters),
        ] + (bytes::le_bytes(base as nat, os as nat) + (inline_elements(chunks, os, has_filters)
            + rest))),
    ensures
        ib + 6 + os <= d.len(),
        crate::bytes::has_tag(d, ib, crate::extensible_array::eaib()),
        crate::extensible_array::ea_elements_at(
            d,
            ib + 6 + os,
            h,
            os,
            g,
            0,
            cap(chunks, 4),
            Seq::empty(),
        ) == Ok::<Seq<ChunkInfoModel>, ErrorModel>(
            indexed_chunks(chunks, has_filters, g, 0, cap(chunks, 4)),
        ),
        chunks.len() > 4 ==> ({
            let p = ib + 6 + os + 4 * chunked_write::element_bytes(chunks, os, has_filters);
            p <= d.len() && d.subrange(p, d.len() as int) == rest
        }),
{
    let w = chunked_write::size_bytes(chunks, has_filters);
    let t0 = crate::extensible_array::eaib();
    let t1 = seq![0u8, chunked_write::client(has_filters)];
    let f3 = bytes::le_bytes(base as nat, os as nat);
    let el = inline_elements(chunks, os, has_filters);
    bytes::lemma_le_bytes_len(base as nat, os as nat);
    lemma_byte_fields(d, ib, t0, t1 + (f3 + (el + rest)));
    bytes::lemma_peel(d, ib + 4, t1, f3 + (el + rest));
    bytes::lemma_peel(d, ib + 6, f3, el + rest);
    let inline = cap(chunks, 4);
    let el0 = chunked_write::elements_bytes(chunks, 0, inline, os, has_filters, w);
    let more = chunked_write::elements_bytes(chunks, inline, 4 - inline, os, has_filters, w);
    lemma_elements_split(chunks, 0, inline, 4 - inline, os, has_filters, w);
    assert(el0 + more + rest =~= el0 + (more + rest));
    lemma_ea_elements(
        d,
        ib + 6 + os,
        chunks,
        os,
        has_filters,
        h,
        g,
        0,
        inline,
        more + rest,
        Seq::empty(),
    );
    let found = indexed_chunks(chunks, has_filters, g, 0, inline);
    assert(Seq::<ChunkInfoModel>::empty() + found =~= found);
    if chunks.len() > 4 {
        assert(more =~= Seq::<u8>::empty());
        assert(more + rest =~= rest);
    }
}

/// What is read of an Extensible Array behind its header.
#[verifier::spinoff_prover]
#[verifier::rlimit(60)]
proof fn lemma_index_read(
    d: Seq<u8>,
    chunks: Seq<WrittenChunk>,
    os: u8,
    ls: u8,
    has_filters: bool,
    base: u64,
    dims: Seq<u64>,
    chunk: Seq<u32>,
    size: u32,
    sum: Seq<u8>,
    rest: Seq<u8>,
)
    requires
        is_wide(os),
        chunks.len() <= chunked_write::super_start(chunked_write::SUPER_BLOCKS as int),
        chunks.len() <= usize::MAX,
        indexable(chunks, os, has_filters),
        d.len() <= usize::MAX,
        d.len() <= top(os),
        base + crate::extensible_array::header_size(os, ls) <= d.len(),
        sum.len() == 4,
        d.subrange(base + crate::extensible_array::header_size(os, ls), d.len() as int)
            == crate::extensible_array::eaib() + (seq![0u8, chunked_write::client(has_filters)] + (
        bytes::le_bytes(base as nat, os as nat) + (inline_elements(chunks, os, has_filters) + (
        block_list(chunks, os, ls, has_filters, base) + (super_list(
            chunks,
            os,
            ls,
            has_filters,
            base,
        ) + (sum + (chunked_write::listed_blocks(chunks, os, has_filters, base) + (
        chunked_write::listed_supers(chunks, os, ls, has_filters, base) + rest)))))))),
    ensures
        crate::extensible_array::extensible_chunks(
            d,
            written_extensible_header(chunks, os, ls, has_filters, base),
            dims,
            chunk,
            size,
            os,
        ) == Ok::<Seq<ChunkInfoModel>, ErrorModel>(
            indexed_chunks(
                chunks,
                has_filters,
                crate::fixed_array::grid_of(dims, chunk, size),
                0,
                chunks.len() as int,
            ),
        ),
{
    let h = written_extensible_header(chunks, os, ls, has_filters, base);
    let g = crate::fixed_array::grid_of(dims, chunk, size);
    let ib = base + crate::extensible_array::header_size(os, ls);
    let t4 = block_list(chunks, os, ls, has_filters, base) + (super_list(
        chunks,
        os,
        ls,
        has_filters,
        base,
    ) + (sum + (chunked_write::listed_blocks(chunks, os, has_filters, base) + (
    chunked_write::listed_supers(chunks, os, ls, has_filters, base) + rest))));
    lemma_size_width(chunks);
    lemma_inline_read(d, ib, chunks, os, has_filters, base, h, g, t4);
    if chunks.len() > 4 {
        let p = ib + 6 + os + 4 * chunked_write::element_bytes(chunks, os, has_filters);
        assert(crate::extensible_array::direct_position(h, os) == p);
        lemma_direct_read(d, p, chunks, os, ls, has_filters, base, g, sum, rest);
    }
}

/// An Extensible Array, with addresses and lengths of four or eight bytes, read back, lists the
/// chunks as they were written: all of them, up to those that its super blocks have room for.
pub proof fn law_extensible_array_round_trip(
    d: Seq<u8>,
    chunks: Seq<WrittenChunk>,
    os: u8,
    ls: u8,
    has_filters: bool,
    base: u64,
    dims: Seq<u64>,
    chunk: Seq<u32>,
    size: u32,
    rest: Seq<u8>,
)
    requires
        is_wide(os),
        is_wide(ls),
        chunks.len() <= chunked_write::super_start(chunked_write::SUPER_BLOCKS as int),
        chunks.len() <= usize::MAX,
        chunks.len() <= top(ls),
        indexable(chunks, os, has_filters),
        d.len() <= usize::MAX,
        d.len() <= top(os),
        base + crate::extensible_array::header_size(os, ls) <= top(os),
        base <= d.len(),
        d.subrange(base as int, d.len() as int) == chunked_write::extensible_array_bytes(
            chunks,
            os,
            ls,
            has_filters,
            base,
        ) + rest,
    ensures
        ({
            let h = written_extensible_header(chunks, os, ls, has_filters, base);
            let g = crate::fixed_array::grid_of(dims, chunk, size);
            &&& crate::extensible_array::extensible_array_at(d, base as int, os, ls) == Ok::<
                ExtensibleArrayHeader,
                ErrorModel,
            >(h)
            &&& crate::extensible_array::extensible_chunks(d, h, dims, chunk, size, os) == Ok::<
                Seq<ChunkInfoModel>,
                ErrorModel,
            >(indexed_chunks(chunks, has_filters, g, 0, chunks.len() as int))
        }),
{
    let header = chunked_write::extensible_header_bytes(chunks, os, ls, has_filters, base);
    let index = chunked_write::index_block_bytes(chunks, os, ls, has_filters, base);
    let blocks = chunked_write::listed_blocks(chunks, os, has_filters, base);
    let supers = chunked_write::listed_supers(chunks, os, ls, has_filters, base);
    lemma_regroup_4(header, index, blocks, supers, rest);
    lemma_header_parts(
        d,
        chunks,
        os,
        ls,
        has_filters,
        base,
        index + (blocks + (supers + rest)),
    );
    let sum = lemma_index_parts(
        chunks,
        os,
        ls,
        has_filters,
        base,
        blocks + (supers + rest),
    );
    lemma_index_read(
        d,
        chunks,
        os,
        ls,
        has_filters,
        base,
        dims,
        chunk,
        size,
        sum,
        rest,
    );
}

proof fn lemma_regroup_4(a: Seq<u8>, b: Seq<u8>, c: Seq<u8>, d: Seq<u8>, e: Seq<u8>)
    ensures
        a + b + c + d + e == a + (b + (c + (d + e))),
{
    assert(a + b + c + d + e =~= a + (b + (c + (d + e))));
}

// ---- The whole data set ----

/// Whether chunk `i` stands in `buf` where the list of the chunks says.
pub open spec fn is_written(
    m: DatasetModel,
    buf: Seq<u8>,
    chunks: Seq<WrittenChunk>,
    i: int,
) -> bool {
    let p = chunks[i].address - m.base;
    let d = m.chunk_bytes(i);
    &&& 0 <= p
    &&& p + chunks[i].compressed_size <= buf.len()
    &&& chunks[i].filter_mask == 0
    &&& chunked_write::stored(d, m.pipeline, m.size as u32) == Ok::<Seq<u8>, ErrorModel>(
        buf.subrange(p, p + chunks[i].compressed_size),
    )
}

/// Each of the first `n` chunks stands where the list says.
proof fn lemma_written(m: DatasetModel, n: int)
    requires
        0 <= n,
        m.written(n) matches Ok((buf, chunks)) && m.base + buf.len() <= u64::MAX,
    ensures
        m.written(n) matches Ok((buf, chunks)) && chunks.len() == n && (forall|i: int|
            0 <= i < n ==> #[trigger] is_written(m, buf, chunks, i)),
    decreases n,
{
    if n > 0 {
        let (before, old_chunks) = m.written(n - 1)->Ok_0;
        let (buf, chunks) = m.written(n)->Ok_0;
        let p = chunked_write::padded(before).len() as int;
        lemma_written(m, n - 1);
        let c = chunked_write::stored(m.chunk_bytes(n - 1), m.pipeline, m.size as u32)->Ok_0;
        assert(buf == chunked_write::padded(before) + c);
        assert forall|i: int| 0 <= i < n implies #[trigger] is_written(m, buf, chunks, i) by {
            if i < n - 1 {
                assert(is_written(m, before, old_chunks, i));
                assert(chunks[i] == old_chunks[i]);
                let q = chunks[i].address - m.base;
                let k = chunks[i].compressed_size as int;
                assert(buf.subrange(q, q + k) =~= before.subrange(q, q + k));
            } else {
                assert(buf.subrange(p, p + c.len()) =~= c);
            }
        }
    }
}

impl DatasetModel {
    /// Whether all sizes and extents fit in the fields that they are stored in, and the number of
    /// chunks is one that the index takes: for an Extensible Array, all those that its super blocks
    /// have room for, and for a Fixed Array up to 1024, those of one page.
    pub open spec fn is_storable(self, extensible: bool) -> bool {
        &&& self.chunk.len() < 255
        &&& crate::round_trip::are_extents(self.shape, self.chunk)
        &&& forall|i: int| 0 <= i < self.chunk.len() ==> #[trigger] self.chunk[i] <= u32::MAX
        &&& 0 < self.size <= u32::MAX
        &&& crate::grid::tail(crate::grid::words(self.chunk), 0) * self.size <= u32::MAX
        &&& self.raw.len() == crate::grid::tail(crate::grid::words(self.shape), 0) * self.size
        &&& self.raw.len() <= usize::MAX
        &&& self.count() <= usize::MAX
        &&& self.count() <= (if extensible {
            chunked_write::super_start(chunked_write::SUPER_BLOCKS as int)
        } else {
            1024int
        })
        &&& self.pipeline is Some ==> match self.written(self.count()) {
            Ok((buf, chunks)) => forall|i: int|
                0 <= i < chunks.len() ==> (#[trigger] chunks[i]).compressed_size <= u32::MAX
                    && chunks[i].compressed_size < bytes::pow256(chunked_write::size_field_width(chunks)),
            Err(e) => true,
        }
    }
}

/// The product of the extents does not depend on the order of the factors.
proof fn lemma_product_is_tail(extents: Seq<u64>)
    requires
        forall|i: int| 0 <= i < extents.len() ==> #[trigger] extents[i] <= usize::MAX,
    ensures
        crate::dataspace::product(extents, extents.len() as int) == crate::grid::tail(
            crate::grid::words(extents),
            0,
        ),
{
    lemma_product_is_total(extents, extents.len() as int);
    crate::grid::lemma_total_is_tail(crate::grid::words(extents));
}

proof fn lemma_product_is_total(extents: Seq<u64>, n: int)
    requires
        forall|i: int| 0 <= i < extents.len() ==> #[trigger] extents[i] <= usize::MAX,
        0 <= n <= extents.len(),
    ensures
        crate::dataspace::product(extents, n) == crate::grid::total(
            crate::grid::words(extents),
            n,
        ),
    decreases n,
{
    if n > 0 {
        lemma_product_is_total(extents, n - 1);
        assert(extents[n - 1] <= usize::MAX);
    }
}

/// The first chunk starts at the origin.
proof fn lemma_origin(counts: Seq<u64>, chunk: Seq<u64>, n: int)
    requires
        0 <= n <= counts.len(),
        forall|i: int| 0 <= i < n ==> #[trigger] counts[i] > 0,
    ensures
        crate::grid::offsets_to(0, counts, chunk, n) == Seq::new(n as nat, |i: int| 0u64),
    decreases n,
{
    let zeros = Seq::new(n as nat, |i: int| 0u64);
    if n > 0 {
        lemma_origin(counts, chunk, n - 1);
        let c = counts[n - 1] as int;
        lemma_div_basics(c);
        lemma_small_mod(0, c as nat);
        assert(0int / c == 0) by (nonlinear_arith)
            requires
                c > 0,
        ;
        assert(0 * chunk[n - 1] == 0);
        let before = Seq::new((n - 1) as nat, |i: int| 0u64);
        assert(before.push(0u64) =~= zeros);
    } else {
        assert(zeros =~= Seq::<u64>::empty());
    }
}

/// Where a product is positive, so are its factors.
proof fn lemma_counts_positive(counts: Seq<u64>, n: int)
    requires
        0 <= n <= counts.len(),
        crate::dataspace::product(counts, n) > 0,
    ensures
        forall|i: int| 0 <= i < n ==> #[trigger] counts[i] > 0,
    decreases n,
{
    if n > 0 {
        let a = crate::dataspace::product(counts, n - 1) as int;
        let c = counts[n - 1] as int;
        assert(a > 0 && c > 0) by (nonlinear_arith)
            requires
                a * c > 0,
                a >= 0,
                c >= 0,
        ;
        lemma_counts_positive(counts, n - 1);
    }
}

/// A chunk has as many bytes as its extents say.
proof fn lemma_chunk_len(m: DatasetModel, i: int)
    requires
        crate::round_trip::are_extents(m.shape, m.chunk),
        m.raw.len() == crate::grid::tail(crate::grid::words(m.shape), 0) * m.size,
    ensures
        m.chunk_bytes(i).len() == crate::grid::tail(crate::grid::words(m.chunk), 0) * m.size,
{
    if m.shape.len() == 0 {
        assert(crate::grid::words(m.shape) =~= crate::grid::words(m.chunk));
    } else {
        let t = crate::grid::tail(crate::grid::words(m.chunk), 0) as int;
        let size = m.size as int;
        assert(t * size >= 0) by (nonlinear_arith)
            requires
                t >= 0,
                size >= 0,
        ;
    }
}

/// Whether the list `infos` is what the index of the data set says.
spec fn lists(m: DatasetModel, chunks: Seq<WrittenChunk>, infos: Seq<ChunkInfoModel>) -> bool {
    &&& infos.len() == chunks.len() == m.count()
    &&& forall|i: int|
        0 <= i < infos.len() ==> {
            &&& (#[trigger] infos[i]).address == chunks[i].address
            &&& infos[i].filter_mask == 0
            &&& infos[i].chunk_size == (if m.pipeline is Some {
                chunks[i].compressed_size as int
            } else {
                m.chunk_bytes(i).len() as int
            })
            &&& infos[i].offsets == chunked_write::chunk_of(m.raw, m.shape, m.chunk, m.size as int, i).0
        }
}

/// The data of the chunks, read back, is what was split.
proof fn lemma_all_data(
    m: DatasetModel,
    r: ChunkedModel,
    d: Seq<u8>,
    buf: Seq<u8>,
    chunks: Seq<WrittenChunk>,
    infos: Seq<ChunkInfoModel>,
    rest: Seq<u8>,
    n: int,
)
    requires
        0 <= n <= m.count(),
        m.restorable(),
        r.size == m.size,
        lists(m, chunks, infos),
        forall|i: int| 0 <= i < m.count() ==> #[trigger] is_written(m, buf, chunks, i),
        m.base + buf.len() <= d.len() <= usize::MAX,
        d.subrange(m.base as int, d.len() as int) == buf + rest,
    ensures
        r.all_data(d, infos, m.pipeline, n) == Ok::<Seq<Seq<u8>>, ErrorModel>(
            Seq::new(n as nat, |i: int| m.chunk_bytes(i)),
        ),
    decreases n,
{
    let all = Seq::new(n as nat, |i: int| m.chunk_bytes(i));
    if n > 0 {
        lemma_all_data(m, r, d, buf, chunks, infos, rest, n - 1);
        let i = n - 1;
        let before = Seq::new(i as nat, |i: int| m.chunk_bytes(i));
        assert(is_written(m, buf, chunks, i));
        let info = infos[i];
        let k = chunks[i].compressed_size as int;
        let p = chunks[i].address - m.base;
        let c = buf.subrange(p, p + k);
        assert(info.chunk_size == k);
        let t = d.subrange(m.base as int, d.len() as int);
        assert(c =~= d.subrange(m.base + p, m.base + p + k)) by {
            assert(t.subrange(p, p + k) =~= d.subrange(m.base + p, m.base + p + k));
            assert((buf + rest).subrange(p, p + k) =~= c);
        }
        if m.pipeline is Some {
            assert(crate::filters::restores(
                m.pipeline->0.filters,
                m.chunk_bytes(i),
                m.size as u32,
            ));
        }
        assert(crate::chunked_read::data_of(d, info, m.pipeline, r.size) == Ok::<
            Seq<u8>,
            ErrorModel,
        >(m.chunk_bytes(i)));
        assert(before.push(m.chunk_bytes(i)) =~= all);
    } else {
        assert(all =~= Seq::<Seq<u8>>::empty());
    }
}

/// The list that the index of the data set gives.
proof fn lemma_indexed_lists(m: DatasetModel, extensible: bool, chunks: Seq<WrittenChunk>)
    requires
        m.is_storable(extensible),
        m.written(m.count()) matches Ok((buf, list)) && list == chunks,
        chunks.len() == m.count(),
        forall|i: int| 0 <= i < chunks.len() ==> (#[trigger] chunks[i]).filter_mask == 0,
    ensures
        lists(
            m,
            chunks,
            indexed_chunks(
                chunks,
                m.pipeline is Some,
                crate::fixed_array::grid_of(m.shape, m.extents(), m.size as u32),
                0,
                chunks.len() as int,
            ),
        ),
{
    let filtered = m.pipeline is Some;
    let g = crate::fixed_array::grid_of(m.shape, m.extents(), m.size as u32);
    let infos = indexed_chunks(chunks, filtered, g, 0, chunks.len() as int);
    let wide = crate::grid::widened(m.extents(), m.extents().len() as int);
    assert(wide =~= m.chunk) by {
        assert forall|i: int| 0 <= i < m.chunk.len() implies wide[i] == m.chunk[i] by {
            assert(m.chunk[i] <= u32::MAX);
        }
    }
    lemma_product_is_tail(m.chunk);
    assert forall|i: int| 0 <= i < infos.len() implies {
        &&& (#[trigger] infos[i]).address == chunks[i].address
        &&& infos[i].filter_mask == 0
        &&& infos[i].chunk_size == (if m.pipeline is Some {
            chunks[i].compressed_size as int
        } else {
            m.chunk_bytes(i).len() as int
        })
        &&& infos[i].offsets == chunked_write::chunk_of(m.raw, m.shape, m.chunk, m.size as int, i).0
    } by {
        assert(infos[i] == indexed_chunk(chunks, filtered, g, i));
        lemma_chunk_len(m, i);
        assert(chunks[i].filter_mask == 0);
    }
}

/// The list of a data set with one chunk.
proof fn lemma_single_lists(m: DatasetModel, r: ChunkedModel, chunks: Seq<WrittenChunk>)
    requires
        m.is_storable(false),
        m.written(m.count()) matches Ok((buf, list)) && list == chunks,
        m.count() == 1,
        chunks.len() == 1,
        chunks[0].filter_mask == 0,
        r.chunk_words() == crate::grid::words(m.chunk),
        r.rank() == m.chunk.len(),
        r.address == chunks[0].address,
        r.size == m.size,
        r.filtered_size == (if m.pipeline is Some {
            Some(chunks[0].compressed_size)
        } else {
            None
        }),
        r.filter_mask == (if m.pipeline is Some {
            Some(0u32)
        } else {
            None
        }),
    ensures
        lists(
            m,
            chunks,
            seq![
                crate::chunked_read::single_chunk(
                    r.chunk_words(),
                    r.address,
                    r.size as int,
                    r.rank(),
                    r.filtered_size,
                    r.filter_mask,
                ),
            ],
        ),
{
    lemma_chunk_len(m, 0);
    let counts = crate::grid::counts_of(m.shape, m.chunk);
    if m.shape.len() > 0 {
        lemma_counts_positive(counts, m.chunk.len() as int);
        lemma_origin(counts, m.chunk, m.chunk.len() as int);
    } else {
        assert(Seq::new(0, |i: int| 0u64) =~= Seq::<u64>::empty());
    }
}

/// Read behind the list of its chunks, the data set is what was written.
proof fn lemma_read_back(
    m: DatasetModel,
    r: ChunkedModel,
    d: Seq<u8>,
    buf: Seq<u8>,
    chunks: Seq<WrittenChunk>,
    infos: Seq<ChunkInfoModel>,
    rest: Seq<u8>,
    out: Seq<u8>,
)
    requires
        m.restorable(),
        crate::round_trip::are_extents(m.shape, m.chunk),
        m.raw.len() == crate::grid::tail(crate::grid::words(m.shape), 0) * m.size,
        m.size > 0,
        r.size == m.size,
        r.dims == m.shape,
        r.rank() == m.chunk.len(),
        r.chunk_words() == crate::grid::words(m.chunk),
        lists(m, chunks, infos),
        forall|i: int| 0 <= i < m.count() ==> #[trigger] is_written(m, buf, chunks, i),
        m.base + buf.len() <= d.len() <= usize::MAX,
        d.subrange(m.base as int, d.len() as int) == buf + rest,
        out.len() == m.raw.len(),
    ensures
        r.all_data(d, infos, m.pipeline, infos.len() as int) matches Ok(data) && r.assembled(
            out,
            infos,
            data,
            infos.len() as int,
        ) == m.raw,
{
    lemma_all_data(m, r, d, buf, chunks, infos, rest, m.count());
    let data = Seq::new(m.count() as nat, |i: int| m.chunk_bytes(i));
    assert forall|i: int| 0 <= i < infos.len() implies ((#[trigger] infos[i]).offsets, data[i])
        == chunked_write::chunk_of(m.raw, r.dims, m.chunk, r.size as int, i) by {
        assert(data[i] == m.chunk_bytes(i));
    }
    crate::round_trip::law_assembling_undoes_splitting(r, infos, data, m.raw, m.chunk, out);
}

proof fn lemma_regroup_index(a: Seq<u8>, b: Seq<u8>, c: Seq<u8>, d: Seq<u8>)
    ensures
        a + b + c + d == (a + b) + (c + d),
        a + b + c + d == a + (b + (c + d)),
{
    assert(a + b + c + d =~= (a + b) + (c + d));
    assert(a + b + c + d =~= a + (b + (c + d)));
}

proof fn lemma_elements_fit(m: DatasetModel, space: DataspaceModel)
    requires
        m.size > 0,
        m.raw.len() == space.elements() * m.size,
        m.raw.len() <= usize::MAX,
    ensures
        space.elements() <= usize::MAX,
{
    let n = space.elements() as int;
    let size = m.size as int;
    assert(n <= n * size) by (nonlinear_arith)
        requires
            n >= 0,
            size >= 1,
    ;
}

/// The bytes behind the chunks of a data set: its index.
spec fn index_bytes(m: DatasetModel, extensible: bool) -> Seq<u8> {
    let (buf, chunks) = m.written(m.count())->Ok_0;
    let filtered = m.pipeline is Some;
    if extensible {
        chunked_write::extensible_array_bytes(chunks, 8, 8, filtered, index_address(m))
    } else if m.count() == 1 {
        Seq::empty()
    } else {
        chunked_write::fixed_array_bytes(chunks, 8, 8, filtered, index_address(m))
    }
}

/// The address of the index of a data set.
spec fn index_address(m: DatasetModel) -> u64 {
    let (buf, chunks) = m.written(m.count())->Ok_0;
    (m.base + chunked_write::padded(buf).len()) as u64
}

/// Where the parts of a written data set stand.
proof fn lemma_built_parts(m: DatasetModel, extensible: bool, d: Seq<u8>, rest: Seq<u8>) -> (tail:
    Seq<u8>)
    requires
        m.built(extensible) is Ok,
        m.restorable(),
        m.is_storable(extensible),
        m.base <= d.len() <= isize::MAX,
        d.subrange(m.base as int, d.len() as int) == m.built(extensible)->Ok_0.data_bytes + rest,
    ensures
        m.written(m.count()) is Ok,
        ({
            let (buf, chunks) = m.written(m.count())->Ok_0;
            let address = index_address(m);
            &&& chunks.len() == m.count()
            &&& m.base + buf.len() <= d.len()
            &&& d.subrange(m.base as int, d.len() as int) == buf + tail
            &&& address == m.base + chunked_write::padded(buf).len()
            &&& address <= d.len()
            &&& d.subrange(address as int, d.len() as int) == index_bytes(m, extensible) + rest
            &&& forall|i: int| 0 <= i < m.count() ==> #[trigger] is_written(m, buf, chunks, i)
            &&& forall|i: int|
                0 <= i < chunks.len() ==> (#[trigger] chunks[i]).filter_mask == 0
                    && chunks[i].address != u64::MAX
        }),
{
    let (buf, chunks) = m.written(m.count())->Ok_0;
    let data = chunked_write::padded(buf);
    let pad = Seq::new(
        (crate::chunk_cache::aligned(buf.len() as int) - buf.len()) as nat,
        |i: int| 0u8,
    );
    let index = index_bytes(m, extensible);
    assert(m.built(extensible)->Ok_0.data_bytes == data + index);
    lemma_regroup_index(buf, pad, index, rest);
    bytes::lemma_peel(d, m.base as int, data, index + rest);
    lemma_written(m, m.count());
    assert forall|i: int| 0 <= i < chunks.len() implies (#[trigger] chunks[i]).filter_mask == 0
        && chunks[i].address != u64::MAX by {
        assert(is_written(m, buf, chunks, i));
    }
    pad + (index + rest)
}

/// What the layout of a written data set says.
proof fn lemma_layout_model(
    m: DatasetModel,
    layout: DataLayoutModel,
    space: DataspaceModel,
    address: u64,
    kind: u8,
    filtered_size: Option<u64>,
    filter_mask: Option<u32>,
)
    requires
        m.size > 0,
        m.size <= u32::MAX,
        address != u64::MAX,
        space.dimensions == m.shape,
        m.shape.len() == m.chunk.len(),
        forall|i: int| 0 <= i < m.chunk.len() ==> #[trigger] m.chunk[i] <= u32::MAX,
        layout == chunked_layout(
            m.extents(),
            m.size as u32,
            address,
            kind,
            filtered_size,
            filter_mask,
        ),
    ensures
        crate::chunked_read::chunked_model(layout, space, m.size as u32, 8, 8) is Ok,
        ({
            let r = crate::chunked_read::chunked_model(layout, space, m.size as u32, 8, 8)->Ok_0;
            &&& r.size == m.size
            &&& r.dims == m.shape
            &&& r.rank() == m.chunk.len()
            &&& r.chunk() == m.extents()
            &&& r.chunk_words() == crate::grid::words(m.chunk)
            &&& r.address == address
            &&& r.filtered_size == filtered_size
            &&& r.filter_mask == filter_mask
        }),
{
    let r = crate::chunked_read::chunked_model(layout, space, m.size as u32, 8, 8)->Ok_0;
    assert(r.chunk() =~= m.extents());
    assert(r.chunk_words() =~= crate::grid::words(m.chunk)) by {
        assert forall|i: int| 0 <= i < m.chunk.len() implies r.chunk_words()[i]
            == crate::grid::words(m.chunk)[i] by {
            assert(m.chunk[i] <= u32::MAX);
        }
    }
}

/// Where the chunks that the layout leads to are those that were written, the data is what was
/// written.
proof fn lemma_chunks_lead_back(
    m: DatasetModel,
    extensible: bool,
    d: Seq<u8>,
    layout: DataLayoutModel,
    space: DataspaceModel,
    infos: Seq<ChunkInfoModel>,
    tail: Seq<u8>,
)
    requires
        m.restorable(),
        m.is_storable(extensible),
        space.dimensions == m.shape,
        space.elements() == crate::grid::tail(crate::grid::words(m.shape), 0),
        m.written(m.count()) is Ok,
        crate::chunked_read::chunked_model(layout, space, m.size as u32, 8, 8) is Ok,
        ({
            let (buf, chunks) = m.written(m.count())->Ok_0;
            let r = crate::chunked_read::chunked_model(layout, space, m.size as u32, 8, 8)->Ok_0;
            &&& r.size == m.size
            &&& r.dims == m.shape
            &&& r.rank() == m.chunk.len()
            &&& r.chunk_words() == crate::grid::words(m.chunk)
            &&& r.chunks(d) == Ok::<Seq<ChunkInfoModel>, ErrorModel>(infos)
            &&& lists(m, chunks, infos)
            &&& m.base + buf.len() <= d.len() <= usize::MAX
            &&& d.subrange(m.base as int, d.len() as int) == buf + tail
            &&& forall|i: int| 0 <= i < m.count() ==> #[trigger] is_written(m, buf, chunks, i)
        }),
    ensures
        crate::chunked_read::chunked_data(d, layout, space, m.size as u32, m.pipeline, 8, 8) == Ok::<
            Seq<u8>,
            ErrorModel,
        >(m.raw),
{
    let (buf, chunks) = m.written(m.count())->Ok_0;
    let size = m.size as u32;
    let r = crate::chunked_read::chunked_model(layout, space, size, 8, 8)->Ok_0;
    let zeros = Seq::new(
        crate::chunked_read::output_size(space, size) as nat,
        |i: int| 0u8,
    );
    lemma_elements_fit(m, space);
    lemma_read_back(m, r, d, buf, chunks, infos, tail, zeros);
}

/// The data is given back through an extensible array.
proof fn lemma_extensible_leads_back(
    m: DatasetModel,
    d: Seq<u8>,
    space: DataspaceModel,
    rest: Seq<u8>,
)
    requires
        m.built(true) is Ok,
        m.restorable(),
        m.is_storable(true),
        m.base <= d.len() <= isize::MAX,
        d.subrange(m.base as int, d.len() as int) == m.built(true)->Ok_0.data_bytes + rest,
        space.dimensions == m.shape,
        space.elements() == crate::grid::tail(crate::grid::words(m.shape), 0),
    ensures
        ({
            let message = m.built(true)->Ok_0.layout_message;
            crate::data_layout::layout_of(message, 8, 8) matches Ok(layout)
                && crate::chunked_read::chunked_data(
                d,
                layout,
                space,
                m.size as u32,
                m.pipeline,
                8,
                8,
            ) == Ok::<Seq<u8>, ErrorModel>(m.raw)
        }),
{
    let tail = lemma_built_parts(m, true, d, rest);
    let (buf, chunks) = m.written(m.count())->Ok_0;
    let filtered = m.pipeline is Some;
    let size = m.size as u32;
    let address = index_address(m);
    let layout = chunked_layout(m.extents(), size, address, 4, None, None);
    lemma_layout_model(m, layout, space, address, 4, None, None);
    let none = Seq::<u8>::empty();
    let message = m.built(true)->Ok_0.layout_message;
    assert(message + none =~= message);
    law_extensible_array_layout(m.extents(), address, size, none);
    law_extensible_array_round_trip(
        d,
        chunks,
        8,
        8,
        filtered,
        address,
        m.shape,
        m.extents(),
        size,
        rest,
    );
    lemma_indexed_lists(m, true, chunks);
    let g = crate::fixed_array::grid_of(m.shape, m.extents(), size);
    let infos = indexed_chunks(chunks, filtered, g, 0, chunks.len() as int);
    lemma_chunks_lead_back(m, true, d, layout, space, infos, tail);
}

/// The data is given back where there is a single chunk.
#[verifier::spinoff_prover]
#[verifier::rlimit(40)]
proof fn lemma_single_leads_back(
    m: DatasetModel,
    d: Seq<u8>,
    space: DataspaceModel,
    rest: Seq<u8>,
)
    requires
        m.count() == 1,
        m.built(false) is Ok,
        m.restorable(),
        m.is_storable(false),
        m.base <= d.len() <= isize::MAX,
        d.subrange(m.base as int, d.len() as int) == m.built(false)->Ok_0.data_bytes + rest,
        space.dimensions == m.shape,
        space.elements() == crate::grid::tail(crate::grid::words(m.shape), 0),
    ensures
        ({
            let message = m.built(false)->Ok_0.layout_message;
            crate::data_layout::layout_of(message, 8, 8) matches Ok(layout)
                && crate::chunked_read::chunked_data(
                d,
                layout,
                space,
                m.size as u32,
                m.pipeline,
                8,
                8,
            ) == Ok::<Seq<u8>, ErrorModel>(m.raw)
        }),
{
    let tail = lemma_built_parts(m, false, d, rest);
    let (buf, chunks) = m.written(m.count())->Ok_0;
    let size = m.size as u32;
    let address = chunks[0].address;
    let (n, mask) = if m.pipeline is Some {
        (Some(chunks[0].compressed_size), Some(0u32))
    } else {
        (None, None)
    };
    let layout = chunked_layout(m.extents(), size, address, 1, n, mask);
    lemma_layout_model(m, layout, space, address, 1, n, mask);
    let none = Seq::<u8>::empty();
    let message = m.built(false)->Ok_0.layout_message;
    assert(message + none =~= message);
    law_single_chunk_layout(m.extents(), address, n, mask, size, none);
    let r = crate::chunked_read::chunked_model(layout, space, size, 8, 8)->Ok_0;
    lemma_single_lists(m, r, chunks);
    let infos = seq![
        crate::chunked_read::single_chunk(
            r.chunk_words(),
            r.address,
            r.size as int,
            r.rank(),
            r.filtered_size,
            r.filter_mask,
        ),
    ];
    lemma_chunks_lead_back(m, false, d, layout, space, infos, tail);
}

/// The data is given back through a fixed array.
proof fn lemma_fixed_leads_back(m: DatasetModel, d: Seq<u8>, space: DataspaceModel, rest: Seq<u8>)
    requires
        m.count() != 1,
        m.built(false) is Ok,
        m.restorable(),
        m.is_storable(false),
        m.base <= d.len() <= isize::MAX,
        d.subrange(m.base as int, d.len() as int) == m.built(false)->Ok_0.data_bytes + rest,
        space.dimensions == m.shape,
        space.elements() == crate::grid::tail(crate::grid::words(m.shape), 0),
    ensures
        ({
            let message = m.built(false)->Ok_0.layout_message;
            crate::data_layout::layout_of(message, 8, 8) matches Ok(layout)
                && crate::chunked_read::chunked_data(
                d,
                layout,
                space,
                m.size as u32,
                m.pipeline,
                8,
                8,
            ) == Ok::<Seq<u8>, ErrorModel>(m.raw)
        }),
{
    let tail = lemma_built_parts(m, false, d, rest);
    let (buf, chunks) = m.written(m.count())->Ok_0;
    let filtered = m.pipeline is Some;
    let size = m.size as u32;
    let address = index_address(m);
    let layout = chunked_layout(m.extents(), size, address, 3, None, None);
    lemma_layout_model(m, layout, space, address, 3, None, None);
    let none = Seq::<u8>::empty();
    let message = m.built(false)->Ok_0.layout_message;
    assert(message + none =~= message);
    law_fixed_array_layout(m.extents(), address, size, 10, none);
    law_fixed_array_round_trip(
        d,
        chunks,
        8,
        8,
        filtered,
        address,
        m.shape,
        m.extents(),
        size,
        rest,
    );
    lemma_indexed_lists(m, false, chunks);
    let g = crate::fixed_array::grid_of(m.shape, m.extents(), size);
    let infos = indexed_chunks(chunks, filtered, g, 0, chunks.len() as int);
    lemma_chunks_lead_back(m, false, d, layout, space, infos, tail);
}

/// What is written is given back: the layout message of a written data set is a layout with which
/// the data set, read from the bytes that were written, is the raw data. This holds of a data set
/// whose sizes fit in their fields and whose chunks the reader of the index can count, whether or
/// not the index is extensible, and whatever the filters are, as long as they give each chunk back.
pub proof fn law_read_gives_back_what_was_written(
    m: DatasetModel,
    extensible: bool,
    d: Seq<u8>,
    space: DataspaceModel,
    rest: Seq<u8>,
)
    requires
        m.built(extensible) is Ok,
        m.restorable(),
        m.is_storable(extensible),
        m.base <= d.len() <= isize::MAX,
        d.subrange(m.base as int, d.len() as int) == m.built(extensible)->Ok_0.data_bytes + rest,
        space.dimensions == m.shape,
        space.elements() == crate::grid::tail(crate::grid::words(m.shape), 0),
    ensures
        ({
            let message = m.built(extensible)->Ok_0.layout_message;
            crate::data_layout::layout_of(message, 8, 8) matches Ok(layout)
                && crate::chunked_read::chunked_data(
                d,
                layout,
                space,
                m.size as u32,
                m.pipeline,
                8,
                8,
            ) == Ok::<Seq<u8>, ErrorModel>(m.raw)
        }),
{
    if extensible {
        lemma_extensible_leads_back(m, d, space, rest);
    } else if m.count() == 1 {
        lemma_single_leads_back(m, d, space, rest);
    } else {
        lemma_fixed_leads_back(m, d, space, rest);
    }
}

/// Without filters, every chunk is written, and as it is.
proof fn lemma_unfiltered_written(m: DatasetModel, n: int)
    requires
        m.pipeline is None,
    ensures
        m.written(n) is Ok,
    decreases n,
{
    if n > 0 {
        lemma_unfiltered_written(m, n - 1);
    }
}

/// Whether the options ask for any filter.
pub open spec fn has_filter(options: ChunkOptions) -> bool {
    options.shuffle || options.deflate_level is Some || options.fletcher32
}

/// Reading undoes writing: what is written without filters, of whatever rank and whether or not
/// the chunks at the edge are only partly inside the shape, is read back as it was.
pub proof fn law_unfiltered_data_is_read_back(
    raw: Seq<u8>,
    shape: Seq<u64>,
    chunk: Seq<u64>,
    size: usize,
    options: ChunkOptions,
    base: u64,
    extensible: bool,
    d: Seq<u8>,
    space: DataspaceModel,
    rest: Seq<u8>,
)
    requires
        !has_filter(options),
        1 <= shape.len() == chunk.len() <= 254,
        forall|i: int| 0 <= i < chunk.len() ==> 1 <= #[trigger] chunk[i] <= u32::MAX,
        forall|i: int| 0 <= i < shape.len() ==> #[trigger] shape[i] <= usize::MAX,
        1 <= size <= u32::MAX,
        crate::dataspace::product(chunk, chunk.len() as int) * size <= u32::MAX,
        raw.len() == crate::dataspace::product(shape, shape.len() as int) * size,
        raw.len() <= usize::MAX,
        chunked_write::chunk_total(shape, chunk) <= usize::MAX,
        chunked_write::chunk_total(shape, chunk) <= (if extensible {
            chunked_write::super_start(chunked_write::SUPER_BLOCKS as int)
        } else {
            1024int
        }),
        space.space_type == DataspaceType::Simple,
        space.dimensions == shape,
        base <= d.len() <= isize::MAX,
        chunked_write::dataset_of(raw, shape, chunk, size, options, base).built(
            extensible,
        ) matches Ok(w) ==> d.subrange(base as int, d.len() as int) == w.data_bytes + rest,
    ensures
        chunked_write::dataset_of(raw, shape, chunk, size, options, base).built(
            extensible,
        ) matches Ok(w) && crate::data_layout::layout_of(w.layout_message, 8, 8) matches Ok(layout)
            && crate::chunked_read::chunked_data(d, layout, space, size as u32, None, 8, 8) == Ok::<
            Seq<u8>,
            ErrorModel,
        >(raw),
{
    let m = chunked_write::dataset_of(raw, shape, chunk, size, options, base);
    lemma_unfiltered_written(m, m.count());
    assert forall|i: int| 0 <= i < chunk.len() implies 0 < #[trigger] chunk[i] <= usize::MAX by {}
    lemma_product_is_tail(shape);
    lemma_product_is_tail(chunk);
    law_read_gives_back_what_was_written(m, extensible, d, space, rest);
}

/// The layout message of a written data set is that of chunks of the given extents, with the size
/// of an element behind them. Its index is an Extensible Array where the data set may grow, else a
/// single chunk where there is but one, else a Fixed Array. There is a filter pipeline message just
/// where the options ask for a filter.
pub proof fn law_messages_of_written_data(
    raw: Seq<u8>,
    shape: Seq<u64>,
    chunk: Seq<u64>,
    size: usize,
    options: ChunkOptions,
    base: u64,
    maxshape: Option<Seq<u64>>,
)
    requires
        shape.len() == chunk.len() <= 254,
        forall|i: int| 0 <= i < chunk.len() ==> 1 <= #[trigger] chunk[i] <= u32::MAX,
        size <= u32::MAX,
    ensures
        chunked_write::dataset_of(raw, shape, chunk, size, options, base).built(
            chunked_write::is_unlimited(maxshape),
        ) matches Ok(w) ==> {
            &&& w.pipeline_message is Some <==> has_filter(options)
            &&& crate::data_layout::layout_of(w.layout_message, 8, 8) matches Ok(layout)
            &&& layout matches DataLayoutModel::Chunked {
                chunk_dimensions,
                version,
                chunk_index_type,
                ..
            }
            &&& version == 4
            &&& chunk_index_type == Some(
                if chunked_write::is_unlimited(maxshape) {
                    4u8
                } else if chunked_write::chunk_total(shape, chunk) == 1 {
                    1u8
                } else {
                    3u8
                },
            )
            &&& chunk_dimensions.len() == chunk.len() + 1
            &&& forall|i: int| 0 <= i < chunk.len() ==> chunk_dimensions[i] == #[trigger] chunk[i]
            &&& chunk_dimensions.last() == size
        },
{
    let m = chunked_write::dataset_of(raw, shape, chunk, size, options, base);
    let extensible = chunked_write::is_unlimited(maxshape);
    if m.built(extensible) is Ok {
        let (buf, chunks) = m.written(m.count())->Ok_0;
        let address = (m.base + chunked_write::padded(buf).len()) as u64;
        let message = m.built(extensible)->Ok_0.layout_message;
        let none = Seq::<u8>::empty();
        assert(message + none =~= message);
        let e = m.extents();
        assert forall|i: int| 0 <= i < chunk.len() implies e.push(size as u32)[i]
            == #[trigger] chunk[i] by {}
        if extensible {
            law_extensible_array_layout(e, address, size as u32, none);
        } else if m.count() == 1 {
            let (n, mask) = if m.pipeline is Some {
                (Some(chunks[0].compressed_size), Some(0u32))
            } else {
                (None, None)
            };
            law_single_chunk_layout(e, chunks[0].address, n, mask, size as u32, none);
        } else {
            law_fixed_array_layout(e, address, size as u32, 10, none);
        }
    }
}

/// The filter pipeline message that chunking options ask for is read back.
pub proof fn law_options_pipeline_round_trip(options: ChunkOptions, size: u32)
    ensures
        options.pipeline(size) matches Some(pl) ==> crate::filter_pipeline::pipeline_of(pl.bytes())
            == Ok::<PipelineModel, ErrorModel>(pl),
{
    if let Some(pl) = options.pipeline(size) {
        crate::filter_pipeline::law_pipeline_round_trip(pl, Seq::empty());
        assert(pl.bytes() + Seq::<u8>::empty() =~= pl.bytes());
    }
}

} // verus!
