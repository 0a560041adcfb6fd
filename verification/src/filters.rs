//! The filters that chunk data passes through: deflate, shuffle and fletcher32.

use vstd::prelude::*;
use vstd::arithmetic::div_mod::*;
use vstd::slice::slice_subrange;
use crate::bytes::{byte_len, get_u32, put_slice, put_u32};
use crate::error::{ErrorModel, FormatError};
use crate::filter_pipeline::{
    FilterDescription, FilterModel, FilterPipeline, FILTER_DEFLATE, FILTER_FLETCHER32,
    FILTER_SHUFFLE,
};

verus! {

broadcast use vstd::std_specs::control_flow::group_control_flow_axioms;

// ---- Deflate ----

/// The zlib stream that `data` is compressed to at the given level; none if that fails.
pub uninterp spec fn zlib_bytes(data: Seq<u8>, level: u32) -> Option<Seq<u8>>;

/// What the zlib stream `data` holds; none if it is not a zlib stream.
pub uninterp spec fn zlib_text(data: Seq<u8>) -> Option<Seq<u8>>;

/// The bytes of an optional vector.
pub open spec fn bytes_of(v: Option<Vec<u8>>) -> Option<Seq<u8>> {
    match v {
        Some(bytes) => Some(bytes@),
        None => None,
    }
}

/// Compresses `data` to a zlib stream.
///
/// Trusted: `flate2::write::ZlibEncoder`. The stream depends on the data and the level alone, and
/// holds the data. A level above ten is refused by a debug assertion.
#[verifier::external_body]
pub(crate) fn deflate(data: &[u8], level: u32) -> (r: Option<Vec<u8>>)
    requires
        level <= 10,
    ensures
        bytes_of(r) == zlib_bytes(data@, level),
        r matches Some(out) ==> zlib_text(out@) == Some(data@),
{
    let level = flate2::Compression::new(level);
    let mut encoder = flate2::write::ZlibEncoder::new(Vec::new(), level);
    std::io::Write::write_all(&mut encoder, data).ok()?;
    encoder.finish().ok()
}

/// Expands the zlib stream `data`.
///
/// Trusted: `flate2::read::ZlibDecoder`. What comes out depends on the stream alone.
#[verifier::external_body]
pub(crate) fn inflate(data: &[u8]) -> (r: Option<Vec<u8>>)
    ensures
        bytes_of(r) == zlib_text(data@),
{
    let mut decoder = flate2::read::ZlibDecoder::new(data);
    let mut out = Vec::new();
    std::io::Read::read_to_end(&mut decoder, &mut out).ok()?;
    Some(out)
}

// ---- Shuffle ----

/// `d` with the first bytes of all elements of `size` bytes in front, then the second ones, and so
/// on. What is left behind the last whole element stays where it is.
pub open spec fn shuffled(d: Seq<u8>, size: int) -> Seq<u8> {
    transposed(d, d.len() as int / size, size)
}

/// The elements of `size` bytes whose bytes [`shuffled`] has spread.
pub open spec fn unshuffled(d: Seq<u8>, size: int) -> Seq<u8> {
    transposed(d, size, d.len() as int / size)
}

/// The leading `rows * columns` bytes of `d`, taken as a table in row-major order, column by
/// column, and the bytes behind them.
pub open spec fn transposed(d: Seq<u8>, rows: int, columns: int) -> Seq<u8> {
    Seq::new(
        d.len(),
        |k: int|
            if k < rows * columns {
                d[(k % rows) * columns + k / rows]
            } else {
                d[k]
            },
    )
}

proof fn lemma_table_index(k: int, rows: int, columns: int)
    requires
        0 <= k < rows * columns,
        rows > 0,
        columns > 0,
    ensures
        0 <= k / rows < columns,
        0 <= k % rows < rows,
        0 <= (k % rows) * columns + k / rows < rows * columns,
        ((k % rows) * columns + k / rows) % columns == k / rows,
        ((k % rows) * columns + k / rows) / columns == k % rows,
{
    lemma_fundamental_div_mod(k, rows);
    lemma_mod_bound(k, rows);
    let r = k % rows;
    let c = k / rows;
    lemma_div_pos_is_pos(k, rows);
    assert(c < columns) by (nonlinear_arith)
        requires
            k == rows * c + r,
            0 <= r,
            k < rows * columns,
            rows > 0,
    ;
    assert(0 <= r * columns + c < rows * columns) by (nonlinear_arith)
        requires
            0 <= r < rows,
            0 <= c < columns,
    ;
    lemma_fundamental_div_mod_converse(r * columns + c, columns, r, c);
}

/// Taking a table column by column, and then the result row by row, gives the table back.
proof fn lemma_transposed_twice(d: Seq<u8>, rows: int, columns: int)
    requires
        rows > 0,
        columns > 0,
        rows * columns <= d.len(),
    ensures
        transposed(transposed(d, rows, columns), columns, rows) == d,
{
    let t = transposed(d, rows, columns);
    let u = transposed(t, columns, rows);
    assert(rows * columns == columns * rows) by (nonlinear_arith);
    assert forall|k: int| 0 <= k < d.len() implies u[k] == d[k] by {
        if k < rows * columns {
            lemma_table_index(k, columns, rows);
            let m = (k % columns) * rows + k / columns;
            lemma_table_index(m, rows, columns);
            lemma_fundamental_div_mod(k, columns);
            assert((k / columns) * columns == columns * (k / columns)) by (nonlinear_arith);
            assert(t[m] == d[(m % rows) * columns + m / rows]);
        }
    }
    assert(u =~= d);
}

/// Unshuffling undoes shuffling.
pub proof fn law_unshuffle_undoes_shuffle(d: Seq<u8>, size: int)
    requires
        1 < size <= d.len(),
    ensures
        unshuffled(shuffled(d, size), size) == d,
{
    let n = d.len() as int / size;
    lemma_whole_elements(d.len() as int, size);
    lemma_transposed_twice(d, n, size);
}

proof fn lemma_whole_elements(len: int, size: int)
    requires
        0 < size <= len,
    ensures
        len / size > 0,
        (len / size) * size <= len,
        size * (len / size) <= len,
{
    lemma_fundamental_div_mod(len, size);
    lemma_mod_bound(len, size);
    let q = len / size;
    assert(q > 0) by (nonlinear_arith)
        requires
            len == size * q + len % size,
            len % size < size,
            len >= size,
            size > 0,
    ;
    assert(q * size == size * q) by (nonlinear_arith);
}

fn transpose(d: &[u8], rows: usize, columns: usize) -> (out: Vec<u8>)
    requires
        rows > 0,
        columns > 0,
        rows * columns <= d@.len(),
    ensures
        out@ == transposed(d@, rows as int, columns as int),
{
    let len: usize = d.len();
    let whole: usize = rows * columns;
    let mut out: Vec<u8> = Vec::with_capacity(len);
    let mut k: usize = 0;
    while k < len
        invariant
            k <= len,
            len == d@.len(),
            rows > 0,
            columns > 0,
            whole == rows * columns,
            whole <= len,
            out@.len() == k,
            forall|i: int|
                0 <= i < k ==> #[trigger] out@[i] == transposed(
                    d@,
                    rows as int,
                    columns as int,
                )[i],
        decreases len - k,
    {
        if k < whole {
            proof {
                lemma_table_index(k as int, rows as int, columns as int);
                let r = k as int % rows as int;
                assert(r * columns >= 0) by (nonlinear_arith)
                    requires
                        r >= 0,
                        columns >= 0,
                ;
            }
            out.push(d[(k % rows) * columns + k / rows]);
        } else {
            out.push(d[k]);
        }
        k += 1;
    }
    assert(out@ =~= transposed(d@, rows as int, columns as int));
    out
}

fn copy_bytes(d: &[u8]) -> (out: Vec<u8>)
    ensures
        out@ == d@,
{
    let mut out: Vec<u8> = Vec::with_capacity(d.len());
    put_slice(&mut out, d);
    assert(out@ =~= d@);
    out
}

/// What shuffling elements of `size` bytes gives: data without a whole element, or with elements
/// of one byte, stays as it is.
pub open spec fn shuffle_of(d: Seq<u8>, size: u32) -> Seq<u8> {
    if 1 < size <= d.len() {
        shuffled(d, size as int)
    } else {
        d
    }
}

/// What undoing a shuffle gives.
pub open spec fn unshuffle_of(d: Seq<u8>, size: u32) -> Seq<u8> {
    if 1 < size <= d.len() {
        unshuffled(d, size as int)
    } else {
        d
    }
}

/// Group the bytes of all elements by their position in the element.
pub fn shuffle(d: &[u8], element_size: u32) -> (out: Vec<u8>)
    ensures
        out@ == shuffle_of(d@, element_size),
{
    let size: usize = element_size as usize;
    if 1 < size && size <= d.len() {
        proof {
            lemma_whole_elements(d@.len() as int, size as int);
        }
        transpose(d, d.len() / size, size)
    } else {
        copy_bytes(d)
    }
}

/// Undo [`shuffle`].
pub fn unshuffle(d: &[u8], element_size: u32) -> (out: Vec<u8>)
    ensures
        out@ == unshuffle_of(d@, element_size),
{
    let size: usize = element_size as usize;
    if 1 < size && size <= d.len() {
        proof {
            lemma_whole_elements(d@.len() as int, size as int);
        }
        transpose(d, size, d.len() / size)
    } else {
        copy_bytes(d)
    }
}

// ---- Fletcher32 ----

/// The sum of the two halves of a 32-bit number.
pub open spec fn folded(x: nat) -> nat {
    x % 0x10000 + x / 0x10000
}

/// The `i`-th 16-bit word, high byte first; a last odd byte is a high byte.
pub open spec fn word_at(d: Seq<u8>, i: int) -> nat {
    256 * d[2 * i] as nat + if 2 * i + 1 < d.len() {
        d[2 * i + 1] as nat
    } else {
        0
    }
}

/// The two sums after `i` whole words; both are folded behind each block of 360 words, and behind
/// the last one.
pub open spec fn sums_to(d: Seq<u8>, i: int) -> (nat, nat)
    decreases i,
{
    if i <= 0 {
        (0, 0)
    } else {
        let (a, b) = sums_to(d, i - 1);
        let a1 = a + word_at(d, i - 1);
        let b1 = b + a1;
        if i % 360 == 0 || i == d.len() as int / 2 {
            (folded(a1), folded(b1))
        } else {
            (a1, b1)
        }
    }
}

/// The Fletcher checksum of `d`.
pub open spec fn fletcher32_of(d: Seq<u8>) -> u32 {
    let n = d.len() as int / 2;
    let (a, b) = sums_to(d, n);
    let (a1, b1) = if d.len() % 2 == 1 {
        (folded(a + word_at(d, n)), folded(b + a + word_at(d, n)))
    } else {
        (a, b)
    };
    (folded(b1) % 0x10000 * 0x10000 + folded(a1) % 0x10000) as u32
}

fn fold(x: u64) -> (r: u64)
    requires
        x < 0x1_0000_0000_0000,
    ensures
        r == folded(x as nat),
        r <= 0xFFFF + x / 0x10000,
{
    x % 0x10000 + x / 0x10000
}

/// The Fletcher checksum of `data`.
pub fn fletcher32(data: &[u8]) -> (sum: u32)
    ensures
        sum == fletcher32_of(data@),
{
    assert(data.len() == data@.len());
    let n: usize = data.len() / 2;
    let mut a: u64 = 0;
    let mut b: u64 = 0;
    let mut i: usize = 0;
    let mut in_block: u64 = 0;
    while i < n
        invariant
            i <= n,
            n == data@.len() as int / 2,
            data@.len() <= usize::MAX,
            in_block == i % 360,
            i < n ==> a <= 0x20000 + 0x10000 * in_block,
            i < n ==> b <= 0x40000 + 0x2000000 * in_block,
            a <= 0x2000000,
            b <= 0x400000000,
            (a as nat, b as nat) == sums_to(data@, i as int),
        decreases n - i,
    {
        let word: u64 = 256 * (data[2 * i] as u64) + data[2 * i + 1] as u64;
        a = a + word;
        b = b + a;
        i += 1;
        in_block += 1;
        if in_block == 360 || i == n {
            a = fold(a);
            b = fold(b);
        }
        if in_block == 360 {
            in_block = 0;
        }
    }
    if data.len() % 2 == 1 {
        let word: u64 = 256 * (data[2 * n] as u64);
        a = a + word;
        b = b + a;
        a = fold(a);
        b = fold(b);
    }
    a = fold(a);
    b = fold(b);
    (b % 0x10000 * 0x10000 + a % 0x10000) as u32
}

// ---- The pipeline ----

/// The compression level of a deflate filter.
pub open spec fn level_of(f: FilterModel) -> u32 {
    if f.client_data.len() > 0 {
        f.client_data[0]
    } else {
        6
    }
}

/// What the filter makes of `d`.
pub open spec fn applied(f: FilterModel, d: Seq<u8>, size: u32) -> Result<Seq<u8>, ErrorModel> {
    if f.filter_id == FILTER_DEFLATE {
        match zlib_bytes(d, level_of(f)) {
            Some(out) => Ok(out),
            None => Err(ErrorModel::CompressionError("deflate compression failed"@)),
        }
    } else if f.filter_id == FILTER_SHUFFLE {
        Ok(shuffle_of(d, size))
    } else if f.filter_id == FILTER_FLETCHER32 {
        Ok(d + crate::bytes::le_bytes(fletcher32_of(d) as nat, 4))
    } else {
        Err(ErrorModel::Plain(FormatError::UnsupportedFilter(f.filter_id)))
    }
}

/// What the filter made `d` of.
pub open spec fn undone(f: FilterModel, d: Seq<u8>, size: u32) -> Result<Seq<u8>, ErrorModel> {
    if f.filter_id == FILTER_DEFLATE {
        match zlib_text(d) {
            Some(out) => Ok(out),
            None => Err(ErrorModel::DecompressionError("deflate decompression failed"@)),
        }
    } else if f.filter_id == FILTER_SHUFFLE {
        Ok(unshuffle_of(d, size))
    } else if f.filter_id == FILTER_FLETCHER32 {
        if d.len() < 4 {
            Err(
                ErrorModel::Plain(
                    FormatError::UnexpectedEof { expected: 4, available: d.len() as usize },
                ),
            )
        } else {
            let n = d.len() - 4;
            let data = d.subrange(0, n);
            let expected = crate::bytes::u32_at(d, n);
            let computed = fletcher32_of(data);
            if computed != expected {
                Err(ErrorModel::Plain(FormatError::Fletcher32Mismatch { expected, computed }))
            } else {
                Ok(data)
            }
        }
    } else {
        Err(ErrorModel::Plain(FormatError::UnsupportedFilter(f.filter_id)))
    }
}

/// What the filters from the `i`-th on make of `d`.
pub open spec fn compressed(fs: Seq<FilterModel>, i: int, d: Seq<u8>, size: u32) -> Result<
    Seq<u8>,
    ErrorModel,
>
    decreases fs.len() - i,
{
    if i >= fs.len() {
        Ok(d)
    } else {
        match applied(fs[i], d, size) {
            Err(e) => Err(e),
            Ok(out) => compressed(fs, i + 1, out, size),
        }
    }
}

/// What the first `n` filters made `d` of.
pub open spec fn decompressed(fs: Seq<FilterModel>, n: int, d: Seq<u8>, size: u32) -> Result<
    Seq<u8>,
    ErrorModel,
>
    decreases n,
{
    if n <= 0 {
        Ok(d)
    } else {
        match undone(fs[n - 1], d, size) {
            Err(e) => Err(e),
            Ok(out) => decompressed(fs, n - 1, out, size),
        }
    }
}

/// Whether the filters, undone, give `d` back.
pub open spec fn restores(fs: Seq<FilterModel>, d: Seq<u8>, size: u32) -> bool {
    compressed(fs, 0, d, size) matches Ok(out) ==> decompressed(fs, fs.len() as int, out, size)
        == Ok::<Seq<u8>, ErrorModel>(d)
}

/// Whether the level of each deflate filter is one that the compressor accepts.
pub open spec fn levels_fit(fs: Seq<FilterModel>) -> bool {
    forall|i: int|
        0 <= i < fs.len() && (#[trigger] fs[i]).filter_id == FILTER_DEFLATE ==> level_of(fs[i])
            <= 10
}

/// A filter other than deflate, undone, gives its input back.
pub proof fn law_filter_round_trip(f: FilterModel, d: Seq<u8>, size: u32)
    requires
        f.filter_id == FILTER_SHUFFLE || f.filter_id == FILTER_FLETCHER32,
    ensures
        applied(f, d, size) matches Ok(out) && undone(f, out, size) == Ok::<Seq<u8>, ErrorModel>(d),
{
    if f.filter_id == FILTER_SHUFFLE {
        if 1 < size <= d.len() {
            law_unshuffle_undoes_shuffle(d, size as int);
        }
    } else {
        let sum = crate::bytes::le_bytes(fletcher32_of(d) as nat, 4);
        let out = d + sum;
        crate::bytes::lemma_le_bytes_len(fletcher32_of(d) as nat, 4);
        assert(out.subrange(0, d.len() as int) =~= d);
        assert(out.subrange(d.len() as int, d.len() as int + 4) =~= sum);
        crate::bytes::lemma_u32_round_trip(out, d.len() as int, fletcher32_of(d));
    }
}

fn apply_filter(f: &FilterDescription, data: &[u8], element_size: u32) -> (r: Result<
    Vec<u8>,
    FormatError,
>)
    requires
        f.filter_id == FILTER_DEFLATE ==> level_of(f.deep_view()) <= 10,
    ensures
        match r {
            Ok(out) => applied(f.deep_view(), data@, element_size) == Ok::<Seq<u8>, ErrorModel>(
                out@,
            ) && undone(f.deep_view(), out@, element_size) == Ok::<Seq<u8>, ErrorModel>(data@),
            Err(e) => applied(f.deep_view(), data@, element_size) == Err::<Seq<u8>, ErrorModel>(
                e.deep_view(),
            ),
        },
{
    proof {
        if f.filter_id == FILTER_SHUFFLE || f.filter_id == FILTER_FLETCHER32 {
            law_filter_round_trip(f.deep_view(), data@, element_size);
        }
    }
    if f.filter_id == FILTER_DEFLATE {
        let level: u32 = if f.client_data.len() > 0 {
            f.client_data[0]
        } else {
            6
        };
        match deflate(data, level) {
            Some(out) => Ok(out),
            None => Err(
                FormatError::CompressionError("deflate compression failed".to_owned()),
            ),
        }
    } else if f.filter_id == FILTER_SHUFFLE {
        Ok(shuffle(data, element_size))
    } else if f.filter_id == FILTER_FLETCHER32 {
        let mut out = copy_bytes(data);
        put_u32(&mut out, fletcher32(data));
        Ok(out)
    } else {
        Err(FormatError::UnsupportedFilter(f.filter_id))
    }
}

fn undo_filter(f: &FilterDescription, data: &[u8], element_size: u32) -> (r: Result<
    Vec<u8>,
    FormatError,
>)
    ensures
        match r {
            Ok(out) => undone(f.deep_view(), data@, element_size) == Ok::<Seq<u8>, ErrorModel>(
                out@,
            ),
            Err(e) => undone(f.deep_view(), data@, element_size) == Err::<Seq<u8>, ErrorModel>(
                e.deep_view(),
            ),
        },
{
    if f.filter_id == FILTER_DEFLATE {
        match inflate(data) {
            Some(out) => Ok(out),
            None => Err(
                FormatError::DecompressionError("deflate decompression failed".to_owned()),
            ),
        }
    } else if f.filter_id == FILTER_SHUFFLE {
        Ok(unshuffle(data, element_size))
    } else if f.filter_id == FILTER_FLETCHER32 {
        let len: usize = byte_len(data);
        if len < 4 {
            return Err(FormatError::UnexpectedEof { expected: 4, available: len });
        }
        let payload = slice_subrange(data, 0, len - 4);
        let expected = get_u32(data, len - 4);
        let computed = fletcher32(payload);
        if computed != expected {
            return Err(FormatError::Fletcher32Mismatch { expected, computed });
        }
        Ok(copy_bytes(payload))
    } else {
        Err(FormatError::UnsupportedFilter(f.filter_id))
    }
}

/// Pass the data of a chunk through all filters of the pipeline.
pub fn compress_chunk(data: &[u8], pipeline: &FilterPipeline, element_size: u32) -> (r: Result<
    Vec<u8>,
    FormatError,
>)
    requires
        levels_fit(pipeline.deep_view().filters),
    ensures
        match r {
            Ok(out) => compressed(pipeline.deep_view().filters, 0, data@, element_size) == Ok::<
                Seq<u8>,
                ErrorModel,
            >(out@),
            Err(e) => compressed(pipeline.deep_view().filters, 0, data@, element_size) == Err::<
                Seq<u8>,
                ErrorModel,
            >(e.deep_view()),
        },
        restores(pipeline.deep_view().filters, data@, element_size),
{
    let ghost fs = pipeline.deep_view().filters;
    let mut cur = copy_bytes(data);
    let mut i: usize = 0;
    while i < pipeline.filters.len()
        invariant
            i <= pipeline.filters@.len(),
            fs == pipeline.filters.deep_view(),
            levels_fit(fs),
            compressed(fs, 0, data@, element_size) == compressed(fs, i as int, cur@, element_size),
            decompressed(fs, i as int, cur@, element_size) == Ok::<Seq<u8>, ErrorModel>(data@),
        decreases pipeline.filters@.len() - i,
    {
        assert(fs[i as int] == pipeline.filters@[i as int].deep_view());
        cur = apply_filter(&pipeline.filters[i], cur.as_slice(), element_size)?;
        i += 1;
    }
    Ok(cur)
}

/// Undo all filters of the pipeline, the last one first.
pub fn decompress_chunk(
    data: &[u8],
    pipeline: &FilterPipeline,
    _chunk_total_bytes: usize,
    element_size: u32,
) -> (r: Result<Vec<u8>, FormatError>)
    ensures
        ({
            let fs = pipeline.deep_view().filters;
            match r {
                Ok(out) => decompressed(fs, fs.len() as int, data@, element_size) == Ok::<
                    Seq<u8>,
                    ErrorModel,
                >(out@),
                Err(e) => decompressed(fs, fs.len() as int, data@, element_size) == Err::<
                    Seq<u8>,
                    ErrorModel,
                >(e.deep_view()),
            }
        }),
{
    let ghost fs = pipeline.deep_view().filters;
    let mut cur = copy_bytes(data);
    let mut n: usize = pipeline.filters.len();
    while n > 0
        invariant
            n <= pipeline.filters@.len(),
            fs == pipeline.filters.deep_view(),
            decompressed(fs, fs.len() as int, data@, element_size) == decompressed(
                fs,
                n as int,
                cur@,
                element_size,
            ),
        decreases n,
    {
        n -= 1;
        assert(fs[n as int] == pipeline.filters@[n as int].deep_view());
        cur = undo_filter(&pipeline.filters[n], cur.as_slice(), element_size)?;
    }
    Ok(cur)
}

} // verus!
