//! How the objects of a fractal heap stand in its blocks, and what is read from them.

use vstd::prelude::*;
use crate::bytes;
use crate::error::ErrorModel;
use crate::fractal_heap::{self, FractalHeapHeader, Row};
use crate::header_chunks;
use crate::places;

verus! {

// ---- Header ----

/// The header of a heap: tag, version 0, the length of an ID, the length of the filters, flags, the
/// largest object in the blocks, twelve numbers and addresses of which nothing is read, the width of
/// the table, the sizes of the first and of the largest direct blocks, the number of bits of an
/// offset, the number of rows at the start, the address of the root block, its number of rows, what
/// describes the filters, the checksum.
pub open spec fn header_bytes(
    h: FractalHeapHeader,
    flags: u8,
    skipped: Seq<u8>,
    first_rows: u16,
    filters: Seq<u8>,
    os: u8,
    ls: u8,
) -> Seq<u8> {
    header_chunks::sealed(
        seq![0x46u8, 0x52, 0x48, 0x50] + (seq![0u8] + (places::field(h.heap_id_length as int, 2) + (
        places::field(h.io_filter_encoded_length as int, 2) + (seq![flags] + (places::field(
            h.max_managed_object_size as int,
            4,
        ) + (skipped + (places::field(h.table_width as int, 2) + (places::field(
            h.starting_block_size as int,
            ls as int,
        ) + (places::field(h.max_direct_block_size as int, ls as int) + (places::field(
            h.max_heap_size as int,
            2,
        ) + (places::field(first_rows as int, 2) + (places::field(
            h.root_block_address as int,
            os as int,
        ) + (places::field(h.current_rows as int, 2) + filters))))))))))))),
    )
}

/// Whether the fields of a header have room for its values.
pub open spec fn is_header(
    h: FractalHeapHeader,
    skipped: Seq<u8>,
    filters: Seq<u8>,
    os: u8,
    ls: u8,
) -> bool {
    &&& crate::utils::is_width(os)
    &&& crate::utils::is_width(ls)
    &&& skipped.len() == 10 * ls + 2 * os
    &&& filters.len() == if h.io_filter_encoded_length > 0 {
        ls + 4 + h.io_filter_encoded_length
    } else {
        0
    }
    &&& h.starting_block_size < bytes::pow256(ls as nat)
    &&& h.max_direct_block_size < bytes::pow256(ls as nat)
    &&& h.root_block_address < bytes::pow256(os as nat)
}

#[verifier::spinoff_prover]
#[verifier::rlimit(60)]
proof fn lemma_header(
    d: Seq<u8>,
    p: int,
    h: FractalHeapHeader,
    flags: u8,
    skipped: Seq<u8>,
    first_rows: u16,
    filters: Seq<u8>,
    os: u8,
    ls: u8,
)
    requires
        is_header(h, skipped, filters, os, ls),
        places::stands(d, p, header_bytes(h, flags, skipped, first_rows, filters, os, ls)),
    ensures
        0 <= p,
        bytes::has_tag(d, p, seq![0x46u8, 0x52, 0x48, 0x50]),
        d[p + 4] == 0,
        bytes::u16_at(d, p + 5) == h.heap_id_length,
        bytes::u16_at(d, p + 7) == h.io_filter_encoded_length,
        bytes::u32_at(d, p + 10) == h.max_managed_object_size,
        ({
            let q = p + 14 + 10 * ls + 2 * os;
            &&& bytes::u16_at(d, q) == h.table_width
            &&& crate::utils::uint_at(d, q + 2, ls) == h.starting_block_size
            &&& crate::utils::uint_at(d, q + 2 + ls, ls) == h.max_direct_block_size
            &&& bytes::u16_at(d, q + 2 + 2 * ls) == h.max_heap_size
            &&& crate::utils::uint_at(d, q + 6 + 2 * ls, os) == h.root_block_address
            &&& bytes::u16_at(d, q + 6 + 2 * ls + os) == h.current_rows
            &&& q + 8 + 2 * ls + os + filters.len() + 4 <= d.len()
            &&& crate::utils::stored_checksum(d, p, q + 8 + 2 * ls + os + filters.len()) == Ok::<
                (),
                ErrorModel,
            >(())
        }),
{
    let tag = seq![0x46u8, 0x52, 0x48, 0x50];
    let f1 = places::field(h.heap_id_length as int, 2);
    let f2 = places::field(h.io_filter_encoded_length as int, 2);
    let f3 = places::field(h.max_managed_object_size as int, 4);
    let f4 = places::field(h.table_width as int, 2);
    let f5 = places::field(h.starting_block_size as int, ls as int);
    let f6 = places::field(h.max_direct_block_size as int, ls as int);
    let f7 = places::field(h.max_heap_size as int, 2);
    let f8 = places::field(first_rows as int, 2);
    let f9 = places::field(h.root_block_address as int, os as int);
    let fa = places::field(h.current_rows as int, 2);
    places::lemma_field_len(h.heap_id_length as int, 2);
    places::lemma_field_len(h.io_filter_encoded_length as int, 2);
    places::lemma_field_len(h.max_managed_object_size as int, 4);
    places::lemma_field_len(h.table_width as int, 2);
    places::lemma_field_len(h.starting_block_size as int, ls as int);
    places::lemma_field_len(h.max_direct_block_size as int, ls as int);
    places::lemma_field_len(h.max_heap_size as int, 2);
    places::lemma_field_len(first_rows as int, 2);
    places::lemma_field_len(h.root_block_address as int, os as int);
    places::lemma_field_len(h.current_rows as int, 2);
    let ra = fa + filters;
    let r9 = f9 + ra;
    let r8 = f8 + r9;
    let r7 = f7 + r8;
    let r6 = f6 + r7;
    let r5 = f5 + r6;
    let r4 = f4 + r5;
    let rs = skipped + r4;
    let r3 = f3 + rs;
    let rf = seq![flags] + r3;
    let r2 = f2 + rf;
    let r1 = f1 + r2;
    let rv = seq![0u8] + r1;
    header_chunks::lemma_sealed(d, p, tag + rv);
    places::lemma_parts(d, p, tag, rv);
    places::lemma_tag(d, p, tag);
    places::lemma_parts(d, p + 4, seq![0u8], r1);
    places::lemma_byte(d, p + 4, seq![0u8], 0);
    places::lemma_parts(d, p + 5, f1, r2);
    places::lemma_u16(d, p + 5, h.heap_id_length as int);
    places::lemma_parts(d, p + 7, f2, rf);
    places::lemma_u16(d, p + 7, h.io_filter_encoded_length as int);
    places::lemma_parts(d, p + 9, seq![flags], r3);
    places::lemma_parts(d, p + 10, f3, rs);
    places::lemma_u32(d, p + 10, h.max_managed_object_size as int);
    places::lemma_parts(d, p + 14, skipped, r4);
    let q = p + 14 + 10 * ls + 2 * os;
    places::lemma_parts(d, q, f4, r5);
    places::lemma_u16(d, q, h.table_width as int);
    places::lemma_parts(d, q + 2, f5, r6);
    places::lemma_word(d, q + 2, h.starting_block_size as int, ls);
    places::lemma_parts(d, q + 2 + ls, f6, r7);
    places::lemma_word(d, q + 2 + ls, h.max_direct_block_size as int, ls);
    places::lemma_parts(d, q + 2 + 2 * ls, f7, r8);
    places::lemma_u16(d, q + 2 + 2 * ls, h.max_heap_size as int);
    places::lemma_parts(d, q + 4 + 2 * ls, f8, r9);
    places::lemma_parts(d, q + 6 + 2 * ls, f9, ra);
    places::lemma_word(d, q + 6 + 2 * ls, h.root_block_address as int, os);
    places::lemma_parts(d, q + 6 + 2 * ls + os, fa, filters);
    places::lemma_u16(d, q + 6 + 2 * ls + os, h.current_rows as int);
}

/// A header is read as what was written in it.
#[verifier::rlimit(30)]
pub proof fn law_heap_header_is_read_back(
    d: Seq<u8>,
    p: int,
    h: FractalHeapHeader,
    flags: u8,
    skipped: Seq<u8>,
    first_rows: u16,
    filters: Seq<u8>,
    os: u8,
    ls: u8,
)
    requires
        is_header(h, skipped, filters, os, ls),
        places::stands(d, p, header_bytes(h, flags, skipped, first_rows, filters, os, ls)),
    ensures
        fractal_heap::header_at(d, p, os, ls) == Ok::<FractalHeapHeader, ErrorModel>(h),
{
    lemma_header(d, p, h, flags, skipped, first_rows, filters, os, ls);
    assert(seq![0x46u8, 0x52, 0x48, 0x50] =~= seq![0x46, 0x52, 0x48, 0x50]);
}

// ---- The doubling table ----

/// The size of the blocks in row `r`: that of the first blocks in the first two rows, and twice as
/// much from row to row.
pub open spec fn block_size(first: int, r: int) -> int
    decreases r,
{
    if r <= 1 {
        first
    } else {
        2 * block_size(first, r - 1)
    }
}

/// The offset in the heap of row `r`: the size of all rows before it.
pub open spec fn row_start(first: int, width: int, r: int) -> int
    decreases r,
{
    if r <= 0 {
        0
    } else {
        row_start(first, width, r - 1) + width * block_size(first, r - 1)
    }
}

proof fn lemma_size_positive(first: int, r: int)
    requires
        first > 0,
    ensures
        block_size(first, r) > 0,
    decreases r,
{
    if r > 1 {
        lemma_size_positive(first, r - 1);
    }
}

proof fn lemma_starts_grow(first: int, width: int, a: int, b: int)
    requires
        first > 0,
        width > 0,
        0 <= a <= b,
    ensures
        row_start(first, width, a) <= row_start(first, width, b),
    decreases b - a,
{
    if a < b {
        lemma_starts_grow(first, width, a, b - 1);
        lemma_size_positive(first, b - 1);
        let size = block_size(first, b - 1);
        assert(width * size > 0) by (nonlinear_arith)
            requires
                width > 0,
                size > 0,
        ;
    }
}

proof fn lemma_row(h: FractalHeapHeader, rows: int, offset: int, k: int, r: int)
    requires
        h.starting_block_size > 0,
        h.table_width > 0,
        0 <= k <= r < rows,
        row_start(h.starting_block_size as int, h.table_width as int, r) <= offset < row_start(
            h.starting_block_size as int,
            h.table_width as int,
            r + 1,
        ),
    ensures
        h.find_row(
            rows,
            offset,
            Row {
                number: k,
                start: row_start(h.starting_block_size as int, h.table_width as int, k),
                size: block_size(h.starting_block_size as int, k),
            },
        ) == Some(
            Row {
                number: r,
                start: row_start(h.starting_block_size as int, h.table_width as int, r),
                size: block_size(h.starting_block_size as int, r),
            },
        ),
    decreases r - k,
{
    let first = h.starting_block_size as int;
    let width = h.table_width as int;
    if k < r {
        lemma_starts_grow(first, width, k + 1, r);
        lemma_row(h, rows, offset, k + 1, r);
    }
}

/// The head of an indirect block: tag, version 0, the address of the header, the offset of the block
/// in the heap.
pub open spec fn indirect_head(header: int, offset: int, os: u8, bits: int) -> Seq<u8> {
    seq![0x46u8, 0x48, 0x49, 0x42] + (seq![0u8] + (places::field(header, os as int)
        + places::field(offset, (bits + 7) / 8)))
}

/// Whether an indirect block with the given number of rows stands at `p`, and `at` is the address of
/// its block in row `r` and column `c`.
pub open spec fn entry_stands(
    d: Seq<u8>,
    h: FractalHeapHeader,
    p: int,
    rows: int,
    r: int,
    c: int,
    at: u64,
    os: u8,
) -> bool {
    let head = 5 + os + (h.max_heap_size as int + 7) / 8;
    &&& crate::utils::is_width(os)
    &&& h.starting_block_size > 0
    &&& 0 <= r < rows
    &&& 0 <= c < h.table_width
    &&& at + 1 < bytes::pow256(os as nat)
    &&& at <= usize::MAX
    &&& exists|header: int, offset: int|
        #[trigger] places::stands(d, p, indirect_head(header, offset, os, h.max_heap_size as int))
    &&& places::stands(
        d,
        p + head + (r * h.table_width + c) * os,
        places::field(at as int, os as int),
    )
}

/// The offset in a block of the place `rest` bytes into its child in row `r` and column `c`.
pub open spec fn offset_in(h: FractalHeapHeader, r: int, c: int, rest: int) -> int {
    row_start(h.starting_block_size as int, h.table_width as int, r) + c * block_size(
        h.starting_block_size as int,
        r,
    ) + rest
}

proof fn lemma_entry(
    d: Seq<u8>,
    h: FractalHeapHeader,
    p: int,
    rows: int,
    r: int,
    c: int,
    rest: int,
    at: u64,
    os: u8,
)
    requires
        entry_stands(d, h, p, rows, r, c, at, os),
        0 <= rest < block_size(h.starting_block_size as int, r),
    ensures
        ({
            let head = 5 + os + h.offset_width();
            let first = h.starting_block_size as int;
            let width = h.table_width as int;
            let row = Row {
                number: r,
                start: row_start(first, width, r),
                size: block_size(first, r),
            };
            let offset = offset_in(h, r, c, rest);
            &&& crate::utils::fits(d, p, head)
            &&& bytes::has_tag(d, p, seq![0x46, 0x48, 0x49, 0x42])
            &&& d[p + 4] == 0
            &&& h.row_of(rows, offset) == Some(row)
            &&& (offset - row.start) / row.size == c
            &&& (offset - row.start) % row.size == rest
            &&& crate::utils::defined_at(d, p + head + (r * width + c) * os, os) == Ok::<
                Option<u64>,
                ErrorModel,
            >(Some(at))
        }),
{
    let first = h.starting_block_size as int;
    let width = h.table_width as int;
    let size = block_size(first, r);
    let offset = offset_in(h, r, c, rest);
    let bits = h.max_heap_size as int;
    let (header, own) = choose|header: int, own: int|
        #[trigger] places::stands(d, p, indirect_head(header, own, os, bits));
    let tag = seq![0x46u8, 0x48, 0x49, 0x42];
    let a = places::field(header, os as int);
    let b = places::field(own, (bits + 7) / 8);
    places::lemma_field_len(header, os as int);
    places::lemma_field_len(own, (bits + 7) / 8);
    places::lemma_parts(d, p, tag, seq![0u8] + (a + b));
    places::lemma_tag(d, p, tag);
    places::lemma_parts(d, p + 4, seq![0u8], a + b);
    places::lemma_byte(d, p + 4, seq![0u8], 0);
    lemma_size_positive(first, r);
    assert(0 <= c * size && (c + 1) * size == c * size + size && (c + 1) * size <= width * size)
        by (nonlinear_arith)
        requires
            0 <= c,
            c + 1 <= width,
            size > 0,
    ;
    lemma_row(h, rows, offset, 0, r);
    vstd::arithmetic::div_mod::lemma_fundamental_div_mod_converse(
        offset - row_start(first, width, r),
        size,
        c,
        rest,
    );
    let entry = p + 5 + os + (bits + 7) / 8 + (r * width + c) * os;
    places::lemma_word(d, entry, at as int, os);
    bytes::lemma_pow256_values();
}

/// An offset that falls in a direct block of an indirect block leads to its place in that block.
#[verifier::rlimit(30)]
pub proof fn law_offset_in_a_direct_block(
    d: Seq<u8>,
    h: FractalHeapHeader,
    p: int,
    rows: int,
    r: int,
    c: int,
    rest: int,
    at: u64,
    os: u8,
)
    requires
        entry_stands(d, h, p, rows, r, c, at, os),
        0 <= rest < block_size(h.starting_block_size as int, r),
        block_size(h.starting_block_size as int, r) <= h.max_direct_block_size,
    ensures
        h.position_below(d, p, rows, offset_in(h, r, c, rest), os) == Ok::<int, ErrorModel>(
            at + rest,
        ),
{
    lemma_entry(d, h, p, rows, r, c, rest, at, os);
}

/// The power of two with the given exponent.
pub open spec fn power(k: int) -> int
    decreases k,
{
    if k <= 0 {
        1
    } else {
        2 * power(k - 1)
    }
}

proof fn lemma_rows_below(k: int, r: int)
    requires
        0 <= k <= r,
    ensures
        fractal_heap::rows_below(power(k), r) == r - k,
    decreases k,
{
    if k > 0 {
        lemma_rows_below(k - 1, r - 1);
        assert(power(k - 1) >= 1) by {
            lemma_power_positive(k - 1);
        }
        assert(power(k) / 2 == power(k - 1));
    } else {
        assert(power(0) == 1);
    }
}

proof fn lemma_power_positive(k: int)
    ensures
        power(k) >= 1,
    decreases k,
{
    if k > 0 {
        lemma_power_positive(k - 1);
    }
}

/// An offset that falls in an indirect block of an indirect block leads where the rest of it leads
/// in that block. If a table is `2^k` blocks wide, a block in row `r` has `r - k` rows.
#[verifier::rlimit(30)]
pub proof fn law_offset_in_an_indirect_block(
    d: Seq<u8>,
    h: FractalHeapHeader,
    p: int,
    rows: int,
    r: int,
    c: int,
    rest: int,
    at: u64,
    k: int,
    os: u8,
)
    requires
        entry_stands(d, h, p, rows, r, c, at, os),
        0 <= rest < block_size(h.starting_block_size as int, r),
        block_size(h.starting_block_size as int, r) > h.max_direct_block_size,
        0 <= k <= r,
        h.table_width == power(k),
    ensures
        h.position_below(d, p, rows, offset_in(h, r, c, rest), os) == h.position_below(
            d,
            at as int,
            r - k,
            rest,
            os,
        ),
{
    lemma_entry(d, h, p, rows, r, c, rest, at, os);
    lemma_rows_below(k, r);
}

// ---- Objects ----

/// The ID of an object in the blocks: version and type 0, its offset, its length.
pub open spec fn id_bytes(
    h: FractalHeapHeader,
    low: u8,
    offset: int,
    length: int,
    length_bytes: int,
) -> Seq<u8> {
    seq![low] + (places::field(offset, (h.max_heap_size as int + 7) / 8) + places::field(
        length,
        length_bytes,
    ))
}

/// The larger size that the length of an object has to have room for: that of a direct block, or
/// that of an object, whichever is smaller.
pub open spec fn length_limit(h: FractalHeapHeader) -> int {
    if h.max_direct_block_size < h.max_managed_object_size {
        h.max_direct_block_size as int
    } else {
        h.max_managed_object_size as int
    }
}

/// An object is read from the place that its offset leads to.
#[verifier::rlimit(30)]
pub proof fn law_object_is_read_back(
    d: Seq<u8>,
    h: FractalHeapHeader,
    low: u8,
    offset: int,
    data: Seq<u8>,
    length_bytes: int,
    rest: Seq<u8>,
    p: int,
    os: u8,
)
    requires
        low / 16 % 4 == 0,
        (h.max_heap_size as int + 7) / 8 <= 8,
        h.io_filter_encoded_length == 0,
        crate::record_tree::is_width_of(length_bytes, length_limit(h)),
        data.len() < bytes::pow256(length_bytes as nat),
        0 <= offset < bytes::pow256(((h.max_heap_size as int + 7) / 8) as nat),
        h.position(d, offset, os) == Ok::<int, ErrorModel>(p),
        places::stands(d, p, data),
    ensures
        h.object(d, id_bytes(h, low, offset, data.len() as int, length_bytes) + rest, os) == Ok::<
            Seq<u8>,
            ErrorModel,
        >(data),
{
    let ow = (h.max_heap_size as int + 7) / 8;
    let id = id_bytes(h, low, offset, data.len() as int, length_bytes) + rest;
    let a = places::field(offset, ow);
    let b = places::field(data.len() as int, length_bytes);
    places::lemma_field_len(offset, ow);
    places::lemma_field_len(data.len() as int, length_bytes);
    crate::record_tree::lemma_width(length_bytes, length_limit(h) as nat);
    places::lemma_whole(id);
    places::lemma_parts(id, 0, seq![low] + (a + b), rest);
    places::lemma_parts(id, 0, seq![low], a + b);
    places::lemma_byte(id, 0, seq![low], 0);
    places::lemma_parts(id, 1, a, b);
    bytes::lemma_le_round_trip(offset as nat, ow as nat);
    vstd::arithmetic::div_mod::lemma_small_mod(offset as nat, bytes::pow256(ow as nat));
    bytes::lemma_le_round_trip(data.len(), length_bytes as nat);
    vstd::arithmetic::div_mod::lemma_small_mod(
        data.len(),
        bytes::pow256(length_bytes as nat),
    );
}

/// In a heap whose root is a direct block, an offset leads to its place in that block. In one whose
/// root is an indirect block, it leads where it leads in that block.
#[verifier::rlimit(30)]
pub proof fn law_offset_from_the_root(d: Seq<u8>, h: FractalHeapHeader, offset: int, os: u8)
    requires
        crate::utils::is_width(os),
        h.root_block_address + 1 < bytes::pow256(os as nat),
        h.root_block_address <= usize::MAX,
    ensures
        h.current_rows == 0 ==> h.position(d, offset, os) == Ok::<int, ErrorModel>(
            h.root_block_address + offset,
        ),
        h.current_rows > 0 ==> h.position(d, offset, os) == h.position_below(
            d,
            h.root_block_address as int,
            h.current_rows as int,
            offset,
            os,
        ),
{
    bytes::lemma_pow256_values();
}

} // verus!
