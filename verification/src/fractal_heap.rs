//! HDF5 Fractal Heap: the header, and the objects that are managed in its blocks.

use vstd::prelude::*;
use vstd::slice::{slice_subrange, slice_to_vec};
use crate::bytes::{byte_len, get_u16, get_u32, tag_at, width_of};
use crate::error::{ErrorModel, FormatError};
use crate::utils::{
    checksum_mismatch,
    ensure_len,
    is_undefined_offset,
    read_offset,
    read_variable_length,
};

verus! {

broadcast use vstd::std_specs::control_flow::group_control_flow_axioms;

/// Parsed fractal heap header (signature "FRHP").
#[derive(Debug, Clone, Copy, PartialEq, Eq, Structural)]
pub struct FractalHeapHeader {
    /// Length of heap IDs in bytes.
    pub heap_id_length: u16,
    /// Length of the encoded I/O filters; zero if the blocks are not filtered.
    pub io_filter_encoded_length: u16,
    /// Largest size of an object that is managed in the blocks.
    pub max_managed_object_size: u32,
    /// Number of blocks in each row of the doubling table.
    pub table_width: u16,
    /// Size of the blocks in the first row.
    pub starting_block_size: u64,
    /// Largest size of a direct block.
    pub max_direct_block_size: u64,
    /// Number of bits of an offset in the heap.
    pub max_heap_size: u16,
    /// Address of the root block.
    pub root_block_address: u64,
    /// Number of rows in the root block; zero if it is a direct block.
    pub current_rows: u16,
}

impl DeepView for FractalHeapHeader {
    type V = FractalHeapHeader;

    open spec fn deep_view(&self) -> FractalHeapHeader {
        *self
    }
}

// ---- Header ----

/// The length of the header without what follows in filtered heaps, and without the checksum.
pub open spec fn fixed_size(os: u8, ls: u8) -> int {
    22 + 12 * ls + 3 * os
}

/// The header at `p`.
pub open spec fn header_at(d: Seq<u8>, p: int, os: u8, ls: u8) -> Result<
    FractalHeapHeader,
    ErrorModel,
> {
    let n = fixed_size(os, ls);
    let q = p + 14 + 10 * ls + 2 * os;
    let filters = crate::bytes::u16_at(d, p + 7);
    let end = if filters > 0 {
        p + n + ls + 4 + filters
    } else {
        p + n
    };
    if !crate::utils::fits(d, p, n) {
        Err(crate::utils::eof(d, p, n))
    } else if !crate::bytes::has_tag(d, p, seq![0x46, 0x52, 0x48, 0x50]) {
        Err(ErrorModel::Plain(FormatError::InvalidFractalHeapSignature))
    } else if d[p + 4] != 0 {
        Err(ErrorModel::Plain(FormatError::InvalidFractalHeapVersion(d[p + 4])))
    } else if !crate::utils::is_width(ls) {
        Err(ErrorModel::Plain(FormatError::InvalidOffsetSize(ls)))
    } else if !crate::utils::is_width(os) {
        Err(ErrorModel::Plain(FormatError::InvalidOffsetSize(os)))
    } else {
        match crate::utils::stored_checksum(d, p, end) {
            Err(e) => Err(e),
            Ok(_) => Ok(
                FractalHeapHeader {
                    heap_id_length: crate::bytes::u16_at(d, p + 5),
                    io_filter_encoded_length: filters,
                    max_managed_object_size: crate::bytes::u32_at(d, p + 10),
                    table_width: crate::bytes::u16_at(d, q),
                    starting_block_size: crate::utils::uint_at(d, q + 2, ls),
                    max_direct_block_size: crate::utils::uint_at(d, q + 2 + ls, ls),
                    max_heap_size: crate::bytes::u16_at(d, q + 2 + 2 * ls),
                    root_block_address: crate::utils::uint_at(d, q + 6 + 2 * ls, os),
                    current_rows: crate::bytes::u16_at(d, q + 6 + 2 * ls + os),
                },
            ),
        }
    }
}

// ---- The doubling table ----

/// A row of the doubling table: its number, the offset in the heap of its first block, and the
/// size of its blocks.
pub struct Row {
    pub number: int,
    pub start: int,
    pub size: int,
}

impl FractalHeapHeader {
    /// The row, from `row` on, that the offset lies in. The blocks of the first two rows have the
    /// starting size; from row to row it doubles.
    pub open spec fn find_row(self, rows: int, offset: int, row: Row) -> Option<Row>
        decreases rows - row.number,
    {
        if row.number >= rows {
            None
        } else if offset < row.start + self.table_width * row.size {
            Some(row)
        } else {
            self.find_row(
                rows,
                offset,
                Row {
                    number: row.number + 1,
                    start: row.start + self.table_width * row.size,
                    size: if row.number == 0 {
                        row.size
                    } else {
                        2 * row.size
                    },
                },
            )
        }
    }

    /// The row that the offset lies in.
    pub open spec fn row_of(self, rows: int, offset: int) -> Option<Row> {
        self.find_row(
            rows,
            offset,
            Row { number: 0, start: 0, size: self.starting_block_size as int },
        )
    }

    /// The number of bytes of an offset in the heap.
    pub open spec fn offset_width(self) -> int {
        (self.max_heap_size + 7) / 8
    }

    /// The number of bytes of the length of an object.
    pub open spec fn length_width(self) -> int {
        let n = if self.max_direct_block_size < self.max_managed_object_size {
            self.max_direct_block_size as nat
        } else {
            self.max_managed_object_size as nat
        };
        crate::bytes::byte_width(n) as int
    }

    /// The position in the file of the given offset below the indirect block at `p`, which has
    /// `rows` rows.
    pub open spec fn position_below(
        self,
        d: Seq<u8>,
        p: int,
        rows: int,
        offset: int,
        os: u8,
    ) -> Result<int, ErrorModel>
        decreases rows,
    {
        let head = 5 + os + self.offset_width();
        if !crate::utils::fits(d, p, head) {
            Err(crate::utils::eof(d, p, head))
        } else if !crate::bytes::has_tag(d, p, seq![0x46, 0x48, 0x49, 0x42]) {
            Err(ErrorModel::Plain(FormatError::InvalidFractalHeapSignature))
        } else if d[p + 4] != 0 {
            Err(ErrorModel::Plain(FormatError::InvalidFractalHeapVersion(d[p + 4])))
        } else {
            match self.row_of(rows, offset) {
                None => Err(ErrorModel::Plain(FormatError::NoDataAllocated)),
                Some(row) => {
                    let column = (offset - row.start) / row.size;
                    let rest = (offset - row.start) % row.size;
                    let entry = p + head + (row.number * self.table_width + column) * os;
                    match crate::utils::defined_at(d, entry, os) {
                        Err(e) => Err(e),
                        Ok(None) => Err(ErrorModel::Plain(FormatError::NoDataAllocated)),
                        Ok(Some(a)) => {
                            let child = (a as usize) as int;
                            let below = rows_below(self.table_width as int, row.number);
                            if row.size <= self.max_direct_block_size {
                                Ok(child + rest)
                            } else if 0 <= below < rows {
                                self.position_below(d, child, below, rest, os)
                            } else {
                                Err(ErrorModel::Plain(FormatError::NoDataAllocated))
                            }
                        },
                    }
                },
            }
        }
    }

    /// The position in the file of the given offset in the heap.
    pub open spec fn position(self, d: Seq<u8>, offset: int, os: u8) -> Result<int, ErrorModel> {
        let root = (self.root_block_address as usize) as int;
        if crate::utils::undefined_offset(self.root_block_address, os) {
            Err(ErrorModel::Plain(FormatError::NoDataAllocated))
        } else if self.current_rows == 0 {
            Ok(root + offset)
        } else {
            self.position_below(d, root, self.current_rows as int, offset, os)
        }
    }

    /// The object with the given heap ID: a byte with the type, the offset, and the length.
    pub open spec fn object(self, d: Seq<u8>, id: Seq<u8>, os: u8) -> Result<Seq<u8>, ErrorModel> {
        let ow = self.offset_width();
        let lw = self.length_width();
        if !crate::utils::fits(id, 0, 1) {
            Err(crate::utils::eof(id, 0, 1))
        } else if id[0] / 16 % 4 != 0 || ow > 8 {
            Err(ErrorModel::Plain(FormatError::InvalidHeapIdType(id[0] / 16 % 4)))
        } else if self.io_filter_encoded_length > 0 {
            Err(ErrorModel::FilterError("filtered fractal heap"@))
        } else if !crate::utils::fits(id, 1, ow + lw) {
            Err(crate::utils::eof(id, 1, ow + lw))
        } else {
            let offset = crate::bytes::le_value(id.subrange(1, 1 + ow)) as int;
            let length = crate::bytes::le_value(id.subrange(1 + ow, 1 + ow + lw)) as int;
            match self.position(d, offset, os) {
                Err(e) => Err(e),
                Ok(p) => if !crate::utils::fits(d, p, length) {
                    Err(crate::utils::eof(d, p, length))
                } else {
                    Ok(d.subrange(p, p + length))
                },
            }
        }
    }
}

/// The number of rows of an indirect block in row `r`: as many as give it the size of that row,
/// which is `r` less the logarithm of the width of the table.
pub open spec fn rows_below(width: int, r: int) -> int
    decreases r,
{
    if r <= 0 || width <= 1 {
        r
    } else {
        rows_below(width / 2, r - 1)
    }
}

fn count_rows_below(width: u16, r: u16) -> (n: u16)
    ensures
        n == rows_below(width as int, r as int),
        n <= r,
{
    let mut w: u16 = width;
    let mut n: u16 = r;
    while n > 0 && w > 1
        invariant
            n <= r,
            rows_below(w as int, n as int) == rows_below(width as int, r as int),
        decreases n,
    {
        w = w / 2;
        n -= 1;
    }
    n
}

/// Checks that `d` holds `n` bytes from `pos` on.
fn ensure_wide(d: &[u8], pos: u128, n: u64) -> (r: Result<usize, FormatError>)
    requires
        pos <= 0xFFFF_FFFF_FFFF_FFFF_FFFF,
    ensures
        match r {
            Ok(p) => p == pos && crate::utils::fits(d@, pos as int, n as int) && pos + n
                <= isize::MAX,
            Err(e) => !crate::utils::fits(d@, pos as int, n as int) && e.deep_view()
                == crate::utils::eof(d@, pos as int, n as int),
        },
{
    let len: usize = byte_len(d);
    let end: u128 = pos + n as u128;
    if end > len as u128 {
        let expected: usize = if end > usize::MAX as u128 {
            usize::MAX
        } else {
            end as usize
        };
        return Err(FormatError::UnexpectedEof { expected, available: len });
    }
    Ok(pos as usize)
}

impl FractalHeapHeader {
    /// Parse a fractal heap header at the given offset.
    pub fn parse(file_data: &[u8], offset: usize, offset_size: u8, length_size: u8) -> (r: Result<
        Self,
        FormatError,
    >)
        ensures
            crate::error::outcome(r) == header_at(
                file_data@,
                offset as int,
                offset_size,
                length_size,
            ),
    {
        let len: usize = byte_len(file_data);
        let os: usize = offset_size as usize;
        let ls: usize = length_size as usize;
        let fixed: usize = 22 + 12 * ls + 3 * os;
        ensure_len(file_data, offset, fixed)?;
        if !tag_at(file_data, offset, 0x46, 0x52, 0x48, 0x50) {
            return Err(FormatError::InvalidFractalHeapSignature);
        }
        let version = file_data[offset + 4];
        if version != 0 {
            return Err(FormatError::InvalidFractalHeapVersion(version));
        }
        let heap_id_length = get_u16(file_data, offset + 5);
        let io_filter_encoded_length = get_u16(file_data, offset + 7);
        let max_managed_object_size = get_u32(file_data, offset + 10);
        let q: usize = offset + 14 + 10 * ls + 2 * os;
        let table_width = get_u16(file_data, q);
        let starting_block_size = read_offset(file_data, q + 2, length_size)?;
        let max_direct_block_size = read_offset(file_data, q + 2 + ls, length_size)?;
        let max_heap_size = get_u16(file_data, q + 2 + 2 * ls);
        let root_block_address = read_offset(file_data, q + 6 + 2 * ls, offset_size)?;
        let current_rows = get_u16(file_data, q + 6 + 2 * ls + os);
        let end: usize = if io_filter_encoded_length > 0 {
            offset + fixed + ls + 4 + io_filter_encoded_length as usize
        } else {
            offset + fixed
        };
        checksum_mismatch(file_data, offset, end)?;
        Ok(
            FractalHeapHeader {
                heap_id_length,
                io_filter_encoded_length,
                max_managed_object_size,
                table_width,
                starting_block_size,
                max_direct_block_size,
                max_heap_size,
                root_block_address,
                current_rows,
            },
        )
    }

    /// The number, the start and the block size of the row that the offset lies in.
    fn locate_row(&self, rows: u16, offset: u64) -> (r: Option<(u16, u128, u128)>)
        ensures
            match r {
                Some((number, start, size)) => {
                    &&& self.row_of(rows as int, offset as int) == Some(
                        Row { number: number as int, start: start as int, size: size as int },
                    )
                    &&& number < rows
                    &&& start <= offset < start + self.table_width * size
                },
                None => self.row_of(rows as int, offset as int) is None,
            },
    {
        if self.table_width == 0 || self.starting_block_size == 0 {
            proof {
                lemma_no_row(
                    *self,
                    rows as int,
                    offset as int,
                    Row { number: 0, start: 0, size: self.starting_block_size as int },
                );
            }
            return None;
        }
        let width: u128 = self.table_width as u128;
        let mut number: u16 = 0;
        let mut start: u128 = 0;
        let mut size: u128 = self.starting_block_size as u128;
        while number < rows
            invariant
                width == self.table_width,
                width > 0,
                number <= rows,
                start <= offset,
                self.row_of(rows as int, offset as int) == self.find_row(
                    rows as int,
                    offset as int,
                    Row { number: number as int, start: start as int, size: size as int },
                ),
                0 < size <= 0x2_0000_0000_0000_0000,
            decreases rows - number,
        {
            proof {
                assert(size <= width * size <= 0x1_0000 * 0x2_0000_0000_0000_0000)
                    by (nonlinear_arith)
                    requires
                        0 < width <= 0x1_0000,
                        0 < size <= 0x2_0000_0000_0000_0000,
                ;
            }
            let span: u128 = width * size;
            if (offset as u128) < start + span {
                return Some((number, start, size));
            }
            start = start + span;
            if number > 0 {
                size = 2 * size;
            }
            number += 1;
        }
        None
    }

    /// The position in the file of the given offset below an indirect block.
    fn locate_below(&self, file_data: &[u8], address: u64, rows: u16, offset: u64, offset_size: u8) -> (r:
        Result<u128, FormatError>)
        requires
            self.offset_width() <= 8,
        ensures
            match r {
                Ok(p) => self.position_below(
                    file_data@,
                    (address as usize) as int,
                    rows as int,
                    offset as int,
                    offset_size,
                ) == Ok::<int, ErrorModel>(p as int) && p <= 0x2_0000_0000_0000_0000,
                Err(e) => self.position_below(
                    file_data@,
                    (address as usize) as int,
                    rows as int,
                    offset as int,
                    offset_size,
                ) == Err::<int, ErrorModel>(e.deep_view()),
            },
        decreases rows,
    {
        let len: usize = byte_len(file_data);
        let p: usize = address as usize;
        let os: usize = offset_size as usize;
        let head: usize = 5 + os + (self.max_heap_size as usize + 7) / 8;
        ensure_len(file_data, p, head)?;
        if !tag_at(file_data, p, 0x46, 0x48, 0x49, 0x42) {
            return Err(FormatError::InvalidFractalHeapSignature);
        }
        let version = file_data[p + 4];
        if version != 0 {
            return Err(FormatError::InvalidFractalHeapVersion(version));
        }
        let (number, start, size) = match self.locate_row(rows, offset) {
            Some(row) => row,
            None => return Err(FormatError::NoDataAllocated),
        };
        let ghost w = self.table_width as int;
        proof {
            assert(size > 0) by (nonlinear_arith)
                requires
                    start <= offset < start + w * size,
                    size >= 0,
            ;
            let gap = offset - start;
            vstd::arithmetic::div_mod::lemma_fundamental_div_mod(gap, size as int);
            vstd::arithmetic::div_mod::lemma_mod_bound(gap, size as int);
            vstd::arithmetic::div_mod::lemma_div_pos_is_pos(gap, size as int);
            let c = gap / size as int;
            assert(c < w) by (nonlinear_arith)
                requires
                    gap == size * c + gap % (size as int),
                    gap % (size as int) >= 0,
                    gap < w * size,
                    size > 0,
            ;
            assert(0 <= (number * w + c) * os <= 0x1_0000_0000 * 255) by (nonlinear_arith)
                requires
                    0 <= number <= 0xFFFF,
                    0 <= w <= 0xFFFF,
                    0 <= c < w,
                    0 <= os <= 255,
            ;
            assert(0 <= number * w <= 0xFFFF * 0xFFFF) by (nonlinear_arith)
                requires
                    0 <= number <= 0xFFFF,
                    0 <= w <= 0xFFFF,
            ;
        }
        let gap: u128 = offset as u128 - start;
        let column: u128 = gap / size;
        let rest: u64 = (gap % size) as u64;
        let entry: u128 = (p + head) as u128 + (number as u128 * self.table_width as u128 + column)
            * os as u128;
        let q: usize = ensure_wide(file_data, entry, os as u64)?;
        let child = read_offset(file_data, q, offset_size)?;
        if is_undefined_offset(child, offset_size) {
            return Err(FormatError::NoDataAllocated);
        }
        if size <= self.max_direct_block_size as u128 {
            return Ok(child as usize as u128 + rest as u128);
        }
        let below: u16 = count_rows_below(self.table_width, number);
        self.locate_below(file_data, child, below, rest, offset_size)
    }

    /// Read an object that is managed in the blocks of the heap, given its heap ID.
    pub fn read_managed_object(&self, file_data: &[u8], id_bytes: &[u8], offset_size: u8) -> (r: Result<
        Vec<u8>,
        FormatError,
    >)
        ensures
            crate::error::outcome(r) == self.object(file_data@, id_bytes@, offset_size),
    {
        ensure_len(id_bytes, 0, 1)?;
        let id_type: u8 = id_bytes[0] / 16 % 4;
        let ow: usize = (self.max_heap_size as usize + 7) / 8;
        if id_type != 0 || ow > 8 {
            return Err(FormatError::InvalidHeapIdType(id_type));
        }
        if self.io_filter_encoded_length > 0 {
            return Err(FormatError::FilterError("filtered fractal heap".to_owned()));
        }
        let longest: u64 = if self.max_direct_block_size < self.max_managed_object_size as u64 {
            self.max_direct_block_size
        } else {
            self.max_managed_object_size as u64
        };
        let lw: usize = width_of(longest);
        ensure_len(id_bytes, 1, ow + lw)?;
        let offset_bytes = slice_subrange(id_bytes, 1, 1 + ow);
        let length_bytes = slice_subrange(id_bytes, 1 + ow, 1 + ow + lw);
        assert(offset_bytes@.subrange(0, ow as int) =~= offset_bytes@);
        assert(length_bytes@.subrange(0, lw as int) =~= length_bytes@);
        proof {
            lemma_value_fits(offset_bytes@);
            lemma_value_fits(length_bytes@);
        }
        let offset: u64 = read_variable_length(offset_bytes, ow)?;
        let length: u64 = read_variable_length(length_bytes, lw)?;
        if is_undefined_offset(self.root_block_address, offset_size) {
            return Err(FormatError::NoDataAllocated);
        }
        let position: u128 = if self.current_rows == 0 {
            self.root_block_address as usize as u128 + offset as u128
        } else {
            self.locate_below(
                file_data,
                self.root_block_address,
                self.current_rows,
                offset,
                offset_size,
            )?
        };
        let start: usize = ensure_wide(file_data, position, length)?;
        let object = slice_to_vec(slice_subrange(file_data, start, start + length as usize));
        assert(object.deep_view() =~= object@);
        Ok(object)
    }
}

proof fn lemma_value_fits(s: Seq<u8>)
    requires
        s.len() <= 8,
    ensures
        crate::bytes::le_value(s) <= u64::MAX,
{
    crate::bytes::lemma_le_value_bytes(s);
    reveal_with_fuel(crate::bytes::pow256, 9);
}

/// Without blocks of a positive size there is no row for any offset.
proof fn lemma_no_row(h: FractalHeapHeader, rows: int, offset: int, row: Row)
    requires
        h.table_width == 0 || row.size == 0,
        row.start <= offset,
    ensures
        h.find_row(rows, offset, row) is None,
    decreases rows - row.number,
{
    assert(h.table_width * row.size == 0) by (nonlinear_arith)
        requires
            h.table_width == 0 || row.size == 0,
    ;
    if row.number < rows {
        lemma_no_row(
            h,
            rows,
            offset,
            Row {
                number: row.number + 1,
                start: row.start + h.table_width * row.size,
                size: if row.number == 0 {
                    row.size
                } else {
                    2 * row.size
                },
            },
        );
    }
}

} // verus!
