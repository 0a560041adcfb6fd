//! HDF5 Local Heap parsing.

use vstd::prelude::*;
use vstd::slice::slice_subrange;
use vstd::utf8::*;
use crate::bytes::{byte_len, tag_at};
use crate::error::{ErrorModel, FormatError};
use crate::text::decode_strict;
use crate::utils::{ensure_len, read_offset};

verus! {

broadcast use vstd::std_specs::control_flow::group_control_flow_axioms;

/// Parsed HDF5 Local Heap header.
#[derive(Debug, Clone, Copy, PartialEq, Eq, Structural)]
pub struct LocalHeap {
    /// Size of the data segment in bytes.
    pub data_segment_size: u64,
    /// Offset of the free list head within the data segment.
    pub free_list_head_offset: u64,
    /// File address of the data segment.
    pub data_segment_address: u64,
}

impl DeepView for LocalHeap {
    type V = LocalHeap;

    open spec fn deep_view(&self) -> LocalHeap {
        *self
    }
}

/// The heap header at `p`.
pub open spec fn heap_at(d: Seq<u8>, p: int, os: u8, ls: u8) -> Result<LocalHeap, ErrorModel> {
    let total = 8 + 2 * ls + os;
    if !crate::utils::fits(d, p, total) {
        Err(crate::utils::eof(d, p, total))
    } else if !crate::bytes::has_tag(d, p, seq![0x48, 0x45, 0x41, 0x50]) {
        Err(ErrorModel::Plain(FormatError::InvalidLocalHeapSignature))
    } else if d[p + 4] != 0 {
        Err(ErrorModel::Plain(FormatError::InvalidLocalHeapVersion(d[p + 4])))
    } else if !crate::utils::is_width(ls) {
        Err(ErrorModel::Plain(FormatError::InvalidOffsetSize(ls)))
    } else if !crate::utils::is_width(os) {
        Err(ErrorModel::Plain(FormatError::InvalidOffsetSize(os)))
    } else {
        Ok(
            LocalHeap {
                data_segment_size: crate::utils::uint_at(d, p + 8, ls),
                free_list_head_offset: crate::utils::uint_at(d, p + 8 + ls, ls),
                data_segment_address: crate::utils::uint_at(d, p + 8 + 2 * ls, os),
            },
        )
    }
}

impl LocalHeap {
    /// Where the data segment starts.
    pub open spec fn start(self) -> int {
        (self.data_segment_address as usize) as int
    }

    /// Where the data segment ends.
    pub open spec fn end(self) -> int {
        self.start() + (self.data_segment_size as usize)
    }

    /// The text at the given offset in the data segment, up to the first zero byte.
    pub open spec fn text_at(self, d: Seq<u8>, offset: u64) -> Result<Seq<char>, ErrorModel> {
        let from = self.start() + (offset as usize);
        let limit = if self.end() < d.len() {
            self.end()
        } else {
            d.len() as int
        };
        let end = crate::text::zero_from(d.subrange(0, limit), from);
        if from >= d.len() || from >= self.end() {
            Err(crate::utils::eof(d, from, 1))
        } else if end >= limit {
            Err(
                ErrorModel::Plain(
                    FormatError::UnexpectedEof {
                        expected: (end + 1) as usize,
                        available: limit as usize,
                    },
                ),
            )
        } else if !valid_utf8(d.subrange(from, end)) {
            Err(ErrorModel::Plain(FormatError::InvalidLocalHeapSignature))
        } else {
            Ok(decode_utf8(d.subrange(from, end)))
        }
    }

    /// Parse a local heap header at the given offset in the file data.
    pub fn parse(file_data: &[u8], offset: usize, offset_size: u8, length_size: u8) -> (r: Result<
        Self,
        FormatError,
    >)
        ensures
            crate::error::outcome(r) == heap_at(
                file_data@,
                offset as int,
                offset_size,
                length_size,
            ),
    {
        let len: usize = byte_len(file_data);
        // signature(4) + version(1) + reserved(3) = 8, then length_size*2 + offset_size
        let ls: usize = length_size as usize;
        let os: usize = offset_size as usize;
        let total: usize = 8 + ls * 2 + os;
        ensure_len(file_data, offset, total)?;
        if !tag_at(file_data, offset, 0x48, 0x45, 0x41, 0x50) {
            return Err(FormatError::InvalidLocalHeapSignature);
        }
        let version = file_data[offset + 4];
        if version != 0 {
            return Err(FormatError::InvalidLocalHeapVersion(version));
        }
        let pos: usize = offset + 8;
        let data_segment_size = read_offset(file_data, pos, length_size)?;
        let free_list_head_offset = read_offset(file_data, pos + ls, length_size)?;
        let data_segment_address = read_offset(file_data, pos + 2 * ls, offset_size)?;
        Ok(LocalHeap { data_segment_size, free_list_head_offset, data_segment_address })
    }

    /// Read a null-terminated string from the heap's data segment at the given byte offset.
    pub fn read_string(&self, file_data: &[u8], string_offset: u64) -> (r: Result<
        String,
        FormatError,
    >)
        ensures
            crate::error::outcome(r) == self.text_at(file_data@, string_offset),
    {
        let len: usize = byte_len(file_data);
        let seg_addr: usize = self.data_segment_address as usize;
        let str_start: usize = match seg_addr.checked_add(string_offset as usize) {
            Some(start) => start,
            None => {
                return Err(FormatError::UnexpectedEof { expected: usize::MAX, available: len });
            },
        };
        let seg_end: usize = match seg_addr.checked_add(self.data_segment_size as usize) {
            Some(end) => end,
            None => usize::MAX,
        };
        if str_start >= len || str_start >= seg_end {
            let expected: usize = if str_start == usize::MAX {
                usize::MAX
            } else {
                str_start + 1
            };
            return Err(FormatError::UnexpectedEof { expected, available: len });
        }
        // Find null terminator
        let search_end: usize = if seg_end < len {
            seg_end
        } else {
            len
        };
        let segment = slice_subrange(file_data, 0, search_end);
        let end: usize = crate::text::find_zero(segment, str_start);
        if end >= search_end {
            return Err(FormatError::UnexpectedEof { expected: end + 1, available: search_end });
        }
        match decode_strict(slice_subrange(file_data, str_start, end)) {
            Some(s) => Ok(s),
            None => Err(FormatError::InvalidLocalHeapSignature),
        }
    }
}

} // verus!
