//! HDF5 Data Layout messages (message type 0x0008).

use vstd::prelude::*;
use vstd::slice::{slice_subrange, slice_to_vec};
use crate::bytes::{get_u16, get_u32};
use crate::error::{ErrorModel, FormatError};
use crate::utils::{ensure_len, is_undefined_bytes, read_offset};

verus! {

broadcast use vstd::std_specs::control_flow::group_control_flow_axioms;

/// Parsed HDF5 data layout message.
#[derive(Debug, Clone, PartialEq)]
pub enum DataLayout {
    /// Compact: data stored inline in the message.
    Compact {
        /// The inline raw data bytes.
        data: Vec<u8>,
    },
    /// Contiguous: data stored at a single address in the file.
    Contiguous {
        /// File address of the data, or `None` if undefined (all 0xFF).
        address: Option<u64>,
        /// Size of the data in bytes.
        size: u64,
    },
    /// Chunked: data stored in chunks via a B-tree.
    Chunked {
        /// Chunk dimension sizes.
        chunk_dimensions: Vec<u32>,
        /// B-tree address, or `None` if undefined.
        btree_address: Option<u64>,
        /// Layout version (3 or 4).
        version: u8,
        /// Chunk index type (v4 only).
        chunk_index_type: Option<u8>,
        /// Filtered size for v4 single chunk with filters.
        single_chunk_filtered_size: Option<u64>,
        /// Filter mask for v4 single chunk with filters.
        single_chunk_filter_mask: Option<u32>,
    },
    /// Virtual dataset layout (v4 only).
    Virtual {
        /// Layout version.
        version: u8,
    },
}

/// The content of a [`DataLayout`].
pub enum DataLayoutModel {
    Compact { data: Seq<u8> },
    Contiguous { address: Option<u64>, size: u64 },
    Chunked {
        chunk_dimensions: Seq<u32>,
        btree_address: Option<u64>,
        version: u8,
        chunk_index_type: Option<u8>,
        single_chunk_filtered_size: Option<u64>,
        single_chunk_filter_mask: Option<u32>,
    },
    Virtual { version: u8 },
}

impl DeepView for DataLayout {
    type V = DataLayoutModel;

    open spec fn deep_view(&self) -> DataLayoutModel {
        match self {
            DataLayout::Compact { data } => DataLayoutModel::Compact { data: data@ },
            DataLayout::Contiguous { address, size } => DataLayoutModel::Contiguous {
                address: *address,
                size: *size,
            },
            DataLayout::Chunked {
                chunk_dimensions,
                btree_address,
                version,
                chunk_index_type,
                single_chunk_filtered_size,
                single_chunk_filter_mask,
            } => DataLayoutModel::Chunked {
                chunk_dimensions: chunk_dimensions@,
                btree_address: *btree_address,
                version: *version,
                chunk_index_type: *chunk_index_type,
                single_chunk_filtered_size: *single_chunk_filtered_size,
                single_chunk_filter_mask: *single_chunk_filter_mask,
            },
            DataLayout::Virtual { version } => DataLayoutModel::Virtual { version: *version },
        }
    }
}

/// The layout that the message `d` holds.
pub open spec fn layout_of(d: Seq<u8>, offset_size: u8, length_size: u8) -> Result<
    DataLayoutModel,
    ErrorModel,
> {
    if !crate::utils::fits(d, 0, 2) {
        Err(crate::utils::eof(d, 0, 2))
    } else if d[0] != 3 && d[0] != 4 {
        Err(ErrorModel::Plain(FormatError::InvalidLayoutVersion(d[0])))
    } else if d[1] == 0 {
        compact_layout(d)
    } else if d[1] == 1 {
        contiguous_layout(d, offset_size, length_size)
    } else if d[1] == 2 && d[0] == 3 {
        chunked_layout_v3(d, offset_size)
    } else if d[1] == 2 {
        chunked_layout_v4(d, offset_size, length_size)
    } else if d[1] == 3 && d[0] == 4 {
        Ok(DataLayoutModel::Virtual { version: 4 })
    } else {
        Err(ErrorModel::Plain(FormatError::InvalidLayoutClass(d[1])))
    }
}

/// The address of `size` bytes at `p`, unless it is undefined.
pub open spec fn address_at(d: Seq<u8>, p: int, size: u8) -> Result<Option<u64>, ErrorModel> {
    if crate::utils::undefined_bytes(d, p, size) {
        Ok(None)
    } else {
        match crate::utils::offset_at(d, p, size) {
            Ok(a) => Ok(Some(a)),
            Err(e) => Err(e),
        }
    }
}

pub open spec fn compact_layout(d: Seq<u8>) -> Result<DataLayoutModel, ErrorModel> {
    if !crate::utils::fits(d, 2, 2) {
        Err(crate::utils::eof(d, 2, 2))
    } else {
        let n = crate::bytes::u16_at(d, 2) as int;
        if !crate::utils::fits(d, 4, n) {
            Err(crate::utils::eof(d, 4, n))
        } else {
            Ok(DataLayoutModel::Compact { data: d.subrange(4, 4 + n) })
        }
    }
}

pub open spec fn contiguous_layout(d: Seq<u8>, offset_size: u8, length_size: u8) -> Result<
    DataLayoutModel,
    ErrorModel,
> {
    if !crate::utils::fits(d, 2, offset_size + length_size) {
        Err(crate::utils::eof(d, 2, offset_size + length_size))
    } else {
        match address_at(d, 2, offset_size) {
            Err(e) => Err(e),
            Ok(address) => match crate::utils::offset_at(d, 2 + offset_size, length_size) {
                Err(e) => Err(e),
                Ok(size) => Ok(DataLayoutModel::Contiguous { address, size }),
            },
        }
    }
}

/// The number of dimensions, the B-tree address, then four bytes for each dimension.
pub open spec fn chunked_layout_v3(d: Seq<u8>, offset_size: u8) -> Result<
    DataLayoutModel,
    ErrorModel,
> {
    if !crate::utils::fits(d, 2, 1) {
        Err(crate::utils::eof(d, 2, 1))
    } else if !crate::utils::fits(d, 3, offset_size as int) {
        Err(crate::utils::eof(d, 3, offset_size as int))
    } else {
        match address_at(d, 3, offset_size) {
            Err(e) => Err(e),
            Ok(btree_address) => {
                let p = 3 + offset_size;
                if !crate::utils::fits(d, p, d[2] * 4) {
                    Err(crate::utils::eof(d, p, d[2] * 4))
                } else {
                    Ok(
                        DataLayoutModel::Chunked {
                            chunk_dimensions: Seq::new(
                                d[2] as nat,
                                |i: int| crate::bytes::u32_at(d, p + 4 * i),
                            ),
                            btree_address,
                            version: 3,
                            chunk_index_type: None,
                            single_chunk_filtered_size: None,
                            single_chunk_filter_mask: None,
                        },
                    )
                }
            },
        }
    }
}

/// The dimension of `width` bytes at `p`, reduced to 32 bits.
pub open spec fn dimension_at(d: Seq<u8>, p: int, width: u8) -> u32 {
    if width == 1 {
        d[p] as u32
    } else if width == 2 {
        crate::bytes::u16_at(d, p) as u32
    } else {
        crate::bytes::u32_at(d, p)
    }
}

/// The bytes between the chunk index type and the address of the index.
pub open spec fn index_parameter_bytes(index_type: u8) -> int {
    if index_type == 3 {
        1
    } else if index_type == 4 {
        5
    } else if index_type == 5 {
        6
    } else {
        0
    }
}

/// Flags, number of dimensions and their width, the dimensions, the index type, then what the
/// index type calls for.
pub open spec fn chunked_layout_v4(d: Seq<u8>, offset_size: u8, length_size: u8) -> Result<
    DataLayoutModel,
    ErrorModel,
> {
    if !crate::utils::fits(d, 2, 3) {
        Err(crate::utils::eof(d, 2, 3))
    } else {
        let width = d[4];
        let p = 5 + d[3] * width;
        if !crate::utils::fits(d, 5, d[3] * width) {
            Err(crate::utils::eof(d, 5, d[3] * width))
        } else if d[3] > 0 && !crate::utils::is_width(width) {
            Err(crate::utils::eof(d, 5, width as int))
        } else if !crate::utils::fits(d, p, 1) {
            Err(crate::utils::eof(d, p, 1))
        } else {
            chunk_index_v4(
                d,
                p,
                d[2] / 2 % 2 == 1,
                Seq::new(d[3] as nat, |i: int| dimension_at(d, 5 + i * width, width)),
                offset_size,
                length_size,
            )
        }
    }
}

/// The index type at `p` and what follows it; `filtered` says whether a single chunk has its
/// filtered size and filter mask in front of the address.
pub open spec fn chunk_index_v4(
    d: Seq<u8>,
    p: int,
    filtered: bool,
    chunk_dimensions: Seq<u32>,
    offset_size: u8,
    length_size: u8,
) -> Result<DataLayoutModel, ErrorModel> {
    let index_type = d[p];
    if index_type == 1 && filtered {
        let need = length_size + 4 + offset_size;
        if !crate::utils::fits(d, p + 1, need) {
            Err(crate::utils::eof(d, p + 1, need))
        } else {
            match crate::utils::offset_at(d, p + 1, length_size) {
                Err(e) => Err(e),
                Ok(size) => match address_at(d, p + 1 + length_size + 4, offset_size) {
                    Err(e) => Err(e),
                    Ok(btree_address) => Ok(
                        DataLayoutModel::Chunked {
                            chunk_dimensions,
                            btree_address,
                            version: 4,
                            chunk_index_type: Some(index_type),
                            single_chunk_filtered_size: Some(size),
                            single_chunk_filter_mask: Some(
                                crate::bytes::u32_at(d, p + 1 + length_size),
                            ),
                        },
                    ),
                },
            }
        }
    } else {
        let skip = index_parameter_bytes(index_type);
        if !crate::utils::fits(d, p + 1, skip + offset_size) {
            Err(crate::utils::eof(d, p + 1, skip + offset_size))
        } else {
            match address_at(d, p + 1 + skip, offset_size) {
                Err(e) => Err(e),
                Ok(btree_address) => Ok(
                    DataLayoutModel::Chunked {
                        chunk_dimensions,
                        btree_address,
                        version: 4,
                        chunk_index_type: Some(index_type),
                        single_chunk_filtered_size: None,
                        single_chunk_filter_mask: None,
                    },
                ),
            }
        }
    }
}

fn read_length(data: &[u8], pos: usize, size: u8) -> (r: Result<u64, FormatError>)
    ensures
        crate::error::outcome(r) == crate::utils::offset_at(data@, pos as int, size),
{
    read_offset(data, pos, size)
}

pub(crate) fn read_address(data: &[u8], pos: usize, size: u8) -> (r: Result<Option<u64>, FormatError>)
    requires
        pos + size <= usize::MAX,
    ensures
        match r {
            Ok(a) => address_at(data@, pos as int, size) == Ok::<Option<u64>, ErrorModel>(a),
            Err(e) => address_at(data@, pos as int, size) == Err::<Option<u64>, ErrorModel>(
                e.deep_view(),
            ),
        },
{
    if is_undefined_bytes(data, pos, size) {
        Ok(None)
    } else {
        Ok(Some(read_offset(data, pos, size)?))
    }
}

impl DataLayout {
    /// Parse a data layout message from raw message bytes.
    ///
    /// `offset_size` and `length_size` come from the superblock.
    pub fn parse(data: &[u8], offset_size: u8, length_size: u8) -> (r: Result<Self, FormatError>)
        ensures
            crate::error::outcome(r) == layout_of(data@, offset_size, length_size),
    {
        ensure_len(data, 0, 2)?;
        let version = data[0];
        let layout_class = data[1];
        match version {
            3 => DataLayout::parse_v3(data, layout_class, offset_size, length_size),
            4 => DataLayout::parse_v4(data, layout_class, offset_size, length_size),
            _ => Err(FormatError::InvalidLayoutVersion(version)),
        }
    }

    fn parse_compact(data: &[u8]) -> (r: Result<Self, FormatError>)
        ensures
            crate::error::outcome(r) == compact_layout(data@),
    {
        ensure_len(data, 2, 2)?;
        let data_size: usize = get_u16(data, 2) as usize;
        ensure_len(data, 4, data_size)?;
        let raw = slice_to_vec(slice_subrange(data, 4, 4 + data_size));
        Ok(DataLayout::Compact { data: raw })
    }

    fn parse_contiguous(data: &[u8], offset_size: u8, length_size: u8) -> (r: Result<
        Self,
        FormatError,
    >)
        ensures
            crate::error::outcome(r) == contiguous_layout(data@, offset_size, length_size),
    {
        let os: usize = offset_size as usize;
        let ls: usize = length_size as usize;
        ensure_len(data, 2, os + ls)?;
        let address = read_address(data, 2, offset_size)?;
        let size = read_length(data, 2 + os, length_size)?;
        Ok(DataLayout::Contiguous { address, size })
    }

    fn parse_v3(data: &[u8], layout_class: u8, offset_size: u8, length_size: u8) -> (r: Result<
        Self,
        FormatError,
    >)
        requires
            data@.len() >= 2,
            data@[0] == 3,
            data@[1] == layout_class,
        ensures
            crate::error::outcome(r) == layout_of(data@, offset_size, length_size),
    {
        match layout_class {
            0 => DataLayout::parse_compact(data),
            1 => DataLayout::parse_contiguous(data, offset_size, length_size),
            2 => {
                ensure_len(data, 2, 1)?;
                let dimensionality: usize = data[2] as usize;
                let os: usize = offset_size as usize;
                ensure_len(data, 3, os)?;
                let btree_address = read_address(data, 3, offset_size)?;
                let start: usize = 3 + os;
                ensure_len(data, start, dimensionality * 4)?;
                let mut chunk_dimensions: Vec<u32> = Vec::with_capacity(dimensionality);
                let mut i: usize = 0;
                while i < dimensionality
                    invariant
                        i <= dimensionality <= 255,
                        start <= 258,
                        start + dimensionality * 4 <= data@.len(),
                        chunk_dimensions@ == Seq::new(
                            i as nat,
                            |k: int| crate::bytes::u32_at(data@, start + 4 * k),
                        ),
                    decreases dimensionality - i,
                {
                    chunk_dimensions.push(get_u32(data, start + 4 * i));
                    i += 1;
                    assert(chunk_dimensions@ =~= Seq::new(
                        i as nat,
                        |k: int| crate::bytes::u32_at(data@, start + 4 * k),
                    ));
                }
                Ok(
                    DataLayout::Chunked {
                        chunk_dimensions,
                        btree_address,
                        version: 3,
                        chunk_index_type: None,
                        single_chunk_filtered_size: None,
                        single_chunk_filter_mask: None,
                    },
                )
            },
            _ => Err(FormatError::InvalidLayoutClass(layout_class)),
        }
    }

    fn parse_v4(data: &[u8], layout_class: u8, offset_size: u8, length_size: u8) -> (r: Result<
        Self,
        FormatError,
    >)
        requires
            data@.len() >= 2,
            data@[0] == 4,
            data@[1] == layout_class,
        ensures
            crate::error::outcome(r) == layout_of(data@, offset_size, length_size),
    {
        match layout_class {
            0 => DataLayout::parse_compact(data),
            1 => DataLayout::parse_contiguous(data, offset_size, length_size),
            2 => {
                ensure_len(data, 2, 3)?;
                let flags = data[2];
                let dimensionality: usize = data[3] as usize;
                let width: usize = data[4] as usize;
                assert(0 <= dimensionality * width <= 255 * 255) by (nonlinear_arith)
                    requires
                        0 <= dimensionality <= 255,
                        0 <= width <= 255,
                ;
                ensure_len(data, 5, dimensionality * width)?;
                let chunk_dimensions = DataLayout::parse_dimensions(data, dimensionality, data[4])?;
                DataLayout::parse_index(
                    data,
                    5 + dimensionality * width,
                    flags,
                    chunk_dimensions,
                    offset_size,
                    length_size,
                )
            },
            3 => Ok(DataLayout::Virtual { version: 4 }),
            _ => Err(FormatError::InvalidLayoutClass(layout_class)),
        }
    }

    /// Parse the dimension sizes of a version 4 chunked layout.
    fn parse_dimensions(data: &[u8], dimensionality: usize, width: u8) -> (r: Result<
        Vec<u32>,
        FormatError,
    >)
        requires
            dimensionality <= 255,
            5 + dimensionality * width <= data@.len(),
        ensures
            match r {
                Ok(dims) => (dimensionality > 0 ==> crate::utils::is_width(width)) && dims@
                    == Seq::new(
                    dimensionality as nat,
                    |i: int| dimension_at(data@, 5 + i * width, width),
                ),
                Err(e) => dimensionality > 0 && !crate::utils::is_width(width) && e.deep_view()
                    == crate::utils::eof(data@, 5, width as int),
            },
    {
        let mut dims: Vec<u32> = Vec::with_capacity(dimensionality);
        if dimensionality > 0 && !matches!(width, 1 | 2 | 4 | 8) {
            return Err(
                FormatError::UnexpectedEof {
                    expected: 5 + width as usize,
                    available: data.len(),
                },
            );
        }
        let mut i: usize = 0;
        while i < dimensionality
            invariant
                i <= dimensionality <= 255,
                dimensionality > 0 ==> crate::utils::is_width(width),
                5 + dimensionality * width <= data@.len(),
                dims@ == Seq::new(
                    i as nat,
                    |k: int| dimension_at(data@, 5 + k * width, width),
                ),
            decreases dimensionality - i,
        {
            assert(i * width + width <= dimensionality * width && 0 <= i * width <= 255 * 8)
                by (nonlinear_arith)
                requires
                    0 <= i < dimensionality <= 255,
                    0 < width <= 8,
            ;
            let p: usize = 5 + i * width as usize;
            let val: u32 = match width {
                1 => data[p] as u32,
                2 => get_u16(data, p) as u32,
                _ => get_u32(data, p),
            };
            dims.push(val);
            i += 1;
            assert(dims@ =~= Seq::new(
                i as nat,
                |k: int| dimension_at(data@, 5 + k * width, width),
            ));
        }
        assert(dims@ =~= Seq::new(
            dimensionality as nat,
            |i: int| dimension_at(data@, 5 + i * width, width),
        ));
        Ok(dims)
    }

    /// Parse the chunk index of a version 4 chunked layout.
    fn parse_index(
        data: &[u8],
        start: usize,
        flags: u8,
        chunk_dimensions: Vec<u32>,
        offset_size: u8,
        length_size: u8,
    ) -> (r: Result<Self, FormatError>)
        requires
            start <= 0x2_0000,
        ensures
            crate::error::outcome(r) == if !crate::utils::fits(data@, start as int, 1) {
                Err(crate::utils::eof(data@, start as int, 1))
            } else {
                chunk_index_v4(
                    data@,
                    start as int,
                    flags / 2 % 2 == 1,
                    chunk_dimensions@,
                    offset_size,
                    length_size,
                )
            },
    {
        ensure_len(data, start, 1)?;
        let chunk_index_type = data[start];
        let p: usize = start + 1;
        let os: usize = offset_size as usize;
        let ls: usize = length_size as usize;
        if chunk_index_type == 1 && flags / 2 % 2 == 1 {
            // filtered_size(length_size) + filter_mask(4) + address(offset_size)
            ensure_len(data, p, ls + 4 + os)?;
            let filtered_size = read_length(data, p, length_size)?;
            let filter_mask = get_u32(data, p + ls);
            let btree_address = read_address(data, p + ls + 4, offset_size)?;
            return Ok(
                DataLayout::Chunked {
                    chunk_dimensions,
                    btree_address,
                    version: 4,
                    chunk_index_type: Some(chunk_index_type),
                    single_chunk_filtered_size: Some(filtered_size),
                    single_chunk_filter_mask: Some(filter_mask),
                },
            );
        }
        let skip: usize = match chunk_index_type {
            // Fixed Array: max_dblk_page_nelmts_bits(1)
            3 => 1,
            // Extensible Array: 5 creation params
            4 => 5,
            // B-tree v2: node_size(4) + split_percent(1) + merge_percent(1)
            5 => 6,
            _ => 0,
        };
        ensure_len(data, p, skip + os)?;
        let btree_address = read_address(data, p + skip, offset_size)?;
        Ok(
            DataLayout::Chunked {
                chunk_dimensions,
                btree_address,
                version: 4,
                chunk_index_type: Some(chunk_index_type),
                single_chunk_filtered_size: None,
                single_chunk_filter_mask: None,
            },
        )
    }
}

} // verus!
