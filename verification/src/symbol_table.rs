//! HDF5 Symbol Table Message and Symbol Table Node (SNOD) parsing.

use vstd::prelude::*;
use crate::bytes::{byte_len, get_u16, get_u32, tag_at};
use crate::error::{ErrorModel, FormatError};
use crate::utils::{ensure_len, read_offset};

verus! {

broadcast use vstd::std_specs::control_flow::group_control_flow_axioms;

/// Symbol Table message (type 0x0011) found in v1 group object headers.
#[derive(Debug, Clone, Copy, PartialEq, Eq, Structural)]
pub struct SymbolTableMessage {
    /// Address of B-tree v1 (type 0) for this group.
    pub btree_address: u64,
    /// Address of the local heap for this group.
    pub local_heap_address: u64,
}

impl DeepView for SymbolTableMessage {
    type V = SymbolTableMessage;

    open spec fn deep_view(&self) -> SymbolTableMessage {
        *self
    }
}

/// The symbol table that the message `d` names.
pub open spec fn symbol_table_of(d: Seq<u8>, os: u8) -> Result<SymbolTableMessage, ErrorModel> {
    if !crate::utils::fits(d, 0, 2 * os) {
        Err(crate::utils::eof(d, 0, 2 * os))
    } else if !crate::utils::is_width(os) {
        Err(ErrorModel::Plain(FormatError::InvalidOffsetSize(os)))
    } else {
        Ok(
            SymbolTableMessage {
                btree_address: crate::utils::uint_at(d, 0, os),
                local_heap_address: crate::utils::uint_at(d, os as int, os),
            },
        )
    }
}

impl SymbolTableMessage {
    /// Parse a Symbol Table message from raw message data bytes.
    pub fn parse(data: &[u8], offset_size: u8) -> (r: Result<Self, FormatError>)
        ensures
            crate::error::outcome(r) == symbol_table_of(data@, offset_size),
    {
        let os: usize = offset_size as usize;
        ensure_len(data, 0, os * 2)?;
        let btree_address = read_offset(data, 0, offset_size)?;
        let local_heap_address = read_offset(data, os, offset_size)?;
        Ok(SymbolTableMessage { btree_address, local_heap_address })
    }
}

/// A single entry in a Symbol Table Node (SNOD).
#[derive(Debug, Clone)]
pub struct SymbolTableEntry {
    /// Byte offset of the link name in the local heap.
    pub link_name_offset: u64,
    /// Address of the child object's header.
    pub object_header_address: u64,
    /// Cache type: 0=none, 1=group, 2=symbolic link.
    pub cache_type: u32,
    /// 16-byte scratch pad (cached data).
    pub scratch_pad: [u8; 16],
}

/// The content of a [`SymbolTableEntry`].
pub struct EntryModel {
    pub link_name_offset: u64,
    pub object_header_address: u64,
    pub cache_type: u32,
    pub scratch_pad: Seq<u8>,
}

impl DeepView for SymbolTableEntry {
    type V = EntryModel;

    open spec fn deep_view(&self) -> EntryModel {
        EntryModel {
            link_name_offset: self.link_name_offset,
            object_header_address: self.object_header_address,
            cache_type: self.cache_type,
            scratch_pad: self.scratch_pad@,
        }
    }
}

/// A parsed Symbol Table Node (SNOD).
#[derive(Debug, Clone)]
pub struct SymbolTableNode {
    /// The symbol table entries.
    pub entries: Vec<SymbolTableEntry>,
}

impl DeepView for SymbolTableNode {
    type V = Seq<EntryModel>;

    open spec fn deep_view(&self) -> Seq<EntryModel> {
        self.entries.deep_view()
    }
}

/// The length of an entry: link name offset, object header address, cache type, four reserved
/// bytes and the scratch pad.
pub open spec fn entry_size(os: u8) -> int {
    2 * os + 24
}

/// The entry at `q`.
pub open spec fn entry_at(d: Seq<u8>, q: int, os: u8) -> EntryModel {
    EntryModel {
        link_name_offset: crate::utils::uint_at(d, q, os),
        object_header_address: crate::utils::uint_at(d, q + os, os),
        cache_type: crate::bytes::u32_at(d, q + 2 * os),
        scratch_pad: d.subrange(q + 2 * os + 8, q + 2 * os + 24),
    }
}

/// The entries of the node at `p`.
pub open spec fn entries_of(d: Seq<u8>, p: int, os: u8) -> Result<Seq<EntryModel>, ErrorModel> {
    let n = crate::bytes::u16_at(d, p + 6);
    if !crate::utils::fits(d, p, 8) {
        Err(crate::utils::eof(d, p, 8))
    } else if !crate::bytes::has_tag(d, p, seq![0x53, 0x4E, 0x4F, 0x44]) {
        Err(ErrorModel::Plain(FormatError::InvalidSymbolTableNodeSignature))
    } else if d[p + 4] != 1 {
        Err(ErrorModel::Plain(FormatError::InvalidSymbolTableNodeVersion(d[p + 4])))
    } else if !crate::utils::fits(d, 0, p + 8 + n * entry_size(os)) {
        Err(crate::utils::eof(d, 0, p + 8 + n * entry_size(os)))
    } else if n > 0 && !crate::utils::is_width(os) {
        Err(ErrorModel::Plain(FormatError::InvalidOffsetSize(os)))
    } else {
        Ok(Seq::new(n as nat, |i: int| entry_at(d, p + 8 + i * entry_size(os), os)))
    }
}

fn read_scratch_pad(d: &[u8], p: usize) -> (pad: [u8; 16])
    requires
        p + 16 <= d@.len(),
    ensures
        pad@ == d@.subrange(p as int, p + 16),
{
    assert(d.len() == d@.len());
    let pad: [u8; 16] = [
        d[p],
        d[p + 1],
        d[p + 2],
        d[p + 3],
        d[p + 4],
        d[p + 5],
        d[p + 6],
        d[p + 7],
        d[p + 8],
        d[p + 9],
        d[p + 10],
        d[p + 11],
        d[p + 12],
        d[p + 13],
        d[p + 14],
        d[p + 15],
    ];
    assert(pad@ =~= d@.subrange(p as int, p + 16));
    pad
}

impl SymbolTableNode {
    /// Parse a Symbol Table Node at the given offset in the file data.
    pub fn parse(file_data: &[u8], offset: usize, offset_size: u8) -> (r: Result<Self, FormatError>)
        ensures
            crate::error::outcome(r) == entries_of(file_data@, offset as int, offset_size),
    {
        let len: usize = byte_len(file_data);
        let ghost d = file_data@;
        let ghost p = offset as int;
        // signature(4) + version(1) + reserved(1) + number_of_symbols(2) = 8
        ensure_len(file_data, offset, 8)?;
        if !tag_at(file_data, offset, 0x53, 0x4E, 0x4F, 0x44) {
            return Err(FormatError::InvalidSymbolTableNodeSignature);
        }
        let version = file_data[offset + 4];
        if version != 1 {
            return Err(FormatError::InvalidSymbolTableNodeVersion(version));
        }
        let num_symbols: usize = get_u16(file_data, offset + 6) as usize;
        let os: usize = offset_size as usize;
        let step: usize = os + os + 24;
        let start: usize = offset + 8;
        proof {
            assert(0 <= num_symbols * step <= 0x10000 * 534) by (nonlinear_arith)
                requires
                    0 <= num_symbols < 0x10000,
                    0 <= step <= 534,
            ;
        }
        let needed: usize = start + num_symbols * step;
        ensure_len(file_data, 0, needed)?;
        let mut entries: Vec<SymbolTableEntry> = Vec::with_capacity(num_symbols);
        let ghost goal = entries_of(d, p, offset_size);
        let mut i: usize = 0;
        assert(entries.deep_view() =~= Seq::<EntryModel>::empty());
        while i < num_symbols
            invariant
                d == file_data@,
                len == d.len(),
                len <= isize::MAX,
                p == offset,
                os == offset_size,
                step == entry_size(offset_size),
                start == p + 8,
                start + num_symbols * step <= len,
                i <= num_symbols,
                !crate::utils::is_width(offset_size) && num_symbols > 0 ==> goal == Err::<
                    Seq<EntryModel>,
                    ErrorModel,
                >(ErrorModel::Plain(FormatError::InvalidOffsetSize(offset_size))),
                goal == entries_of(d, p, offset_size),
                i > 0 ==> crate::utils::is_width(offset_size),
                entries.deep_view() == Seq::new(
                    i as nat,
                    |k: int| entry_at(d, start + k * step, offset_size),
                ),
            decreases num_symbols - i,
        {
            proof {
                assert(i * step + step <= num_symbols * step && i * step >= 0) by (nonlinear_arith)
                    requires
                        0 <= i,
                        i + 1 <= num_symbols,
                        step >= 0,
                ;
            }
            let pos: usize = start + i * step;
            let link_name_offset = read_offset(file_data, pos, offset_size)?;
            let object_header_address = read_offset(file_data, pos + os, offset_size)?;
            let cache_type = get_u32(file_data, pos + 2 * os);
            let scratch_pad = read_scratch_pad(file_data, pos + 2 * os + 8);
            let entry = SymbolTableEntry {
                link_name_offset,
                object_header_address,
                cache_type,
                scratch_pad,
            };
            let ghost before = entries.deep_view();
            let ghost added = entry.deep_view();
            entries.push(entry);
            proof {
                assert(added == entry_at(d, start + i * step, offset_size));
                assert(entries.deep_view() =~= before.push(added));
                assert(entries.deep_view() =~= Seq::new(
                    (i + 1) as nat,
                    |k: int| entry_at(d, start + k * step, offset_size),
                ));
            }
            i += 1;
        }
        assert(goal == Ok::<Seq<EntryModel>, ErrorModel>(
            Seq::new(num_symbols as nat, |k: int| entry_at(d, start + k * step, offset_size)),
        )) by {
            assert(Seq::new(
                num_symbols as nat,
                |k: int| entry_at(d, start + k * step, offset_size),
            ) =~= Seq::new(
                num_symbols as nat,
                |k: int| entry_at(d, p + 8 + k * entry_size(offset_size), offset_size),
            ));
        }
        Ok(SymbolTableNode { entries })
    }
}

} // verus!
