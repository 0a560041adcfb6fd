//! HDF5 Shared Object Header Message resolution.
//!
//! When a header message has its "shared" flag (bit 1 of msg_flags) set,
//! the message data is not the actual message content but a reference
//! to a shared copy stored elsewhere.
//!
//! Shared message reference types:
//! - Type 0: shared in the same object header (not typically used)
//! - Type 1: shared in another object header (version 1-2)
//! - Type 2: shared in the SOHM table (via fractal heap, version 3)
//! - Type 3: shared in another object header (version 3)
//!
//! SOHM table structures:
//! - SharedMessageTable message (0x000F) in superblock extension: version + table_addr + nindexes
//! - SMTB structure at table_addr: per-index metadata (type flags, addresses, etc.)
//! - SMLI list structure: simple list of shared message entries
//! - B-tree v2 type 7: indexed shared message entries

use vstd::prelude::*;
use vstd::slice::{slice_subrange, slice_to_vec};
use crate::btree_v2::{collect_btree_v2_records, BTreeV2Header};
use crate::bytes::{byte_len, get_u16, get_u32, tag_at};
use crate::error::{ErrorModel, FormatError};
use crate::fractal_heap::FractalHeapHeader;
use crate::message_type::MessageType;
use crate::object_header::{HeaderMessage, HeaderMessageModel, ObjectHeader};
use crate::utils::{ensure_len, is_undefined_offset, read_offset};

verus! {

broadcast use vstd::std_specs::control_flow::group_control_flow_axioms;

/// A resolved shared message reference.
#[derive(Debug, Clone)]
pub struct SharedMessageRef {
    /// The type of shared message reference.
    pub ref_type: u8,
    /// Version of the shared message encoding.
    pub version: u8,
    /// Address of the object header containing the shared message (type 1, 3).
    pub object_header_address: Option<u64>,
    /// Fractal heap ID for type 2 (SOHM) references.
    pub heap_id: Option<[u8; 8]>,
}

/// The content of a [`SharedMessageRef`].
pub struct SharedRefModel {
    pub ref_type: u8,
    pub version: u8,
    pub object_header_address: Option<u64>,
    pub heap_id: Option<Seq<u8>>,
}

impl DeepView for SharedMessageRef {
    type V = SharedRefModel;

    open spec fn deep_view(&self) -> SharedRefModel {
        SharedRefModel {
            ref_type: self.ref_type,
            version: self.version,
            object_header_address: self.object_header_address,
            heap_id: match self.heap_id {
                Some(id) => Some(id@),
                None => None,
            },
        }
    }
}

/// Parsed Shared Message Table message (type 0x000F from superblock extension).
#[derive(Debug, Clone, Copy, PartialEq, Eq, Structural)]
pub struct SohmTableMessage {
    /// Version of the shared message table message.
    pub version: u8,
    /// Address of the SOHM table (SMTB structure).
    pub table_address: u64,
    /// Number of shared message indexes.
    pub nindexes: u8,
}

impl DeepView for SohmTableMessage {
    type V = SohmTableMessage;

    open spec fn deep_view(&self) -> SohmTableMessage {
        *self
    }
}

/// A single SOHM index entry from the SMTB table.
#[derive(Debug, Clone, Copy, PartialEq, Eq, Structural)]
pub struct SohmIndex {
    /// Index type: 0 = list, 1 = B-tree.
    pub index_type: u8,
    /// Bitmask of message types stored in this index.
    pub mesg_types: u16,
    /// Minimum message size to share.
    pub min_mesg_size: u32,
    /// Maximum messages before converting list to B-tree.
    pub list_max: u16,
    /// Minimum messages before converting B-tree back to list.
    pub btree_min: u16,
    /// Number of messages currently in this index.
    pub num_messages: u16,
    /// Address of the list (SMLI) or B-tree v2 header (BTHD).
    pub index_addr: u64,
    /// Address of the fractal heap for this index.
    pub heap_addr: u64,
}

/// Parsed SOHM table (SMTB structure).
#[derive(Debug, Clone)]
pub struct SohmTable {
    /// The indexes in this table.
    pub indexes: Vec<SohmIndex>,
}

impl DeepView for SohmTable {
    type V = Seq<SohmIndex>;

    open spec fn deep_view(&self) -> Seq<SohmIndex> {
        self.indexes@
    }
}

/// A single entry in a SOHM list or B-tree.
#[derive(Debug, Clone)]
pub struct SohmEntry {
    /// Location: 0 = in fractal heap, 1 = in object header.
    pub location: u8,
    /// Hash of the message.
    pub hash: u32,
    /// Fractal heap ID (when location = 0).
    pub heap_id: Option<[u8; 8]>,
    /// Reference count (when location = 0).
    pub ref_count: Option<u32>,
    /// Message index within OH (when location = 1).
    pub mesg_index: Option<u16>,
    /// Object header address (when location = 1).
    pub oh_addr: Option<u64>,
}

/// The content of a [`SohmEntry`].
pub struct SohmEntryModel {
    pub location: u8,
    pub hash: u32,
    pub heap_id: Option<Seq<u8>>,
    pub ref_count: Option<u32>,
    pub mesg_index: Option<u16>,
    pub oh_addr: Option<u64>,
}

impl DeepView for SohmEntry {
    type V = SohmEntryModel;

    open spec fn deep_view(&self) -> SohmEntryModel {
        SohmEntryModel {
            location: self.location,
            hash: self.hash,
            heap_id: match self.heap_id {
                Some(id) => Some(id@),
                None => None,
            },
            ref_count: self.ref_count,
            mesg_index: self.mesg_index,
            oh_addr: self.oh_addr,
        }
    }
}

// ---- References ----

/// Whether the shared flag is set.
pub open spec fn shared(flags: u8) -> bool {
    flags / 2 % 2 == 1
}

/// Check whether a header message has its shared flag set.
pub fn is_shared(msg_flags: u8) -> (r: bool)
    ensures
        r == shared(msg_flags),
{
    msg_flags / 2 % 2 == 1
}

/// The reference that the data of a shared message holds.
pub open spec fn shared_ref_of(d: Seq<u8>, os: u8) -> Result<SharedRefModel, ErrorModel> {
    if !crate::utils::fits(d, 0, 2) {
        Err(crate::utils::eof(d, 0, 2))
    } else if d[0] == 1 || d[0] == 2 {
        header_ref(d, 8, os)
    } else if d[0] != 3 {
        Err(ErrorModel::Plain(FormatError::InvalidSharedMessageVersion(d[0])))
    } else if d[1] == 1 || d[1] == 3 {
        header_ref(d, 2, os)
    } else if d[1] != 2 {
        Err(ErrorModel::Plain(FormatError::InvalidSharedMessageVersion(d[1])))
    } else if !crate::utils::fits(d, 2, 8) {
        Err(crate::utils::eof(d, 2, 8))
    } else {
        Ok(
            SharedRefModel {
                ref_type: 2,
                version: 3,
                object_header_address: None,
                heap_id: Some(d.subrange(2, 10)),
            },
        )
    }
}

/// The reference to the object header whose address stands at `p`.
pub open spec fn header_ref(d: Seq<u8>, p: int, os: u8) -> Result<SharedRefModel, ErrorModel> {
    match crate::utils::offset_at(d, p, os) {
        Err(e) => Err(e),
        Ok(address) => Ok(
            SharedRefModel {
                ref_type: d[1],
                version: d[0],
                object_header_address: Some(address),
                heap_id: None,
            },
        ),
    }
}

fn read_heap_id(d: &[u8], p: usize) -> (id: [u8; 8])
    requires
        p + 8 <= d@.len(),
    ensures
        id@ == d@.subrange(p as int, p + 8),
{
    assert(d.len() == d@.len());
    let id: [u8; 8] = [
        d[p],
        d[p + 1],
        d[p + 2],
        d[p + 3],
        d[p + 4],
        d[p + 5],
        d[p + 6],
        d[p + 7],
    ];
    assert(id@ =~= d@.subrange(p as int, p + 8));
    id
}

/// Parse a shared message reference from the message data.
///
/// When the shared flag is set on a message, the data contains a reference
/// instead of the actual message content.
pub fn parse_shared_ref(data: &[u8], offset_size: u8) -> (r: Result<SharedMessageRef, FormatError>)
    ensures
        crate::error::outcome(r) == shared_ref_of(data@, offset_size),
{
    ensure_len(data, 0, 2)?;
    let version = data[0];
    let ref_type = data[1];
    match version {
        1 | 2 => {
            // v1/v2: reserved(6) + address(offset_size)
            let addr = read_offset(data, 8, offset_size)?;
            Ok(
                SharedMessageRef {
                    ref_type,
                    version,
                    object_header_address: Some(addr),
                    heap_id: None,
                },
            )
        },
        3 => match ref_type {
            1 | 3 => {
                // v3 layout: version(1) + type(1) + address(offset_size)
                let addr = read_offset(data, 2, offset_size)?;
                Ok(
                    SharedMessageRef {
                        ref_type,
                        version,
                        object_header_address: Some(addr),
                        heap_id: None,
                    },
                )
            },
            2 => {
                // type 2: SOHM table (fractal heap ID)
                ensure_len(data, 2, 8)?;
                Ok(
                    SharedMessageRef {
                        ref_type,
                        version,
                        object_header_address: None,
                        heap_id: Some(read_heap_id(data, 2)),
                    },
                )
            },
            _ => Err(FormatError::InvalidSharedMessageVersion(ref_type)),
        },
        _ => Err(FormatError::InvalidSharedMessageVersion(version)),
    }
}

// ---- SOHM Table Message (0x000F) ----

/// The table that the message `d` names.
pub open spec fn table_message_of(d: Seq<u8>, os: u8) -> Result<SohmTableMessage, ErrorModel> {
    if !crate::utils::fits(d, 0, 1) {
        Err(crate::utils::eof(d, 0, 1))
    } else if d[0] != 0 {
        Err(ErrorModel::Plain(FormatError::InvalidSohmTableVersion(d[0])))
    } else if !crate::utils::fits(d, 1, os + 1) {
        Err(crate::utils::eof(d, 1, os + 1))
    } else {
        match crate::utils::offset_at(d, 1, os) {
            Err(e) => Err(e),
            Ok(table_address) => Ok(
                SohmTableMessage { version: 0, table_address, nindexes: d[1 + os] },
            ),
        }
    }
}

/// Parse a Shared Message Table message (type 0x000F) from the superblock extension.
///
/// Format: version(1) + table_address(offset_size) + nindexes(1)
pub fn parse_sohm_table_message(data: &[u8], offset_size: u8) -> (r: Result<
    SohmTableMessage,
    FormatError,
>)
    ensures
        crate::error::outcome(r) == table_message_of(data@, offset_size),
{
    ensure_len(data, 0, 1)?;
    let version = data[0];
    if version != 0 {
        return Err(FormatError::InvalidSohmTableVersion(version));
    }
    let os: usize = offset_size as usize;
    ensure_len(data, 1, os + 1)?;
    let table_address = read_offset(data, 1, offset_size)?;
    let nindexes = data[1 + os];
    Ok(SohmTableMessage { version, table_address, nindexes })
}

// ---- SMTB table ----

/// The index at `q`.
pub open spec fn index_at(d: Seq<u8>, q: int, os: u8) -> SohmIndex {
    SohmIndex {
        index_type: d[q],
        mesg_types: crate::bytes::u16_at(d, q + 1),
        min_mesg_size: crate::bytes::u32_at(d, q + 3),
        list_max: crate::bytes::u16_at(d, q + 7),
        btree_min: crate::bytes::u16_at(d, q + 9),
        num_messages: crate::bytes::u16_at(d, q + 11),
        index_addr: crate::utils::uint_at(d, q + 13, os),
        heap_addr: crate::utils::uint_at(d, q + 13 + os, os),
    }
}

/// `done` and the `n` indexes from `q` on.
pub open spec fn indexes_at(d: Seq<u8>, q: int, n: int, os: u8, done: Seq<SohmIndex>) -> Result<
    Seq<SohmIndex>,
    ErrorModel,
>
    decreases n,
{
    if n <= 0 {
        Ok(done)
    } else if !crate::utils::fits(d, q, 13 + 2 * os) {
        Err(crate::utils::eof(d, q, 13 + 2 * os))
    } else if !crate::utils::is_width(os) {
        Err(ErrorModel::Plain(FormatError::InvalidOffsetSize(os)))
    } else {
        indexes_at(d, q + 13 + 2 * os, n - 1, os, done.push(index_at(d, q, os)))
    }
}

/// The table at `p`.
pub open spec fn table_at(d: Seq<u8>, p: int, n: int, os: u8) -> Result<
    Seq<SohmIndex>,
    ErrorModel,
> {
    if !crate::utils::fits(d, p, 4) {
        Err(crate::utils::eof(d, p, 4))
    } else if !crate::bytes::has_tag(d, p, seq![0x53, 0x4D, 0x54, 0x42]) {
        Err(ErrorModel::Plain(FormatError::InvalidSohmTableSignature))
    } else {
        indexes_at(d, p + 4, n, os, Seq::empty())
    }
}

/// Parse the SOHM table structure (signature "SMTB") from the file.
///
/// Each index entry: index_type(1) + mesg_types(2) + min_mesg_size(4) +
///   list_max(2) + btree_min(2) + num_messages(2) + index_addr(offset_size) +
///   heap_addr(offset_size)
pub fn parse_sohm_table(file_data: &[u8], table_addr: usize, nindexes: u8, offset_size: u8) -> (r:
    Result<SohmTable, FormatError>)
    ensures
        crate::error::outcome(r) == table_at(
            file_data@,
            table_addr as int,
            nindexes as int,
            offset_size,
        ),
{
    let len: usize = byte_len(file_data);
    ensure_len(file_data, table_addr, 4)?;
    if !tag_at(file_data, table_addr, 0x53, 0x4D, 0x54, 0x42) {
        return Err(FormatError::InvalidSohmTableSignature);
    }
    let os: usize = offset_size as usize;
    let step: usize = 13 + 2 * os;
    let mut pos: usize = table_addr + 4;
    let mut indexes: Vec<SohmIndex> = Vec::with_capacity(nindexes as usize);
    let ghost goal = table_at(file_data@, table_addr as int, nindexes as int, offset_size);
    let mut k: u8 = 0;
    assert(indexes@ =~= Seq::<SohmIndex>::empty());
    while k < nindexes
        invariant
            k <= nindexes,
            len == file_data@.len(),
            len <= isize::MAX,
            pos <= len,
            os == offset_size,
            step == 13 + 2 * os,
            goal == table_at(file_data@, table_addr as int, nindexes as int, offset_size),
            goal == indexes_at(file_data@, pos as int, nindexes - k, offset_size, indexes@),
        decreases nindexes - k,
    {
        ensure_len(file_data, pos, step)?;
        let index_type = file_data[pos];
        let mesg_types = get_u16(file_data, pos + 1);
        let min_mesg_size = get_u32(file_data, pos + 3);
        let list_max = get_u16(file_data, pos + 7);
        let btree_min = get_u16(file_data, pos + 9);
        let num_messages = get_u16(file_data, pos + 11);
        let index_addr = read_offset(file_data, pos + 13, offset_size)?;
        let heap_addr = read_offset(file_data, pos + 13 + os, offset_size)?;
        indexes.push(
            SohmIndex {
                index_type,
                mesg_types,
                min_mesg_size,
                list_max,
                btree_min,
                num_messages,
                index_addr,
                heap_addr,
            },
        );
        pos += step;
        k += 1;
    }
    Ok(SohmTable { indexes })
}

// ---- Entries ----

/// The length of an entry in a list or a B-tree: location, hash, and the longer of what is stored
/// of a message in an object header and of one in the heap.
pub open spec fn entry_size(os: u8) -> int {
    if 2 + os > 12 {
        7 + os
    } else {
        17
    }
}

/// Compute the size of a single SOHM entry in a list or B-tree record.
///
/// Entry: location(1) + hash(4) + max(oh_entry, heap_entry)
/// OH entry: mesg_index(2) + oh_addr(offset_size)
/// Heap entry: heap_id(8) + ref_count(4) = 12
pub fn sohm_entry_size(offset_size: u8) -> (n: usize)
    ensures
        n == entry_size(offset_size),
{
    let oh_size: usize = 2 + offset_size as usize;
    let heap_size: usize = 12;
    if oh_size > heap_size {
        5 + oh_size
    } else {
        5 + heap_size
    }
}

/// The entry at the front of `d`.
pub open spec fn entry_of(d: Seq<u8>, os: u8) -> Result<SohmEntryModel, ErrorModel> {
    let hash = crate::bytes::u32_at(d, 1);
    if !crate::utils::fits(d, 0, entry_size(os)) {
        Err(crate::utils::eof(d, 0, entry_size(os)))
    } else if d[0] == 0 {
        Ok(
            SohmEntryModel {
                location: 0,
                hash,
                heap_id: Some(d.subrange(5, 13)),
                ref_count: Some(crate::bytes::u32_at(d, 13)),
                mesg_index: None,
                oh_addr: None,
            },
        )
    } else {
        match crate::utils::offset_at(d, 7, os) {
            Err(e) => Err(e),
            Ok(address) => Ok(
                SohmEntryModel {
                    location: d[0],
                    hash,
                    heap_id: None,
                    ref_count: None,
                    mesg_index: Some(crate::bytes::u16_at(d, 5)),
                    oh_addr: Some(address),
                },
            ),
        }
    }
}

/// Parse a single SOHM entry from raw bytes.
pub fn parse_sohm_entry(data: &[u8], offset_size: u8) -> (r: Result<SohmEntry, FormatError>)
    ensures
        crate::error::outcome(r) == entry_of(data@, offset_size),
{
    let entry_sz: usize = sohm_entry_size(offset_size);
    ensure_len(data, 0, entry_sz)?;
    let location = data[0];
    let hash = get_u32(data, 1);
    if location == 0 {
        // In fractal heap
        let heap_id = read_heap_id(data, 5);
        let ref_count = get_u32(data, 13);
        Ok(
            SohmEntry {
                location,
                hash,
                heap_id: Some(heap_id),
                ref_count: Some(ref_count),
                mesg_index: None,
                oh_addr: None,
            },
        )
    } else {
        // In object header
        let mesg_index = get_u16(data, 5);
        let oh_addr = read_offset(data, 7, offset_size)?;
        Ok(
            SohmEntry {
                location,
                hash,
                heap_id: None,
                ref_count: None,
                mesg_index: Some(mesg_index),
                oh_addr: Some(oh_addr),
            },
        )
    }
}

/// `done` and the `n` entries from `q` on.
pub open spec fn entries_at(
    d: Seq<u8>,
    q: int,
    n: int,
    os: u8,
    done: Seq<SohmEntryModel>,
) -> Result<Seq<SohmEntryModel>, ErrorModel>
    decreases n,
{
    if n <= 0 {
        Ok(done)
    } else if !crate::utils::fits(d, q, entry_size(os)) {
        Err(crate::utils::eof(d, q, entry_size(os)))
    } else {
        match entry_of(d.subrange(q, d.len() as int), os) {
            Err(e) => Err(e),
            Ok(entry) => entries_at(d, q + entry_size(os), n - 1, os, done.push(entry)),
        }
    }
}

/// The list at `p`.
pub open spec fn list_at(d: Seq<u8>, p: int, n: int, os: u8) -> Result<
    Seq<SohmEntryModel>,
    ErrorModel,
> {
    if !crate::utils::fits(d, p, 4) {
        Err(crate::utils::eof(d, p, 4))
    } else if !crate::bytes::has_tag(d, p, seq![0x53, 0x4D, 0x4C, 0x49]) {
        Err(ErrorModel::Plain(FormatError::InvalidSohmListSignature))
    } else {
        entries_at(d, p + 4, n, os, Seq::empty())
    }
}

/// Parse a SOHM list (signature "SMLI") and return all entries.
pub fn parse_sohm_list(file_data: &[u8], list_addr: usize, num_messages: u16, offset_size: u8) -> (r:
    Result<Vec<SohmEntry>, FormatError>)
    ensures
        crate::error::outcome(r) == list_at(
            file_data@,
            list_addr as int,
            num_messages as int,
            offset_size,
        ),
{
    let len: usize = byte_len(file_data);
    ensure_len(file_data, list_addr, 4)?;
    if !tag_at(file_data, list_addr, 0x53, 0x4D, 0x4C, 0x49) {
        return Err(FormatError::InvalidSohmListSignature);
    }
    let entry_sz: usize = sohm_entry_size(offset_size);
    let mut pos: usize = list_addr + 4;
    let mut entries: Vec<SohmEntry> = Vec::with_capacity(num_messages as usize);
    let ghost goal = list_at(file_data@, list_addr as int, num_messages as int, offset_size);
    let mut k: u16 = 0;
    assert(entries.deep_view() =~= Seq::<SohmEntryModel>::empty());
    while k < num_messages
        invariant
            k <= num_messages,
            len == file_data@.len(),
            len <= isize::MAX,
            pos <= len,
            entry_sz == entry_size(offset_size),
            goal == list_at(file_data@, list_addr as int, num_messages as int, offset_size),
            goal == entries_at(
                file_data@,
                pos as int,
                num_messages - k,
                offset_size,
                entries.deep_view(),
            ),
        decreases num_messages - k,
    {
        ensure_len(file_data, pos, entry_sz)?;
        let entry = parse_sohm_entry(slice_subrange(file_data, pos, len), offset_size)?;
        let ghost before = entries.deep_view();
        let ghost added = entry.deep_view();
        entries.push(entry);
        assert(entries.deep_view() =~= before.push(added));
        pos += entry_sz;
        k += 1;
    }
    Ok(entries)
}

/// The entries that the first `n` records of a B-tree hold.
pub open spec fn record_entries(records: Seq<Seq<u8>>, n: int, os: u8) -> Result<
    Seq<SohmEntryModel>,
    ErrorModel,
>
    decreases n,
{
    if n <= 0 {
        Ok(Seq::empty())
    } else {
        match record_entries(records, n - 1, os) {
            Err(e) => Err(e),
            Ok(done) => match entry_of(records[n - 1], os) {
                Err(e) => Err(e),
                Ok(entry) => Ok(done.push(entry)),
            },
        }
    }
}

/// An error of one record is the error of all.
proof fn lemma_record_error(records: Seq<Seq<u8>>, k: int, n: int, os: u8)
    requires
        0 <= k <= n,
        record_entries(records, k, os) is Err,
    ensures
        record_entries(records, n, os) == record_entries(records, k, os),
    decreases n - k,
{
    if k < n {
        lemma_record_error(records, k, n - 1, os);
    }
}

/// The entries in the B-tree at `p`.
pub open spec fn btree_entries(d: Seq<u8>, p: int, os: u8, ls: u8) -> Result<
    Seq<SohmEntryModel>,
    ErrorModel,
> {
    match crate::btree_v2::header_at(d, p, os, ls) {
        Err(e) => Err(e),
        Ok(h) => match crate::btree_v2::all_records(d, h, os) {
            Err(e) => Err(e),
            Ok(records) => record_entries(records, records.len() as int, os),
        },
    }
}

/// Parse SOHM entries from a B-tree v2 type 7 index.
pub fn parse_sohm_btree_entries(
    file_data: &[u8],
    btree_addr: usize,
    offset_size: u8,
    length_size: u8,
) -> (r: Result<Vec<SohmEntry>, FormatError>)
    ensures
        crate::error::outcome(r) == btree_entries(
            file_data@,
            btree_addr as int,
            offset_size,
            length_size,
        ),
{
    let header = BTreeV2Header::parse(file_data, btree_addr, offset_size, length_size)?;
    let records = collect_btree_v2_records(file_data, &header, offset_size, length_size)?;
    let ghost all = records.deep_view();
    let ghost goal = btree_entries(file_data@, btree_addr as int, offset_size, length_size);
    let mut entries: Vec<SohmEntry> = Vec::with_capacity(records.len());
    let mut k: usize = 0;
    assert(entries.deep_view() =~= Seq::<SohmEntryModel>::empty());
    while k < records.len()
        invariant
            k <= records@.len(),
            all == records.deep_view(),
            goal == btree_entries(file_data@, btree_addr as int, offset_size, length_size),
            goal == record_entries(all, all.len() as int, offset_size),
            record_entries(all, k as int, offset_size) == Ok::<Seq<SohmEntryModel>, ErrorModel>(
                entries.deep_view(),
            ),
        decreases records@.len() - k,
    {
        assert(all[k as int] == records@[k as int].data@);
        let entry = match parse_sohm_entry(records[k].data.as_slice(), offset_size) {
            Ok(entry) => entry,
            Err(e) => {
                proof {
                    lemma_record_error(all, k + 1, all.len() as int, offset_size);
                }
                return Err(e);
            },
        };
        let ghost before = entries.deep_view();
        let ghost added = entry.deep_view();
        entries.push(entry);
        assert(entries.deep_view() =~= before.push(added));
        k += 1;
    }
    Ok(entries)
}

// ---- SOHM resolution ----

/// Bit `k` of `n`.
pub open spec fn bit(n: nat, k: nat) -> bool
    decreases k,
{
    if k == 0 {
        n % 2 == 1
    } else {
        bit(n / 2, (k - 1) as nat)
    }
}

fn has_bit(n: u16, k: u16) -> (r: bool)
    ensures
        r == bit(n as nat, k as nat),
{
    let mut m: u16 = n;
    let mut j: u16 = k;
    while j > 0
        invariant
            bit(m as nat, j as nat) == bit(n as nat, k as nat),
        decreases j,
    {
        m = m / 2;
        j -= 1;
    }
    m % 2 == 1
}

/// The first index at or behind the `from`-th that stores messages of the given type.
pub open spec fn index_for(indexes: Seq<SohmIndex>, t: MessageType, from: int) -> Option<SohmIndex>
    decreases indexes.len() - from,
{
    if from >= indexes.len() {
        None
    } else if bit(
        indexes[from].mesg_types as nat,
        crate::message_type::id_of_type(t) as nat,
    ) {
        Some(indexes[from])
    } else {
        index_for(indexes, t, from + 1)
    }
}

/// Find the SOHM index that handles the given message type.
pub fn find_index_for_msg_type(table: &SohmTable, msg_type: MessageType) -> (r: Option<&SohmIndex>)
    requires
        crate::message_type::id_of_type(msg_type) < 16,
    ensures
        match r {
            Some(index) => index_for(table.deep_view(), msg_type, 0) == Some(*index),
            None => index_for(table.deep_view(), msg_type, 0) is None,
        },
{
    let id: u16 = msg_type.to_u16();
    let mut k: usize = 0;
    while k < table.indexes.len()
        invariant
            k <= table.indexes@.len(),
            id == crate::message_type::id_of_type(msg_type),
            index_for(table.indexes@, msg_type, 0) == index_for(
                table.indexes@,
                msg_type,
                k as int,
            ),
        decreases table.indexes@.len() - k,
    {
        if has_bit(table.indexes[k].mesg_types, id) {
            return Some(&table.indexes[k]);
        }
        k += 1;
    }
    None
}

/// The message with the given heap ID in the heap of the index for its type.
pub open spec fn sohm_message(
    d: Seq<u8>,
    id: Seq<u8>,
    indexes: Seq<SohmIndex>,
    t: MessageType,
    os: u8,
    ls: u8,
) -> Result<Seq<u8>, ErrorModel> {
    match index_for(indexes, t, 0) {
        None => Err(ErrorModel::Plain(FormatError::InvalidSharedMessageVersion(2))),
        Some(index) => if crate::utils::undefined_offset(index.heap_addr, os) {
            Err(ErrorModel::Plain(FormatError::InvalidSharedMessageVersion(2)))
        } else {
            match crate::fractal_heap::header_at(d, (index.heap_addr as usize) as int, os, ls) {
                Err(e) => Err(e),
                Ok(heap) => heap.object(d, id, os),
            }
        },
    }
}

/// Resolve a type 2 (SOHM) shared message reference.
///
/// Uses the heap ID from the shared ref to read the message data from
/// the fractal heap associated with the matching SOHM index.
pub fn resolve_sohm_message(
    file_data: &[u8],
    heap_id: &[u8; 8],
    sohm_table: &SohmTable,
    target_msg_type: MessageType,
    offset_size: u8,
    length_size: u8,
) -> (r: Result<Vec<u8>, FormatError>)
    requires
        crate::message_type::id_of_type(target_msg_type) < 16,
    ensures
        crate::error::outcome(r) == sohm_message(
            file_data@,
            heap_id@,
            sohm_table.deep_view(),
            target_msg_type,
            offset_size,
            length_size,
        ),
{
    let index = match find_index_for_msg_type(sohm_table, target_msg_type) {
        Some(index) => index,
        None => return Err(FormatError::InvalidSharedMessageVersion(2)),
    };
    if is_undefined_offset(index.heap_addr, offset_size) {
        return Err(FormatError::InvalidSharedMessageVersion(2));
    }
    let fh_header = FractalHeapHeader::parse(
        file_data,
        index.heap_addr as usize,
        offset_size,
        length_size,
    )?;
    fh_header.read_managed_object(file_data, heap_id.as_slice(), offset_size)
}

/// Which message of an object header is wanted.
#[derive(Clone, Copy, PartialEq, Eq, Structural)]
pub enum Wanted {
    /// One of the type, which is not itself shared.
    Own(MessageType),
    /// One of the type.
    OfType(MessageType),
    /// Any but a nil message.
    Any,
}

/// Whether a message is wanted.
pub open spec fn is_wanted(m: HeaderMessageModel, w: Wanted) -> bool {
    match w {
        Wanted::Own(t) => m.msg_type == t && !shared(m.flags),
        Wanted::OfType(t) => m.msg_type == t,
        Wanted::Any => m.msg_type != MessageType::Nil,
    }
}

/// The data of the first message, from the `from`-th on, that is wanted.
pub open spec fn first_wanted(ms: Seq<HeaderMessageModel>, w: Wanted, from: int) -> Option<Seq<u8>>
    decreases ms.len() - from,
{
    if from >= ms.len() {
        None
    } else if is_wanted(ms[from], w) {
        Some(ms[from].data)
    } else {
        first_wanted(ms, w, from + 1)
    }
}

/// The data of the message that a reference to an object header stands for: the first one of the
/// type that is not shared itself, else the first one of the type, else the first one that is not
/// nil.
pub open spec fn referenced(ms: Seq<HeaderMessageModel>, t: MessageType) -> Option<Seq<u8>> {
    match first_wanted(ms, Wanted::Own(t), 0) {
        Some(data) => Some(data),
        None => match first_wanted(ms, Wanted::OfType(t), 0) {
            Some(data) => Some(data),
            None => first_wanted(ms, Wanted::Any, 0),
        },
    }
}

fn find_wanted(messages: &Vec<HeaderMessage>, w: Wanted) -> (r: Option<Vec<u8>>)
    ensures
        match r {
            Some(data) => first_wanted(messages.deep_view(), w, 0) == Some(data@),
            None => first_wanted(messages.deep_view(), w, 0) is None,
        },
{
    let ghost all = messages.deep_view();
    let mut k: usize = 0;
    while k < messages.len()
        invariant
            k <= messages@.len(),
            all == messages.deep_view(),
            first_wanted(all, w, 0) == first_wanted(all, w, k as int),
        decreases messages@.len() - k,
    {
        let m = &messages[k];
        assert(all[k as int] == m.deep_view());
        let wanted = match w {
            Wanted::Own(t) => m.msg_type == t && !is_shared(m.flags),
            Wanted::OfType(t) => m.msg_type == t,
            Wanted::Any => m.msg_type != MessageType::Nil,
        };
        if wanted {
            return Some(slice_to_vec(m.data.as_slice()));
        }
        k += 1;
    }
    None
}

/// The data of the message that a reference stands for.
pub open spec fn resolved(
    d: Seq<u8>,
    reference: SharedRefModel,
    t: MessageType,
    os: u8,
    ls: u8,
    table: Option<Seq<SohmIndex>>,
) -> Result<Seq<u8>, ErrorModel> {
    let missing = ErrorModel::Plain(FormatError::UnexpectedEof { expected: 1, available: 0 });
    if reference.ref_type == 1 || reference.ref_type == 3 {
        match reference.object_header_address {
            None => Err(missing),
            Some(a) => match crate::object_header::header_at(d, (a as usize) as int, os, ls) {
                Err(e) => Err(e),
                Ok(header) => match referenced(header.messages, t) {
                    Some(data) => Ok(data),
                    None => Err(missing),
                },
            },
        }
    } else if reference.ref_type == 2 {
        if reference.heap_id is None || table is None {
            Err(ErrorModel::Plain(FormatError::InvalidSharedMessageVersion(2)))
        } else {
            sohm_message(d, reference.heap_id->0, table->0, t, os, ls)
        }
    } else {
        Err(ErrorModel::Plain(FormatError::InvalidSharedMessageVersion(reference.ref_type)))
    }
}

/// The first message that is wanted is the one that is found.
proof fn lemma_first_wanted(ms: Seq<HeaderMessageModel>, w: Wanted, from: int, i: int)
    requires
        0 <= from <= i < ms.len(),
        is_wanted(ms[i], w),
        forall|j: int| from <= j < i ==> !is_wanted(#[trigger] ms[j], w),
    ensures
        first_wanted(ms, w, from) == Some(ms[i].data),
    decreases i - from,
{
    if from < i {
        assert(!is_wanted(ms[from], w));
        lemma_first_wanted(ms, w, from + 1, i);
    }
}

/// A reference to an object header stands for the first message of the wanted type in it that is
/// not itself shared, where there is one.
pub proof fn law_own_message_is_picked(
    d: Seq<u8>,
    reference: SharedRefModel,
    t: MessageType,
    os: u8,
    ls: u8,
    table: Option<Seq<SohmIndex>>,
    i: int,
)
    requires
        reference.ref_type == 1 || reference.ref_type == 3,
        reference.object_header_address matches Some(a) && crate::object_header::header_at(
            d,
            (a as usize) as int,
            os,
            ls,
        ) matches Ok(h) && 0 <= i < h.messages.len() && h.messages[i].msg_type == t && !shared(
            h.messages[i].flags,
        ) && forall|j: int|
            0 <= j < i ==> (#[trigger] h.messages[j]).msg_type != t || shared(h.messages[j].flags),
    ensures
        reference.object_header_address matches Some(a) && crate::object_header::header_at(
            d,
            (a as usize) as int,
            os,
            ls,
        ) matches Ok(h) && resolved(d, reference, t, os, ls, table) == Ok::<Seq<u8>, ErrorModel>(
            h.messages[i].data,
        ),
{
    let a = reference.object_header_address->0;
    let h = crate::object_header::header_at(d, (a as usize) as int, os, ls)->Ok_0;
    lemma_first_wanted(h.messages, Wanted::Own(t), 0, i);
}

/// A reference into the table of shared messages cannot be resolved without its heap ID or without
/// the table, and a reference of an unknown type cannot be resolved at all.
pub proof fn law_unresolvable_references(
    d: Seq<u8>,
    reference: SharedRefModel,
    t: MessageType,
    os: u8,
    ls: u8,
    table: Option<Seq<SohmIndex>>,
)
    ensures
        reference.ref_type == 2 && (reference.heap_id is None || table is None) ==> resolved(
            d,
            reference,
            t,
            os,
            ls,
            table,
        ) == Err::<Seq<u8>, ErrorModel>(
            ErrorModel::Plain(FormatError::InvalidSharedMessageVersion(2)),
        ),
        reference.ref_type == 0 || reference.ref_type > 3 ==> resolved(
            d,
            reference,
            t,
            os,
            ls,
            table,
        ) == Err::<Seq<u8>, ErrorModel>(
            ErrorModel::Plain(FormatError::InvalidSharedMessageVersion(reference.ref_type)),
        ),
{
}

/// Resolve a shared message to its actual message data.
///
/// For type 1/3 (shared in another object header), reads the target object header
/// and finds the message of the specified type.
/// For type 2 (SOHM), uses the fractal heap from the SOHM table.
pub fn resolve_shared_message(
    file_data: &[u8],
    shared_ref: &SharedMessageRef,
    target_msg_type: MessageType,
    offset_size: u8,
    length_size: u8,
) -> (r: Result<Vec<u8>, FormatError>)
    ensures
        crate::error::outcome(r) == resolved(
            file_data@,
            shared_ref.deep_view(),
            target_msg_type,
            offset_size,
            length_size,
            None,
        ),
{
    resolve_shared_message_with_sohm(
        file_data,
        shared_ref,
        target_msg_type,
        offset_size,
        length_size,
        None,
    )
}

/// Resolve a shared message, optionally using a SOHM table for type 2 refs.
pub fn resolve_shared_message_with_sohm(
    file_data: &[u8],
    shared_ref: &SharedMessageRef,
    target_msg_type: MessageType,
    offset_size: u8,
    length_size: u8,
    sohm_table: Option<&SohmTable>,
) -> (r: Result<Vec<u8>, FormatError>)
    requires
        shared_ref.ref_type == 2 && shared_ref.heap_id is Some && sohm_table is Some
            ==> crate::message_type::id_of_type(target_msg_type) < 16,
    ensures
        crate::error::outcome(r) == resolved(
            file_data@,
            shared_ref.deep_view(),
            target_msg_type,
            offset_size,
            length_size,
            match sohm_table {
                Some(table) => Some(table.deep_view()),
                None => None,
            },
        ),
{
    match shared_ref.ref_type {
        1 | 3 => {
            let addr = match shared_ref.object_header_address {
                Some(addr) => addr,
                None => return Err(FormatError::UnexpectedEof { expected: 1, available: 0 }),
            };
            let header = ObjectHeader::parse(file_data, addr as usize, offset_size, length_size)?;
            let found = match find_wanted(&header.messages, Wanted::Own(target_msg_type)) {
                Some(data) => Some(data),
                None => match find_wanted(&header.messages, Wanted::OfType(target_msg_type)) {
                    Some(data) => Some(data),
                    // Fall back to first non-nil message
                    None => find_wanted(&header.messages, Wanted::Any),
                },
            };
            match found {
                Some(data) => {
                    assert(data.deep_view() =~= data@);
                    Ok(data)
                },
                None => Err(FormatError::UnexpectedEof { expected: 1, available: 0 }),
            }
        },
        2 => match (&shared_ref.heap_id, sohm_table) {
            (Some(heap_id), Some(table)) => resolve_sohm_message(
                file_data,
                heap_id,
                table,
                target_msg_type,
                offset_size,
                length_size,
            ),
            _ => Err(FormatError::InvalidSharedMessageVersion(2)),
        },
        other => Err(FormatError::InvalidSharedMessageVersion(other)),
    }
}

} // verus!
