//! V2 group traversal: resolve group children and navigate paths.
//!
//! Handles both compact storage (Link messages in object header) and
//! dense storage (fractal heap + B-tree v2).

use vstd::prelude::*;
use vstd::slice::slice_subrange;
use crate::btree_v2::{collect_btree_v2_records, BTreeV2Header, BTreeV2Record};
use crate::error::{ErrorModel, FormatError};
use crate::fractal_heap::FractalHeapHeader;
use crate::group_v1::{
    find_entry,
    find_message,
    resolve_v1_group_entries,
    Entries,
    GroupEntry,
    GroupEntryModel,
};
use crate::link_info::LinkInfoMessage;
use crate::link_message::{LinkMessage, LinkModel, LinkTarget, LinkTargetModel};
use crate::message_type::MessageType;
use crate::object_header::{HeaderMessageModel, ObjectHeader};
use crate::superblock::Superblock;
use crate::symbol_table::SymbolTableMessage;
use crate::text::split_path;

verus! {

broadcast use vstd::std_specs::control_flow::group_control_flow_axioms;

/// `done` and the child that a link names, if it is a hard link.
pub open spec fn with_link(done: Seq<GroupEntryModel>, link: LinkModel) -> Seq<GroupEntryModel> {
    match link.link_target {
        LinkTargetModel::Hard { object_header_address } => done.push(
            GroupEntryModel { name: link.name, object_header_address, cache_type: 0 },
        ),
        _ => done,
    }
}

fn put_link(entries: &mut Vec<GroupEntry>, link: LinkMessage)
    ensures
        final(entries).deep_view() == with_link(old(entries).deep_view(), link.deep_view()),
{
    match link.link_target {
        LinkTarget::Hard { object_header_address } => {
            let entry = GroupEntry { name: link.name, object_header_address, cache_type: 0 };
            let ghost added = entry.deep_view();
            entries.push(entry);
            assert(entries.deep_view() =~= old(entries).deep_view().push(added));
        },
        // Skip soft and external links for path resolution
        _ => {},
    }
}

// ---- Compact storage ----

/// The children that the first `n` messages name.
pub open spec fn compact_entries(ms: Seq<HeaderMessageModel>, n: int, os: u8) -> Entries
    decreases n,
{
    if n <= 0 {
        Ok(Seq::empty())
    } else {
        match compact_entries(ms, n - 1, os) {
            Err(e) => Err(e),
            Ok(done) => if ms[n - 1].msg_type != MessageType::Link {
                Ok(done)
            } else {
                match crate::link_message::link_of(ms[n - 1].data, os) {
                    Err(e) => Err(e),
                    Ok(link) => Ok(with_link(done, link)),
                }
            },
        }
    }
}

/// An error of one message is the error of all.
proof fn lemma_compact_error(ms: Seq<HeaderMessageModel>, k: int, n: int, os: u8)
    requires
        0 <= k <= n,
        compact_entries(ms, k, os) is Err,
    ensures
        compact_entries(ms, n, os) == compact_entries(ms, k, os),
    decreases n - k,
{
    if k < n {
        lemma_compact_error(ms, k, n - 1, os);
    }
}

/// Extract link entries from Link messages directly in the object header (compact storage).
fn resolve_compact_entries(object_header: &ObjectHeader, offset_size: u8) -> (r: Result<
    Vec<GroupEntry>,
    FormatError,
>)
    ensures
        ({
            let ms = object_header.deep_view().messages;
            crate::error::outcome(r) == compact_entries(ms, ms.len() as int, offset_size)
        }),
{
    let messages = &object_header.messages;
    let ghost ms = messages.deep_view();
    let mut entries: Vec<GroupEntry> = Vec::new();
    let mut k: usize = 0;
    assert(entries.deep_view() =~= Seq::<GroupEntryModel>::empty());
    while k < messages.len()
        invariant
            k <= messages@.len(),
            ms == messages.deep_view(),
            ms == object_header.deep_view().messages,
            compact_entries(ms, k as int, offset_size) == Ok::<Seq<GroupEntryModel>, ErrorModel>(
                entries.deep_view(),
            ),
        decreases messages@.len() - k,
    {
        assert(ms[k as int] == messages@[k as int].deep_view());
        if messages[k].msg_type == MessageType::Link {
            match LinkMessage::parse(messages[k].data.as_slice(), offset_size) {
                Ok(link) => put_link(&mut entries, link),
                Err(e) => {
                    proof {
                        lemma_compact_error(ms, k + 1, ms.len() as int, offset_size);
                    }
                    return Err(e);
                },
            }
        }
        k += 1;
    }
    Ok(entries)
}

// ---- Dense storage ----

/// Where the heap ID stands in a record: behind the hash of the name, or behind the creation order.
pub open spec fn id_position(tree_type: u8) -> int {
    if tree_type == 5 {
        4
    } else {
        8
    }
}

/// The children that the first `n` records name.
pub open spec fn dense_entries(
    d: Seq<u8>,
    heap: FractalHeapHeader,
    tree_type: u8,
    records: Seq<Seq<u8>>,
    n: int,
    os: u8,
) -> Entries
    decreases n,
{
    let p = id_position(tree_type);
    if n <= 0 {
        Ok(Seq::empty())
    } else {
        match dense_entries(d, heap, tree_type, records, n - 1, os) {
            Err(e) => Err(e),
            Ok(done) => if records[n - 1].len() < p + heap.heap_id_length {
                Ok(done)
            } else {
                match heap.object(d, records[n - 1].subrange(p, p + heap.heap_id_length), os) {
                    Err(e) => Err(e),
                    Ok(data) => match crate::link_message::link_of(data, os) {
                        Err(e) => Err(e),
                        Ok(link) => Ok(with_link(done, link)),
                    },
                }
            },
        }
    }
}

/// An error of one record is the error of all.
proof fn lemma_dense_error(
    d: Seq<u8>,
    heap: FractalHeapHeader,
    tree_type: u8,
    records: Seq<Seq<u8>>,
    k: int,
    n: int,
    os: u8,
)
    requires
        0 <= k <= n,
        dense_entries(d, heap, tree_type, records, k, os) is Err,
    ensures
        dense_entries(d, heap, tree_type, records, n, os) == dense_entries(
            d,
            heap,
            tree_type,
            records,
            k,
            os,
        ),
    decreases n - k,
{
    if k < n {
        lemma_dense_error(d, heap, tree_type, records, k, n - 1, os);
    }
}

/// The children of a group in dense storage.
pub open spec fn dense_group(
    d: Seq<u8>,
    heap_address: u64,
    index_address: Option<u64>,
    os: u8,
    ls: u8,
) -> Entries {
    match crate::fractal_heap::header_at(d, (heap_address as usize) as int, os, ls) {
        Err(e) => Err(e),
        Ok(heap) => match index_address {
            None => Err(ErrorModel::PathNotFound("no B-tree v2 name index"@)),
            Some(a) => match crate::btree_v2::header_at(d, (a as usize) as int, os, ls) {
                Err(e) => Err(e),
                Ok(h) => match crate::btree_v2::all_records(d, h, os) {
                    Err(e) => Err(e),
                    Ok(records) => dense_entries(
                        d,
                        heap,
                        h.tree_type,
                        records,
                        records.len() as int,
                        os,
                    ),
                },
            },
        },
    }
}

/// The children that the records of a B-tree name.
fn resolve_records(
    file_data: &[u8],
    fh: &FractalHeapHeader,
    tree_type: u8,
    records: &Vec<BTreeV2Record>,
    offset_size: u8,
) -> (r: Result<Vec<GroupEntry>, FormatError>)
    ensures
        crate::error::outcome(r) == dense_entries(
            file_data@,
            *fh,
            tree_type,
            records.deep_view(),
            records@.len() as int,
            offset_size,
        ),
{
    let ghost all = records.deep_view();
    let ghost n = all.len() as int;
    // For type 5 (name index): hash(4) + heap_id(heap_id_length)
    // For type 6 (creation order): creation_order(8) + heap_id(heap_id_length)
    let id_offset: usize = if tree_type == 5 {
        4
    } else {
        8
    };
    let id_end: usize = id_offset + fh.heap_id_length as usize;
    let mut entries: Vec<GroupEntry> = Vec::new();
    let mut k: usize = 0;
    assert(entries.deep_view() =~= Seq::<GroupEntryModel>::empty());
    while k < records.len()
        invariant
            k <= records@.len(),
            all == records.deep_view(),
            n == all.len(),
            id_offset == id_position(tree_type),
            id_end == id_offset + fh.heap_id_length,
            dense_entries(file_data@, *fh, tree_type, all, k as int, offset_size) == Ok::<
                Seq<GroupEntryModel>,
                ErrorModel,
            >(entries.deep_view()),
        decreases records@.len() - k,
    {
        let data = &records[k].data;
        assert(all[k as int] == data@);
        if data.len() >= id_end {
            let id_bytes = slice_subrange(data.as_slice(), id_offset, id_end);
            // Read managed object from fractal heap
            let link_data = match fh.read_managed_object(file_data, id_bytes, offset_size) {
                Ok(object) => object,
                Err(e) => {
                    proof {
                        lemma_dense_error(file_data@, *fh, tree_type, all, k + 1, n, offset_size);
                    }
                    return Err(e);
                },
            };
            assert(link_data.deep_view() =~= link_data@);
            // Parse as Link message
            match LinkMessage::parse(link_data.as_slice(), offset_size) {
                Ok(link) => put_link(&mut entries, link),
                Err(e) => {
                    proof {
                        lemma_dense_error(file_data@, *fh, tree_type, all, k + 1, n, offset_size);
                    }
                    return Err(e);
                },
            }
        }
        k += 1;
    }
    Ok(entries)
}

/// Resolve entries from dense storage (fractal heap + B-tree v2).
fn resolve_dense_entries(
    file_data: &[u8],
    link_info: &LinkInfoMessage,
    fh_addr: u64,
    offset_size: u8,
    length_size: u8,
) -> (r: Result<Vec<GroupEntry>, FormatError>)
    ensures
        crate::error::outcome(r) == dense_group(
            file_data@,
            fh_addr,
            link_info.btree_name_index_address,
            offset_size,
            length_size,
        ),
{
    // Parse fractal heap
    let fh = FractalHeapHeader::parse(file_data, fh_addr as usize, offset_size, length_size)?;
    // Parse B-tree v2 for name index
    let btree_addr = match link_info.btree_name_index_address {
        Some(address) => address,
        None => return Err(FormatError::PathNotFound("no B-tree v2 name index".to_owned())),
    };
    let btree_hdr = BTreeV2Header::parse(
        file_data,
        btree_addr as usize,
        offset_size,
        length_size,
    )?;
    let records = collect_btree_v2_records(file_data, &btree_hdr, offset_size, length_size)?;
    resolve_records(file_data, &fh, btree_hdr.tree_type, &records, offset_size)
}

// ---- Groups ----

/// What the first Link Info message says. Without one, storage is compact.
pub open spec fn link_info_in(ms: Seq<HeaderMessageModel>, os: u8) -> Result<
    LinkInfoMessage,
    ErrorModel,
> {
    match crate::group_v1::message_of(ms, MessageType::LinkInfo, 0) {
        Some(data) => crate::link_info::info_of(data, os),
        None => Ok(
            LinkInfoMessage {
                max_creation_order: None,
                fractal_heap_address: None,
                btree_name_index_address: None,
                btree_creation_order_address: None,
            },
        ),
    }
}

/// The children of the group whose object header has the given messages.
pub open spec fn group_entries(d: Seq<u8>, ms: Seq<HeaderMessageModel>, os: u8, ls: u8) -> Entries {
    match link_info_in(ms, os) {
        Err(e) => Err(e),
        Ok(info) => match info.fractal_heap_address {
            Some(a) => dense_group(d, a, info.btree_name_index_address, os, ls),
            None => compact_entries(ms, ms.len() as int, os),
        },
    }
}

/// Find and parse the Link Info message from an object header.
fn find_link_info(object_header: &ObjectHeader, offset_size: u8) -> (r: Result<
    LinkInfoMessage,
    FormatError,
>)
    ensures
        crate::error::outcome(r) == link_info_in(object_header.deep_view().messages, offset_size),
{
    match find_message(&object_header.messages, MessageType::LinkInfo) {
        Some(m) => LinkInfoMessage::parse(m.data.as_slice(), offset_size),
        // No Link Info message: there may be direct Link messages
        None => Ok(
            LinkInfoMessage {
                max_creation_order: None,
                fractal_heap_address: None,
                btree_name_index_address: None,
                btree_creation_order_address: None,
            },
        ),
    }
}

/// Resolve v2 group entries from an object header.
///
/// Handles both compact (Link messages) and dense (fractal heap + B-tree v2) storage.
pub fn resolve_v2_group_entries(
    file_data: &[u8],
    object_header: &ObjectHeader,
    offset_size: u8,
    length_size: u8,
) -> (r: Result<Vec<GroupEntry>, FormatError>)
    ensures
        crate::error::outcome(r) == group_entries(
            file_data@,
            object_header.deep_view().messages,
            offset_size,
            length_size,
        ),
{
    // Look for Link Info message to determine storage type
    let link_info = find_link_info(object_header, offset_size)?;
    match link_info.fractal_heap_address {
        // Dense storage
        Some(fh_addr) => resolve_dense_entries(
            file_data,
            &link_info,
            fh_addr,
            offset_size,
            length_size,
        ),
        // Compact storage: links are stored directly as Link messages
        None => resolve_compact_entries(object_header, offset_size),
    }
}

/// The children of a group of either version.
pub open spec fn any_entries(d: Seq<u8>, ms: Seq<HeaderMessageModel>, os: u8, ls: u8) -> Entries {
    match crate::group_v1::message_of(ms, MessageType::SymbolTable, 0) {
        Some(data) => match crate::symbol_table::symbol_table_of(data, os) {
            Err(e) => Err(e),
            Ok(table) => crate::group_v1::group_entries(d, table, os, ls),
        },
        None => if crate::group_v1::message_of(ms, MessageType::LinkInfo, 0) is Some
            || crate::group_v1::message_of(ms, MessageType::Link, 0) is Some {
            group_entries(d, ms, os, ls)
        } else {
            Err(ErrorModel::PathNotFound("object header is not a group"@))
        },
    }
}

/// Resolve group entries from an object header, auto-detecting v1 vs v2.
fn resolve_group_entries(
    file_data: &[u8],
    object_header: &ObjectHeader,
    offset_size: u8,
    length_size: u8,
) -> (r: Result<Vec<GroupEntry>, FormatError>)
    ensures
        crate::error::outcome(r) == any_entries(
            file_data@,
            object_header.deep_view().messages,
            offset_size,
            length_size,
        ),
{
    match find_message(&object_header.messages, MessageType::SymbolTable) {
        Some(m) => {
            let table = SymbolTableMessage::parse(m.data.as_slice(), offset_size)?;
            resolve_v1_group_entries(file_data, &table, offset_size, length_size)
        },
        None => {
            let linked = find_message(&object_header.messages, MessageType::LinkInfo).is_some()
                || find_message(&object_header.messages, MessageType::Link).is_some();
            if linked {
                resolve_v2_group_entries(file_data, object_header, offset_size, length_size)
            } else {
                Err(FormatError::PathNotFound("object header is not a group".to_owned()))
            }
        },
    }
}

// ---- Paths ----

/// Where the names from the `k`-th on lead from the group whose object header has the given
/// messages.
pub open spec fn walk(
    d: Seq<u8>,
    ms: Seq<HeaderMessageModel>,
    names: Seq<Seq<char>>,
    k: int,
    os: u8,
    ls: u8,
) -> Result<u64, ErrorModel>
    decreases names.len() - k,
{
    match any_entries(d, ms, os, ls) {
        Err(e) => Err(e),
        Ok(entries) => match crate::group_v1::entry_named(entries, names[k], 0) {
            None => Err(ErrorModel::PathNotFound(names[k])),
            Some(entry) => if k >= names.len() - 1 {
                Ok(entry.object_header_address)
            } else {
                match crate::object_header::header_at(
                    d,
                    (entry.object_header_address as usize) as int,
                    os,
                    ls,
                ) {
                    Err(e) => Err(e),
                    Ok(header) => walk(d, header.messages, names, k + 1, os, ls),
                }
            },
        },
    }
}

/// Where a path leads from the root group of the file. The empty path leads to the root group.
pub open spec fn path_target(d: Seq<u8>, sb: Superblock, path: Seq<char>) -> Result<
    u64,
    ErrorModel,
> {
    if crate::text::parts(path).len() == 0 {
        Ok(sb.root_group_address)
    } else {
        match crate::object_header::header_at(
            d,
            (sb.root_group_address as usize) as int,
            sb.offset_size,
            sb.length_size,
        ) {
            Err(e) => Err(e),
            Ok(header) => walk(
                d,
                header.messages,
                crate::text::parts(path),
                0,
                sb.offset_size,
                sb.length_size,
            ),
        }
    }
}

/// Unified path resolution that works for both v1 and v2 groups.
///
/// Detects group version from object header messages and dispatches accordingly.
pub fn resolve_path_any(file_data: &[u8], superblock: &Superblock, path: &str) -> (r: Result<
    u64,
    FormatError,
>)
    ensures
        crate::error::outcome(r) == path_target(file_data@, *superblock, path@),
{
    let components = split_path(path);
    let ghost names = components.deep_view();
    if components.len() == 0 {
        return Ok(superblock.root_group_address);
    }
    let os = superblock.offset_size;
    let ls = superblock.length_size;
    let ghost goal = path_target(file_data@, *superblock, path@);
    let mut header = ObjectHeader::parse(
        file_data,
        superblock.root_group_address as usize,
        os,
        ls,
    )?;
    let last: usize = components.len() - 1;
    let mut i: usize = 0;
    while i < last
        invariant
            i <= last,
            names == components.deep_view(),
            names.len() == components@.len(),
            last == components@.len() - 1,
            goal == path_target(file_data@, *superblock, path@),
            goal == walk(file_data@, header.deep_view().messages, names, i as int, os, ls),
        decreases last - i,
    {
        assert(names[i as int] == components@[i as int]@);
        let entries = resolve_group_entries(file_data, &header, os, ls)?;
        let address = match find_entry(&entries, components[i].as_str()) {
            Some(address) => address,
            None => return Err(FormatError::PathNotFound(components[i].clone())),
        };
        header = ObjectHeader::parse(file_data, address as usize, os, ls)?;
        i += 1;
    }
    assert(names[last as int] == components@[last as int]@);
    let entries = resolve_group_entries(file_data, &header, os, ls)?;
    match find_entry(&entries, components[last].as_str()) {
        Some(address) => Ok(address),
        None => Err(FormatError::PathNotFound(components[last].clone())),
    }
}

} // verus!
