//! V1 group traversal: resolve group children and navigate paths.

use vstd::prelude::*;
use crate::btree_v1::collect_symbol_table_nodes;
use crate::error::{ErrorModel, FormatError};
use crate::local_heap::LocalHeap;
use crate::message_type::MessageType;
use crate::object_header::{HeaderMessage, HeaderMessageModel, ObjectHeader};
use crate::symbol_table::{EntryModel, SymbolTableEntry, SymbolTableMessage, SymbolTableNode};
use crate::text::{same_text, split_path};

verus! {

broadcast use vstd::std_specs::control_flow::group_control_flow_axioms;

/// A resolved group entry (child name + object header address).
#[derive(Debug, Clone)]
pub struct GroupEntry {
    /// Name of the child object.
    pub name: String,
    /// Address of the child's object header.
    pub object_header_address: u64,
    /// Cache type from the symbol table entry.
    pub cache_type: u32,
}

/// The content of a [`GroupEntry`].
pub struct GroupEntryModel {
    pub name: Seq<char>,
    pub object_header_address: u64,
    pub cache_type: u32,
}

impl DeepView for GroupEntry {
    type V = GroupEntryModel;

    open spec fn deep_view(&self) -> GroupEntryModel {
        GroupEntryModel {
            name: self.name@,
            object_header_address: self.object_header_address,
            cache_type: self.cache_type,
        }
    }
}

// ---- The children of a group ----

/// What is found of the children of a group.
pub type Entries = Result<Seq<GroupEntryModel>, ErrorModel>;

/// `done` and the first `n` entries of a symbol table node, with their names from the heap.
pub open spec fn named_entries(
    d: Seq<u8>,
    heap: LocalHeap,
    entries: Seq<EntryModel>,
    n: int,
    done: Seq<GroupEntryModel>,
) -> Entries
    decreases n,
{
    if n <= 0 {
        Ok(done)
    } else {
        match named_entries(d, heap, entries, n - 1, done) {
            Err(e) => Err(e),
            Ok(before) => match heap.text_at(d, entries[n - 1].link_name_offset) {
                Err(e) => Err(e),
                Ok(name) => Ok(
                    before.push(
                        GroupEntryModel {
                            name,
                            object_header_address: entries[n - 1].object_header_address,
                            cache_type: entries[n - 1].cache_type,
                        },
                    ),
                ),
            },
        }
    }
}

/// The entries of the first `n` symbol table nodes.
pub open spec fn entries_in(d: Seq<u8>, heap: LocalHeap, nodes: Seq<u64>, n: int, os: u8) -> Entries
    decreases n,
{
    if n <= 0 {
        Ok(Seq::empty())
    } else {
        match entries_in(d, heap, nodes, n - 1, os) {
            Err(e) => Err(e),
            Ok(done) => match crate::symbol_table::entries_of(
                d,
                (nodes[n - 1] as usize) as int,
                os,
            ) {
                Err(e) => Err(e),
                Ok(entries) => named_entries(d, heap, entries, entries.len() as int, done),
            },
        }
    }
}

/// The children of the group with the given symbol table.
pub open spec fn group_entries(d: Seq<u8>, table: SymbolTableMessage, os: u8, ls: u8) -> Entries {
    match crate::local_heap::heap_at(d, (table.local_heap_address as usize) as int, os, ls) {
        Err(e) => Err(e),
        Ok(heap) => match crate::btree_v1::symbol_table_nodes(
            d,
            (table.btree_address as usize) as int,
            os,
        ) {
            Err(e) => Err(e),
            Ok(nodes) => entries_in(d, heap, nodes, nodes.len() as int, os),
        },
    }
}

/// An error of one entry is the error of all.
proof fn lemma_name_error(
    d: Seq<u8>,
    heap: LocalHeap,
    entries: Seq<EntryModel>,
    k: int,
    n: int,
    done: Seq<GroupEntryModel>,
)
    requires
        0 <= k <= n,
        named_entries(d, heap, entries, k, done) is Err,
    ensures
        named_entries(d, heap, entries, n, done) == named_entries(d, heap, entries, k, done),
    decreases n - k,
{
    if k < n {
        lemma_name_error(d, heap, entries, k, n - 1, done);
    }
}

/// An error of one node is the error of all.
proof fn lemma_node_error(d: Seq<u8>, heap: LocalHeap, nodes: Seq<u64>, k: int, n: int, os: u8)
    requires
        0 <= k <= n,
        entries_in(d, heap, nodes, k, os) is Err,
    ensures
        entries_in(d, heap, nodes, n, os) == entries_in(d, heap, nodes, k, os),
    decreases n - k,
{
    if k < n {
        lemma_node_error(d, heap, nodes, k, n - 1, os);
    }
}

/// Appends the entries of a symbol table node.
fn put_named_entries(
    file_data: &[u8],
    heap: &LocalHeap,
    list: &Vec<SymbolTableEntry>,
    out: &mut Vec<GroupEntry>,
) -> (r: Result<(), FormatError>)
    ensures
        ({
            let found = named_entries(
                file_data@,
                *heap,
                list.deep_view(),
                list@.len() as int,
                old(out).deep_view(),
            );
            match r {
                Ok(_) => found == Ok::<Seq<GroupEntryModel>, ErrorModel>(final(out).deep_view()),
                Err(e) => found == Err::<Seq<GroupEntryModel>, ErrorModel>(e.deep_view()),
            }
        }),
{
    let ghost all = list.deep_view();
    let ghost start = out.deep_view();
    let mut k: usize = 0;
    while k < list.len()
        invariant
            k <= list@.len(),
            all == list.deep_view(),
            start == old(out).deep_view(),
            named_entries(file_data@, *heap, all, k as int, start) == Ok::<
                Seq<GroupEntryModel>,
                ErrorModel,
            >(out.deep_view()),
        decreases list@.len() - k,
    {
        assert(all[k as int] == list@[k as int].deep_view());
        let name = match heap.read_string(file_data, list[k].link_name_offset) {
            Ok(name) => name,
            Err(e) => {
                proof {
                    lemma_name_error(file_data@, *heap, all, k + 1, all.len() as int, start);
                }
                return Err(e);
            },
        };
        let entry = GroupEntry {
            name,
            object_header_address: list[k].object_header_address,
            cache_type: list[k].cache_type,
        };
        let ghost before = out.deep_view();
        let ghost added = entry.deep_view();
        out.push(entry);
        assert(out.deep_view() =~= before.push(added));
        k += 1;
    }
    Ok(())
}

/// Given a SymbolTableMessage, resolve all group children.
pub fn resolve_v1_group_entries(
    file_data: &[u8],
    sym_table_msg: &SymbolTableMessage,
    offset_size: u8,
    length_size: u8,
) -> (r: Result<Vec<GroupEntry>, FormatError>)
    ensures
        crate::error::outcome(r) == group_entries(
            file_data@,
            *sym_table_msg,
            offset_size,
            length_size,
        ),
{
    // Parse local heap
    let heap = LocalHeap::parse(
        file_data,
        sym_table_msg.local_heap_address as usize,
        offset_size,
        length_size,
    )?;
    // Collect all SNOD addresses from B-tree
    let nodes = collect_symbol_table_nodes(
        file_data,
        sym_table_msg.btree_address,
        offset_size,
        length_size,
    )?;
    assert(nodes.deep_view() =~= nodes@);
    let ghost goal = group_entries(file_data@, *sym_table_msg, offset_size, length_size);
    let mut entries: Vec<GroupEntry> = Vec::new();
    let mut k: usize = 0;
    assert(entries.deep_view() =~= Seq::<GroupEntryModel>::empty());
    while k < nodes.len()
        invariant
            k <= nodes@.len(),
            goal == group_entries(file_data@, *sym_table_msg, offset_size, length_size),
            goal == entries_in(file_data@, heap, nodes@, nodes@.len() as int, offset_size),
            entries_in(file_data@, heap, nodes@, k as int, offset_size) == Ok::<
                Seq<GroupEntryModel>,
                ErrorModel,
            >(entries.deep_view()),
        decreases nodes@.len() - k,
    {
        let node = match SymbolTableNode::parse(file_data, nodes[k] as usize, offset_size) {
            Ok(node) => node,
            Err(e) => {
                proof {
                    lemma_node_error(
                        file_data@,
                        heap,
                        nodes@,
                        k + 1,
                        nodes@.len() as int,
                        offset_size,
                    );
                }
                return Err(e);
            },
        };
        match put_named_entries(file_data, &heap, &node.entries, &mut entries) {
            Ok(_) => {},
            Err(e) => {
                proof {
                    lemma_node_error(
                        file_data@,
                        heap,
                        nodes@,
                        k + 1,
                        nodes@.len() as int,
                        offset_size,
                    );
                }
                return Err(e);
            },
        }
        k += 1;
    }
    Ok(entries)
}

// ---- Paths ----

/// The first entry at or behind the `from`-th with the given name.
pub open spec fn entry_named(entries: Seq<GroupEntryModel>, name: Seq<char>, from: int) -> Option<
    GroupEntryModel,
>
    decreases entries.len() - from,
{
    if from >= entries.len() {
        None
    } else if entries[from].name == name {
        Some(entries[from])
    } else {
        entry_named(entries, name, from + 1)
    }
}

/// The address of the first entry with the given name.
pub(crate) fn find_entry(entries: &Vec<GroupEntry>, name: &str) -> (r: Option<u64>)
    ensures
        match r {
            Some(address) => entry_named(entries.deep_view(), name@, 0) matches Some(entry)
                && entry.object_header_address == address,
            None => entry_named(entries.deep_view(), name@, 0) is None,
        },
{
    let ghost all = entries.deep_view();
    let mut k: usize = 0;
    while k < entries.len()
        invariant
            k <= entries@.len(),
            all == entries.deep_view(),
            entry_named(all, name@, 0) == entry_named(all, name@, k as int),
        decreases entries@.len() - k,
    {
        assert(all[k as int] == entries@[k as int].deep_view());
        if same_text(entries[k].name.as_str(), name) {
            return Some(entries[k].object_header_address);
        }
        k += 1;
    }
    None
}

/// The data of the first message of the given type at or behind the `from`-th.
pub open spec fn message_of(ms: Seq<HeaderMessageModel>, t: MessageType, from: int) -> Option<
    Seq<u8>,
>
    decreases ms.len() - from,
{
    if from >= ms.len() {
        None
    } else if ms[from].msg_type == t {
        Some(ms[from].data)
    } else {
        message_of(ms, t, from + 1)
    }
}

/// The first message of the given type.
pub(crate) fn find_message(messages: &Vec<HeaderMessage>, t: MessageType) -> (r: Option<
    &HeaderMessage,
>)
    ensures
        match r {
            Some(m) => message_of(messages.deep_view(), t, 0) == Some(m.data@),
            None => message_of(messages.deep_view(), t, 0) is None,
        },
{
    let ghost all = messages.deep_view();
    let mut k: usize = 0;
    while k < messages.len()
        invariant
            k <= messages@.len(),
            all == messages.deep_view(),
            message_of(all, t, 0) == message_of(all, t, k as int),
        decreases messages@.len() - k,
    {
        assert(all[k as int] == messages@[k as int].deep_view());
        if messages[k].msg_type == t {
            return Some(&messages[k]);
        }
        k += 1;
    }
    None
}

/// The symbol table that the messages of an object header name.
pub open spec fn table_in(ms: Seq<HeaderMessageModel>, os: u8) -> Result<
    SymbolTableMessage,
    ErrorModel,
> {
    match message_of(ms, MessageType::SymbolTable, 0) {
        Some(data) => crate::symbol_table::symbol_table_of(data, os),
        None => Err(ErrorModel::PathNotFound("no symbol table message found in object header"@)),
    }
}

/// Extract the SymbolTableMessage from an object header's messages.
fn find_symbol_table_message(obj_header: &ObjectHeader, offset_size: u8) -> (r: Result<
    SymbolTableMessage,
    FormatError,
>)
    ensures
        crate::error::outcome(r) == table_in(obj_header.deep_view().messages, offset_size),
{
    match find_message(&obj_header.messages, MessageType::SymbolTable) {
        Some(m) => SymbolTableMessage::parse(m.data.as_slice(), offset_size),
        None => Err(
            FormatError::PathNotFound(
                "no symbol table message found in object header".to_owned(),
            ),
        ),
    }
}

/// Where the names from the `k`-th on lead from the group with the given symbol table.
pub open spec fn walk(
    d: Seq<u8>,
    table: SymbolTableMessage,
    names: Seq<Seq<char>>,
    k: int,
    os: u8,
    ls: u8,
) -> Result<u64, ErrorModel>
    decreases names.len() - k,
{
    match group_entries(d, table, os, ls) {
        Err(e) => Err(e),
        Ok(entries) => match entry_named(entries, names[k], 0) {
            None => Err(ErrorModel::PathNotFound(names[k])),
            Some(entry) => if k >= names.len() - 1 {
                Ok(entry.object_header_address)
            } else {
                match crate::object_header::header_at(
                    d,
                    (entry.object_header_address as usize) as int,
                    os,
                    ls,
                ) {
                    Err(e) => Err(e),
                    Ok(header) => match table_in(header.messages, os) {
                        Err(e) => Err(e),
                        Ok(next) => walk(d, next, names, k + 1, os, ls),
                    },
                }
            },
        },
    }
}

/// Where a path leads from the root group.
pub open spec fn path_target(
    d: Seq<u8>,
    root: SymbolTableMessage,
    path: Seq<char>,
    os: u8,
    ls: u8,
) -> Result<u64, ErrorModel> {
    if crate::text::parts(path).len() == 0 {
        Err(ErrorModel::PathNotFound(path))
    } else {
        walk(d, root, crate::text::parts(path), 0, os, ls)
    }
}

/// Navigate a path like "group1/subgroup/dataset" from a root group.
/// Returns the object header address of the target.
pub fn resolve_path(
    file_data: &[u8],
    root_sym_table: &SymbolTableMessage,
    path: &str,
    offset_size: u8,
    length_size: u8,
) -> (r: Result<u64, FormatError>)
    ensures
        crate::error::outcome(r) == path_target(
            file_data@,
            *root_sym_table,
            path@,
            offset_size,
            length_size,
        ),
{
    let components = split_path(path);
    let ghost names = components.deep_view();
    if components.len() == 0 {
        return Err(FormatError::PathNotFound(path.to_owned()));
    }
    let ghost goal = path_target(file_data@, *root_sym_table, path@, offset_size, length_size);
    let last: usize = components.len() - 1;
    let mut table = *root_sym_table;
    let mut i: usize = 0;
    while i < last
        invariant
            i <= last,
            names == components.deep_view(),
            names.len() == components@.len(),
            last == components@.len() - 1,
            goal == path_target(file_data@, *root_sym_table, path@, offset_size, length_size),
            goal == walk(file_data@, table, names, i as int, offset_size, length_size),
        decreases last - i,
    {
        assert(names[i as int] == components@[i as int]@);
        let entries = resolve_v1_group_entries(file_data, &table, offset_size, length_size)?;
        let address = match find_entry(&entries, components[i].as_str()) {
            Some(address) => address,
            None => return Err(FormatError::PathNotFound(components[i].clone())),
        };
        // Not last: must be a group, parse its object header to get symbol table
        let header = ObjectHeader::parse(
            file_data,
            address as usize,
            offset_size,
            length_size,
        )?;
        table = find_symbol_table_message(&header, offset_size)?;
        i += 1;
    }
    assert(names[last as int] == components@[last as int]@);
    let entries = resolve_v1_group_entries(file_data, &table, offset_size, length_size)?;
    match find_entry(&entries, components[last].as_str()) {
        Some(address) => Ok(address),
        None => Err(FormatError::PathNotFound(components[last].clone())),
    }
}

} // verus!
