//! What is written in the tree, the heap and the symbol tables of a group is read from them.

use vstd::prelude::*;
use crate::btree_v1::{self, NodeModel};
use crate::bytes;
use crate::error::ErrorModel;
use crate::group_v1::{self, GroupEntryModel};
use crate::local_heap::{self, LocalHeap};
use crate::places;
use crate::symbol_table::{self, EntryModel, SymbolTableMessage};
use crate::traversal::{Tree, Visit};

verus! {

// ---- Nodes of the tree ----

/// A node: its tag, type and level, the number of children, the addresses of its siblings, and
/// then, in turn, a key and a child, with a key behind the last child.
pub open spec fn node_bytes(
    kind: u8,
    level: u8,
    left: Option<u64>,
    right: Option<u64>,
    n: int,
    numbers: Seq<u64>,
    os: u8,
) -> Seq<u8> {
    crate::chunk_tree::tree_tag() + (seq![kind, level] + (places::field(n, 2) + (places::address(
        left,
        os,
    ) + (places::address(right, os) + crate::chunk_tree::offsets_bytes(numbers, 0, os)))))
}

/// Every second number from the first on.
pub open spec fn keys_in(numbers: Seq<u64>, n: int) -> Seq<u64> {
    Seq::new((n + 1) as nat, |i: int| numbers[2 * i])
}

/// Every second number from the second on.
pub open spec fn children_in(numbers: Seq<u64>, n: int) -> Seq<u64> {
    Seq::new(n as nat, |i: int| numbers[2 * i + 1])
}

/// Whether the numbers have a place in the fields of a node.
pub open spec fn are_fields(numbers: Seq<u64>, os: u8) -> bool {
    forall|i: int| 0 <= i < numbers.len() ==> #[trigger] numbers[i] < bytes::pow256(os as nat)
}

/// A node is read as what was written in it.
#[verifier::rlimit(30)]
pub proof fn law_node_is_read_back(
    d: Seq<u8>,
    p: int,
    kind: u8,
    level: u8,
    left: Option<u64>,
    right: Option<u64>,
    n: int,
    numbers: Seq<u64>,
    os: u8,
)
    requires
        crate::utils::is_width(os),
        0 <= n <= 0xFFFF,
        numbers.len() == 2 * n + 1,
        are_fields(numbers, os),
        places::is_address(left, os),
        places::is_address(right, os),
        places::stands(d, p, node_bytes(kind, level, left, right, n, numbers, os)),
    ensures
        btree_v1::node_at(d, p, os) == Ok::<NodeModel, ErrorModel>(
            NodeModel {
                node_type: kind,
                node_level: level,
                entries_used: n as u16,
                left_sibling: left,
                right_sibling: right,
                keys: keys_in(numbers, n),
                children: children_in(numbers, n),
            },
        ),
        p < d.len(),
{
    let tag = crate::chunk_tree::tree_tag();
    let front = seq![kind, level];
    let count = places::field(n, 2);
    let l = places::address(left, os);
    let r = places::address(right, os);
    let all = crate::chunk_tree::offsets_bytes(numbers, 0, os);
    places::lemma_field_len(n, 2);
    places::lemma_parts(d, p, tag, front + (count + (l + (r + all))));
    places::lemma_tag(d, p, tag);
    places::lemma_parts(d, p + 4, front, count + (l + (r + all)));
    places::lemma_byte(d, p + 4, front, 0);
    places::lemma_byte(d, p + 4, front, 1);
    places::lemma_parts(d, p + 6, count, l + (r + all));
    places::lemma_u16(d, p + 6, n);
    places::lemma_parts(d, p + 8, l, r + all);
    places::lemma_address(d, p + 8, left, os);
    places::lemma_parts(d, p + 8 + os, r, all);
    places::lemma_address(d, p + 8 + os, right, os);
    let q = p + 8 + 2 * os;
    crate::chunk_tree::lemma_offsets_len(numbers, 0, os);
    assert((2 * n + 1) * os == n * (2 * os) + os) by (nonlinear_arith);
    let keys = Seq::new((n + 1) as nat, |i: int| btree_v1::key_at(d, q, i, os));
    assert forall|i: int| 0 <= i < n + 1 implies keys[i] == keys_in(numbers, n)[i] by {
        assert(numbers[2 * i] < bytes::pow256(os as nat));
        crate::chunk_tree::lemma_offset(d, q, numbers, 0, 2 * i, os);
        assert((2 * i) * os == i * (2 * os)) by (nonlinear_arith);
    }
    assert(keys =~= keys_in(numbers, n));
    let children = Seq::new(n as nat, |i: int| btree_v1::child_at(d, q, i, os));
    assert forall|i: int| 0 <= i < n implies children[i] == children_in(numbers, n)[i] by {
        assert(numbers[2 * i + 1] < bytes::pow256(os as nat));
        crate::chunk_tree::lemma_offset(d, q, numbers, 0, 2 * i + 1, os);
        assert((2 * i + 1) * os == i * (2 * os) + os) by (nonlinear_arith);
    }
    assert(children =~= children_in(numbers, n));
}

// ---- The tree ----

/// Whether a node of a group stands at `p`, with the given level and children.
pub open spec fn node_stands(d: Seq<u8>, p: int, level: u8, children: Seq<u64>, os: u8) -> bool {
    exists|left: Option<u64>, right: Option<u64>, numbers: Seq<u64>|
        {
            &&& #[trigger] places::stands(
                d,
                p,
                node_bytes(0, level, left, right, children.len() as int, numbers, os),
            )
            &&& places::is_address(left, os)
            &&& places::is_address(right, os)
            &&& are_fields(numbers, os)
            &&& numbers.len() == 2 * children.len() + 1
            &&& children_in(numbers, children.len() as int) == children
            &&& children.len() <= 0xFFFF
        }
}

/// Whether a tree whose leaves hold the given addresses stands at `p`, with its subtrees where its
/// nodes say.
pub open spec fn tree_stands(d: Seq<u8>, p: int, t: Tree<u64>, os: u8) -> bool
    decreases t,
{
    match t {
        Tree::Leaf(addresses) => node_stands(d, p, 0, addresses, os),
        Tree::Inner(below, children) => {
            &&& below.len() == children.len()
            &&& exists|level: u8|
                level > 0 && #[trigger] node_stands(
                    d,
                    p,
                    level,
                    crate::chunk_tree::addresses_of(below),
                    os,
                )
            &&& forall|i: int|
                0 <= i < children.len() ==> tree_stands(d, below[i], #[trigger] children[i], os)
        },
    }
}

proof fn lemma_visit(d: Seq<u8>, p: int, level: u8, children: Seq<u64>, os: u8)
    requires
        node_stands(d, p, level, children, os),
        crate::utils::is_width(os),
    ensures
        0 <= p < d.len(),
        level == 0 ==> btree_v1::visit_at(d, p, os) == Visit::Leaf(
            Ok::<Seq<u64>, ErrorModel>(children),
        ),
        level > 0 ==> btree_v1::visit_at(d, p, os) == Visit::<u64>::Inner(
            crate::traversal::positions(children),
        ),
{
    let n = children.len() as int;
    let (left, right, numbers) = choose|left: Option<u64>, right: Option<u64>, numbers: Seq<u64>|
        {
            &&& #[trigger] places::stands(
                d,
                p,
                node_bytes(0, level, left, right, children.len() as int, numbers, os),
            )
            &&& places::is_address(left, os)
            &&& places::is_address(right, os)
            &&& are_fields(numbers, os)
            &&& numbers.len() == 2 * children.len() + 1
            &&& children_in(numbers, children.len() as int) == children
            &&& children.len() <= 0xFFFF
        };
    law_node_is_read_back(d, p, 0, level, left, right, n, numbers, os);
}

proof fn lemma_tree_shown(d: Seq<u8>, p: int, t: Tree<u64>, os: u8)
    requires
        tree_stands(d, p, t, os),
        crate::utils::is_width(os),
        d.len() <= usize::MAX,
    ensures
        crate::traversal::shows(btree_v1::visits(d, os), p, t),
        0 <= p < d.len(),
    decreases t,
{
    let visit = btree_v1::visits(d, os);
    assert(visit(p) == btree_v1::visit_at(d, p, os));
    match t {
        Tree::Leaf(addresses) => {
            lemma_visit(d, p, 0, addresses, os);
        },
        Tree::Inner(below, children) => {
            let addresses = crate::chunk_tree::addresses_of(below);
            let level = choose|level: u8|
                level > 0 && #[trigger] node_stands(d, p, level, addresses, os);
            lemma_visit(d, p, level, addresses, os);
            let found = crate::traversal::positions(addresses);
            assert forall|i: int|
                0 <= i < children.len() implies 0 <= below[i] < d.len()
                && crate::traversal::shows(visit, below[i], #[trigger] children[i]) by {
                lemma_tree_shown(d, below[i], children[i], os);
            }
            assert forall|i: int| 0 <= i < below.len() implies found[i] == below[i] by {
                assert(crate::traversal::shows(visit, below[i], children[i]));
            }
            assert(found =~= below);
        },
    }
}

/// The symbol tables of a group are those that the leaves of its tree name, from left to right,
/// whatever the height of the tree and whatever its keys.
#[verifier::rlimit(30)]
pub proof fn law_group_tree_is_read_back(d: Seq<u8>, p: int, t: Tree<u64>, os: u8)
    requires
        tree_stands(d, p, t, os),
        crate::utils::is_width(os),
        d.len() <= usize::MAX,
    ensures
        btree_v1::symbol_table_nodes(d, p, os) == Ok::<Seq<u64>, ErrorModel>(
            crate::traversal::leaves(t),
        ),
{
    let visit = btree_v1::visits(d, os);
    lemma_tree_shown(d, p, t, os);
    assert forall|q: int| #[trigger] visit(q) is Inner implies 0 <= q < d.len() by {
        assert(visit(q) == btree_v1::visit_at(d, q, os));
    }
    assert forall|q: int|
        #[trigger] visit(q) != Visit::Leaf(
            Err::<Seq<u64>, ErrorModel>(crate::traversal::too_deep()),
        ) by {
        assert(visit(q) == btree_v1::visit_at(d, q, os));
    }
    crate::traversal::law_traversal_finds_all_leaves(visit, d.len(), p, t);
}

// ---- The heap ----

/// The header of a heap: its tag, version 0, three reserved bytes, the size of the segment, the
/// first free place, the address of the segment.
pub open spec fn heap_bytes(heap: LocalHeap, reserved: Seq<u8>, os: u8, ls: u8) -> Seq<u8> {
    seq![0x48u8, 0x45, 0x41, 0x50] + (seq![0u8] + (reserved + (places::field(
        heap.data_segment_size as int,
        ls as int,
    ) + (places::field(heap.free_list_head_offset as int, ls as int) + places::field(
        heap.data_segment_address as int,
        os as int,
    )))))
}

/// A heap is read as what was written in its header.
#[verifier::rlimit(30)]
pub proof fn law_heap_is_read_back(
    d: Seq<u8>,
    p: int,
    heap: LocalHeap,
    reserved: Seq<u8>,
    os: u8,
    ls: u8,
)
    requires
        crate::utils::is_width(os),
        crate::utils::is_width(ls),
        reserved.len() == 3,
        heap.data_segment_size < bytes::pow256(ls as nat),
        heap.free_list_head_offset < bytes::pow256(ls as nat),
        heap.data_segment_address < bytes::pow256(os as nat),
        places::stands(d, p, heap_bytes(heap, reserved, os, ls)),
    ensures
        local_heap::heap_at(d, p, os, ls) == Ok::<LocalHeap, ErrorModel>(heap),
{
    let tag = seq![0x48u8, 0x45, 0x41, 0x50];
    let a = places::field(heap.data_segment_size as int, ls as int);
    let b = places::field(heap.free_list_head_offset as int, ls as int);
    let c = places::field(heap.data_segment_address as int, os as int);
    places::lemma_field_len(heap.data_segment_size as int, ls as int);
    places::lemma_field_len(heap.free_list_head_offset as int, ls as int);
    places::lemma_field_len(heap.data_segment_address as int, os as int);
    places::lemma_parts(d, p, tag, seq![0u8] + (reserved + (a + (b + c))));
    places::lemma_tag(d, p, tag);
    places::lemma_parts(d, p + 4, seq![0u8], reserved + (a + (b + c)));
    places::lemma_byte(d, p + 4, seq![0u8], 0);
    places::lemma_parts(d, p + 5, reserved, a + (b + c));
    places::lemma_parts(d, p + 8, a, b + c);
    places::lemma_parts(d, p + 8 + ls, b, c);
    places::lemma_word(d, p + 8, heap.data_segment_size as int, ls);
    places::lemma_word(d, p + 8 + ls, heap.free_list_head_offset as int, ls);
    places::lemma_word(d, p + 8 + 2 * ls, heap.data_segment_address as int, os);
}

/// Whether a name stands in the segment of a heap at the given offset, with a zero byte behind it.
pub open spec fn name_stands(d: Seq<u8>, heap: LocalHeap, offset: u64, name: Seq<char>) -> bool {
    let text = vstd::utf8::encode_utf8(name);
    &&& crate::datatype::is_name(name)
    &&& offset + text.len() < heap.data_segment_size
    &&& heap.data_segment_address + heap.data_segment_size <= d.len() <= usize::MAX
    &&& places::stands(d, heap.data_segment_address + offset, text + seq![0u8])
}

/// A name that stands in the segment of a heap is read from it.
#[verifier::rlimit(30)]
pub proof fn law_name_is_read_from_the_heap(
    d: Seq<u8>,
    heap: LocalHeap,
    offset: u64,
    name: Seq<char>,
)
    requires
        name_stands(d, heap, offset, name),
    ensures
        heap.text_at(d, offset) == Ok::<Seq<char>, ErrorModel>(name),
{
    let text = vstd::utf8::encode_utf8(name);
    let t = text + seq![0u8];
    let n = text.len() as int;
    let from = heap.data_segment_address + offset;
    let limit = heap.end();
    let seg = d.subrange(0, limit);
    crate::text::lemma_no_zero_byte(name);
    vstd::utf8::encode_utf8_valid_utf8(name);
    vstd::utf8::encode_utf8_decode_utf8(name);
    assert forall|k: int| from <= k < from + n implies seg[k] != 0 by {
        places::lemma_byte(d, from, t, k - from);
        assert(t[k - from] == text[k - from]);
    }
    places::lemma_byte(d, from, t, n);
    assert(seg[from + n] == 0);
    crate::text::lemma_zero_from_is(seg, from, from + n);
    let read = d.subrange(from, from + n);
    assert forall|i: int| 0 <= i < n implies read[i] == text[i] by {
        places::lemma_byte(d, from, t, i);
        assert(t[i] == text[i]);
    }
    assert(read =~= text);
}

// ---- Symbol tables ----

/// A symbol table message: the address of the tree, and that of the heap.
pub open spec fn table_bytes(table: SymbolTableMessage, os: u8) -> Seq<u8> {
    places::field(table.btree_address as int, os as int) + places::field(
        table.local_heap_address as int,
        os as int,
    )
}

/// A symbol table message is read as what was written in it, whatever stands behind it.
#[verifier::rlimit(30)]
pub proof fn law_symbol_table_message_is_read_back(
    table: SymbolTableMessage,
    rest: Seq<u8>,
    os: u8,
)
    requires
        crate::utils::is_width(os),
        table.btree_address < bytes::pow256(os as nat),
        table.local_heap_address < bytes::pow256(os as nat),
    ensures
        symbol_table::symbol_table_of(table_bytes(table, os) + rest, os) == Ok::<
            SymbolTableMessage,
            ErrorModel,
        >(table),
{
    let d = table_bytes(table, os) + rest;
    let a = places::field(table.btree_address as int, os as int);
    let b = places::field(table.local_heap_address as int, os as int);
    places::lemma_field_len(table.btree_address as int, os as int);
    places::lemma_whole(d);
    places::lemma_parts(d, 0, a + b, rest);
    places::lemma_parts(d, 0, a, b);
    places::lemma_word(d, 0, table.btree_address as int, os);
    places::lemma_word(d, os as int, table.local_heap_address as int, os);
}

/// An entry: the place of its name, the address of its object, the kind of what is cached, four
/// reserved bytes, what is cached.
pub open spec fn entry_bytes(e: EntryModel, reserved: Seq<u8>, os: u8) -> Seq<u8> {
    places::field(e.link_name_offset as int, os as int) + (places::field(
        e.object_header_address as int,
        os as int,
    ) + (places::field(e.cache_type as int, 4) + (reserved + e.scratch_pad)))
}

/// Whether an entry has a place in a node.
pub open spec fn is_entry(e: EntryModel, os: u8) -> bool {
    &&& e.link_name_offset < bytes::pow256(os as nat)
    &&& e.object_header_address < bytes::pow256(os as nat)
    &&& e.scratch_pad.len() == 16
}

/// The entries from the `k`-th on.
pub open spec fn entries_bytes(es: Seq<EntryModel>, reserved: Seq<u8>, k: int, os: u8) -> Seq<u8>
    decreases es.len() - k,
{
    if 0 <= k < es.len() {
        entry_bytes(es[k], reserved, os) + entries_bytes(es, reserved, k + 1, os)
    } else {
        Seq::empty()
    }
}

/// A node of a symbol table: its tag, version 1, a reserved byte, the number of entries, the
/// entries.
pub open spec fn table_node_bytes(es: Seq<EntryModel>, pad: u8, reserved: Seq<u8>, os: u8) -> Seq<u8> {
    seq![0x53u8, 0x4E, 0x4F, 0x44] + (seq![1u8, pad] + (places::field(es.len() as int, 2)
        + entries_bytes(es, reserved, 0, os)))
}

proof fn lemma_entry_len(e: EntryModel, reserved: Seq<u8>, os: u8)
    requires
        is_entry(e, os),
        reserved.len() == 4,
    ensures
        entry_bytes(e, reserved, os).len() == symbol_table::entry_size(os),
{
    places::lemma_field_len(e.link_name_offset as int, os as int);
    places::lemma_field_len(e.object_header_address as int, os as int);
    places::lemma_field_len(e.cache_type as int, 4);
}

proof fn lemma_entry(d: Seq<u8>, q: int, e: EntryModel, reserved: Seq<u8>, os: u8)
    requires
        crate::utils::is_width(os),
        is_entry(e, os),
        reserved.len() == 4,
        places::stands(d, q, entry_bytes(e, reserved, os)),
    ensures
        symbol_table::entry_at(d, q, os) == e,
{
    let a = places::field(e.link_name_offset as int, os as int);
    let b = places::field(e.object_header_address as int, os as int);
    let c = places::field(e.cache_type as int, 4);
    places::lemma_field_len(e.link_name_offset as int, os as int);
    places::lemma_field_len(e.object_header_address as int, os as int);
    places::lemma_field_len(e.cache_type as int, 4);
    places::lemma_parts(d, q, a, b + (c + (reserved + e.scratch_pad)));
    places::lemma_parts(d, q + os, b, c + (reserved + e.scratch_pad));
    places::lemma_parts(d, q + os + os, c, reserved + e.scratch_pad);
    places::lemma_parts(d, q + os + os + 4, reserved, e.scratch_pad);
    places::lemma_word(d, q, e.link_name_offset as int, os);
    places::lemma_word(d, q + os, e.object_header_address as int, os);
    places::lemma_u32(d, q + 2 * os, e.cache_type as int);
}

proof fn lemma_entries(
    d: Seq<u8>,
    q: int,
    es: Seq<EntryModel>,
    reserved: Seq<u8>,
    k: int,
    os: u8,
)
    requires
        crate::utils::is_width(os),
        reserved.len() == 4,
        forall|i: int| 0 <= i < es.len() ==> is_entry(#[trigger] es[i], os),
        0 <= k <= es.len(),
        places::stands(d, q, entries_bytes(es, reserved, k, os)),
    ensures
        q + (es.len() - k) * symbol_table::entry_size(os) <= d.len(),
        forall|i: int|
            k <= i < es.len() ==> symbol_table::entry_at(
                d,
                q + (i - k) * symbol_table::entry_size(os),
                os,
            ) == #[trigger] es[i],
    decreases es.len() - k,
{
    let size = symbol_table::entry_size(os);
    if k < es.len() {
        let b = entry_bytes(es[k], reserved, os);
        lemma_entry_len(es[k], reserved, os);
        places::lemma_parts(d, q, b, entries_bytes(es, reserved, k + 1, os));
        lemma_entry(d, q, es[k], reserved, os);
        lemma_entries(d, q + size, es, reserved, k + 1, os);
        assert((es.len() - k) * size == size + (es.len() - (k + 1)) * size) by (nonlinear_arith);
        assert forall|i: int| k <= i < es.len() implies symbol_table::entry_at(
            d,
            q + (i - k) * size,
            os,
        ) == #[trigger] es[i] by {
            if i == k {
                assert((i - k) * size == 0) by (nonlinear_arith)
                    requires
                        i == k,
                ;
            } else {
                assert((i - k) * size == size + (i - (k + 1)) * size) by (nonlinear_arith);
            }
        }
    } else {
        assert((es.len() - k) * size == 0) by (nonlinear_arith)
            requires
                es.len() == k,
        ;
    }
}

/// A node of a symbol table is read as the entries that were written in it.
#[verifier::rlimit(30)]
pub proof fn law_symbol_table_node_is_read_back(
    d: Seq<u8>,
    p: int,
    es: Seq<EntryModel>,
    pad: u8,
    reserved: Seq<u8>,
    os: u8,
)
    requires
        crate::utils::is_width(os),
        reserved.len() == 4,
        es.len() <= 0xFFFF,
        forall|i: int| 0 <= i < es.len() ==> is_entry(#[trigger] es[i], os),
        places::stands(d, p, table_node_bytes(es, pad, reserved, os)),
    ensures
        symbol_table::entries_of(d, p, os) == Ok::<Seq<EntryModel>, ErrorModel>(es),
{
    let tag = seq![0x53u8, 0x4E, 0x4F, 0x44];
    let front = seq![1u8, pad];
    let count = places::field(es.len() as int, 2);
    let all = entries_bytes(es, reserved, 0, os);
    places::lemma_field_len(es.len() as int, 2);
    places::lemma_parts(d, p, tag, front + (count + all));
    places::lemma_tag(d, p, tag);
    places::lemma_parts(d, p + 4, front, count + all);
    places::lemma_byte(d, p + 4, front, 0);
    places::lemma_parts(d, p + 6, count, all);
    places::lemma_u16(d, p + 6, es.len() as int);
    lemma_entries(d, p + 8, es, reserved, 0, os);
    let read = symbol_table::entries_of(d, p, os)->Ok_0;
    assert forall|i: int| 0 <= i < es.len() implies read[i] == es[i] by {
        assert(symbol_table::entry_at(
            d,
            p + 8 + (i - 0) * symbol_table::entry_size(os),
            os,
        ) == es[i]);
    }
    assert(read =~= es);
}

// ---- Groups ----

/// A child of a group as it stands in a symbol table, with its name from the heap.
pub struct Child {
    pub name: Seq<char>,
    pub entry: EntryModel,
}

impl Child {
    /// The child that is read.
    pub open spec fn model(self) -> GroupEntryModel {
        GroupEntryModel {
            name: self.name,
            object_header_address: self.entry.object_header_address,
            cache_type: self.entry.cache_type,
        }
    }
}

pub open spec fn models(children: Seq<Child>) -> Seq<GroupEntryModel> {
    Seq::new(children.len(), |i: int| children[i].model())
}

pub open spec fn entries_in(children: Seq<Child>) -> Seq<EntryModel> {
    Seq::new(children.len(), |i: int| children[i].entry)
}

/// Whether the children stand in a symbol table node at the given address, and their names in the
/// heap.
pub open spec fn children_stand(
    d: Seq<u8>,
    heap: LocalHeap,
    address: u64,
    children: Seq<Child>,
    os: u8,
) -> bool {
    &&& children.len() <= 0xFFFF
    &&& address <= usize::MAX
    &&& exists|pad: u8, reserved: Seq<u8>|
        reserved.len() == 4 && #[trigger] places::stands(
            d,
            address as int,
            table_node_bytes(entries_in(children), pad, reserved, os),
        )
    &&& forall|i: int|
        0 <= i < children.len() ==> is_entry((#[trigger] children[i]).entry, os) && name_stands(
            d,
            heap,
            children[i].entry.link_name_offset,
            children[i].name,
        )
}

proof fn lemma_children(d: Seq<u8>, heap: LocalHeap, address: u64, children: Seq<Child>, os: u8)
    requires
        crate::utils::is_width(os),
        children_stand(d, heap, address, children, os),
    ensures
        symbol_table::entries_of(d, (address as usize) as int, os) == Ok::<
            Seq<EntryModel>,
            ErrorModel,
        >(entries_in(children)),
{
    let es = entries_in(children);
    let (pad, reserved) = choose|pad: u8, reserved: Seq<u8>|
        reserved.len() == 4 && #[trigger] places::stands(
            d,
            address as int,
            table_node_bytes(es, pad, reserved, os),
        );
    assert forall|i: int| 0 <= i < es.len() implies is_entry(#[trigger] es[i], os) by {
        assert(is_entry(children[i].entry, os));
    }
    law_symbol_table_node_is_read_back(d, address as int, es, pad, reserved, os);
}

proof fn lemma_named(
    d: Seq<u8>,
    heap: LocalHeap,
    children: Seq<Child>,
    n: int,
    done: Seq<GroupEntryModel>,
)
    requires
        0 <= n <= children.len(),
        forall|i: int|
            0 <= i < children.len() ==> name_stands(
                d,
                heap,
                (#[trigger] children[i]).entry.link_name_offset,
                children[i].name,
            ),
    ensures
        group_v1::named_entries(d, heap, entries_in(children), n, done) == Ok::<
            Seq<GroupEntryModel>,
            ErrorModel,
        >(done + models(children).take(n)),
    decreases n,
{
    let all = models(children);
    if n > 0 {
        lemma_named(d, heap, children, n - 1, done);
        let c = children[n - 1];
        law_name_is_read_from_the_heap(d, heap, c.entry.link_name_offset, c.name);
        assert((done + all.take(n - 1)).push(c.model()) =~= done + all.take(n));
    } else {
        assert(done + all.take(0) =~= done);
    }
}

/// The children of the first `n` symbol table nodes.
pub open spec fn all_models(nodes: Seq<Seq<Child>>, n: int) -> Seq<GroupEntryModel>
    decreases n,
{
    if n <= 0 {
        Seq::empty()
    } else {
        all_models(nodes, n - 1) + models(nodes[n - 1])
    }
}

proof fn lemma_nodes(
    d: Seq<u8>,
    heap: LocalHeap,
    addresses: Seq<u64>,
    nodes: Seq<Seq<Child>>,
    n: int,
    os: u8,
)
    requires
        crate::utils::is_width(os),
        addresses.len() == nodes.len(),
        0 <= n <= nodes.len(),
        forall|i: int|
            0 <= i < nodes.len() ==> children_stand(
                d,
                heap,
                addresses[i],
                #[trigger] nodes[i],
                os,
            ),
    ensures
        group_v1::entries_in(d, heap, addresses, n, os) == Ok::<
            Seq<GroupEntryModel>,
            ErrorModel,
        >(all_models(nodes, n)),
    decreases n,
{
    if n > 0 {
        lemma_nodes(d, heap, addresses, nodes, n - 1, os);
        let children = nodes[n - 1];
        assert(children_stand(d, heap, addresses[n - 1], children, os));
        lemma_children(d, heap, addresses[n - 1], children, os);
        lemma_named(d, heap, children, children.len() as int, all_models(nodes, n - 1));
        assert(models(children).take(children.len() as int) =~= models(children));
    }
}

/// The children of a group are those of all symbol table nodes in its tree, in their order, each
/// with its name from the heap and the address of its object.
#[verifier::rlimit(30)]
pub proof fn law_group_is_read_back(
    d: Seq<u8>,
    table: SymbolTableMessage,
    heap: LocalHeap,
    reserved: Seq<u8>,
    t: Tree<u64>,
    nodes: Seq<Seq<Child>>,
    os: u8,
    ls: u8,
)
    requires
        crate::utils::is_width(os),
        crate::utils::is_width(ls),
        d.len() <= usize::MAX,
        reserved.len() == 3,
        heap.data_segment_size < bytes::pow256(ls as nat),
        heap.free_list_head_offset < bytes::pow256(ls as nat),
        heap.data_segment_address < bytes::pow256(os as nat),
        places::stands(d, table.local_heap_address as int, heap_bytes(heap, reserved, os, ls)),
        tree_stands(d, table.btree_address as int, t, os),
        nodes.len() == crate::traversal::leaves(t).len(),
        forall|i: int|
            0 <= i < nodes.len() ==> children_stand(
                d,
                heap,
                crate::traversal::leaves(t)[i],
                #[trigger] nodes[i],
                os,
            ),
    ensures
        group_v1::group_entries(d, table, os, ls) == Ok::<Seq<GroupEntryModel>, ErrorModel>(
            all_models(nodes, nodes.len() as int),
        ),
{
    lemma_tree_shown(d, table.btree_address as int, t, os);
    law_heap_is_read_back(d, table.local_heap_address as int, heap, reserved, os, ls);
    law_group_tree_is_read_back(d, table.btree_address as int, t, os);
    lemma_nodes(d, heap, crate::traversal::leaves(t), nodes, nodes.len() as int, os);
}

} // verus!
