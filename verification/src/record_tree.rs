//! What is written in a B-tree of records is read from it.

use vstd::prelude::*;
use crate::btree_v2::{self, BTreeV2Header, InternalNode};
use crate::bytes;
use crate::error::ErrorModel;
use crate::header_chunks;
use crate::places;
use crate::stored_elements;

verus! {

// ---- Header ----

/// The header of a tree: tag, version 0, type, node size, record size, depth, the percentages at
/// which nodes are split and merged, the address of the root, the number of its records, the number
/// of all records, the checksum.
pub open spec fn header_bytes(h: BTreeV2Header, percentages: Seq<u8>, os: u8, ls: u8) -> Seq<u8> {
    header_chunks::sealed(
        seq![0x42u8, 0x54, 0x48, 0x44] + (seq![0u8, h.tree_type] + (places::field(
            h.node_size as int,
            4,
        ) + (places::field(h.record_size as int, 2) + (places::field(h.depth as int, 2) + (
        percentages + (places::field(h.root_node_address as int, os as int) + (places::field(
            h.num_records_in_root as int,
            2,
        ) + places::field(h.total_records as int, ls as int)))))))),
    )
}

/// A header is read as what was written in it.
#[verifier::rlimit(30)]
pub proof fn law_tree_header_is_read_back(
    d: Seq<u8>,
    p: int,
    h: BTreeV2Header,
    percentages: Seq<u8>,
    os: u8,
    ls: u8,
)
    requires
        crate::utils::is_width(os),
        crate::utils::is_width(ls),
        percentages.len() == 2,
        h.root_node_address < bytes::pow256(os as nat),
        h.total_records < bytes::pow256(ls as nat),
        places::stands(d, p, header_bytes(h, percentages, os, ls)),
    ensures
        btree_v2::header_at(d, p, os, ls) == Ok::<BTreeV2Header, ErrorModel>(h),
{
    let tag = seq![0x42u8, 0x54, 0x48, 0x44];
    let front = seq![0u8, h.tree_type];
    let a = places::field(h.node_size as int, 4);
    let b = places::field(h.record_size as int, 2);
    let c = places::field(h.depth as int, 2);
    let e = places::field(h.root_node_address as int, os as int);
    let f = places::field(h.num_records_in_root as int, 2);
    let g = places::field(h.total_records as int, ls as int);
    places::lemma_field_len(h.node_size as int, 4);
    places::lemma_field_len(h.record_size as int, 2);
    places::lemma_field_len(h.depth as int, 2);
    places::lemma_field_len(h.root_node_address as int, os as int);
    places::lemma_field_len(h.num_records_in_root as int, 2);
    places::lemma_field_len(h.total_records as int, ls as int);
    let all = tag + (front + (a + (b + (c + (percentages + (e + (f + g)))))));
    header_chunks::lemma_sealed(d, p, all);
    places::lemma_parts(d, p, tag, front + (a + (b + (c + (percentages + (e + (f + g)))))));
    places::lemma_tag(d, p, tag);
    places::lemma_parts(d, p + 4, front, a + (b + (c + (percentages + (e + (f + g))))));
    places::lemma_byte(d, p + 4, front, 0);
    places::lemma_byte(d, p + 4, front, 1);
    places::lemma_parts(d, p + 6, a, b + (c + (percentages + (e + (f + g)))));
    places::lemma_u32(d, p + 6, h.node_size as int);
    places::lemma_parts(d, p + 10, b, c + (percentages + (e + (f + g))));
    places::lemma_u16(d, p + 10, h.record_size as int);
    places::lemma_parts(d, p + 12, c, percentages + (e + (f + g)));
    places::lemma_u16(d, p + 12, h.depth as int);
    places::lemma_parts(d, p + 14, percentages, e + (f + g));
    places::lemma_parts(d, p + 16, e, f + g);
    places::lemma_word(d, p + 16, h.root_node_address as int, os);
    places::lemma_parts(d, p + 16 + os, f, g);
    places::lemma_u16(d, p + 16 + os, h.num_records_in_root as int);
    places::lemma_word(d, p + 18 + os, h.total_records as int, ls);
}

// ---- Trees ----

/// A tree of records: a leaf, or a node with a child in front of, between and behind its records.
pub enum RecordTree {
    Leaf { records: Seq<Seq<u8>>, kind: Seq<u8> },
    Inner {
        records: Seq<Seq<u8>>,
        kind: Seq<u8>,
        at: Seq<int>,
        totals: Seq<int>,
        children: Seq<RecordTree>,
    },
}

/// The records in the root of a tree.
pub open spec fn root_records(t: RecordTree) -> Seq<Seq<u8>> {
    match t {
        RecordTree::Leaf { records, .. } => records,
        RecordTree::Inner { records, .. } => records,
    }
}

/// All records of a tree from left to right.
pub open spec fn in_order(t: RecordTree) -> Seq<Seq<u8>>
    decreases t, 0int,
{
    match t {
        RecordTree::Leaf { records, .. } => records,
        RecordTree::Inner { records, children, .. } => in_order_to(
            children,
            records,
            children.len() as int,
        ),
    }
}

/// The records of the first `k` children, each followed by the record behind it.
pub open spec fn in_order_to(children: Seq<RecordTree>, records: Seq<Seq<u8>>, k: int) -> Seq<Seq<u8>>
    decreases children, k,
{
    if 0 < k <= children.len() {
        in_order_to(children, records, k - 1) + (in_order(children[k - 1]) + if k - 1
            < records.len() {
            seq![records[k - 1]]
        } else {
            Seq::empty()
        })
    } else {
        Seq::empty()
    }
}

// ---- Bytes ----

/// A leaf: tag, two bytes of version and type, the records, the checksum.
pub open spec fn leaf_bytes(records: Seq<Seq<u8>>, kind: Seq<u8>) -> Seq<u8> {
    header_chunks::sealed(
        seq![0x42u8, 0x54, 0x4C, 0x46] + (kind + stored_elements::joined(records)),
    )
}

/// What leads to a child: its address, the number of its records, and the number of all records
/// below it, where it is no leaf.
pub open spec fn pointer_bytes(at: int, n: int, total: int, os: u8, cw: int, tw: int) -> Seq<u8> {
    places::field(at, os as int) + (places::field(n, cw) + places::field(total, tw))
}

/// What leads to the children from the `k`-th on.
pub open spec fn pointers_bytes(
    at: Seq<int>,
    totals: Seq<int>,
    children: Seq<RecordTree>,
    k: int,
    os: u8,
    cw: int,
    tw: int,
) -> Seq<u8>
    decreases children.len() - k,
{
    if 0 <= k < children.len() {
        pointer_bytes(at[k], root_records(children[k]).len() as int, totals[k], os, cw, tw)
            + pointers_bytes(at, totals, children, k + 1, os, cw, tw)
    } else {
        Seq::empty()
    }
}

/// A node that is no leaf: tag, two bytes of version and type, the records, what leads to the
/// children.
pub open spec fn inner_bytes(
    records: Seq<Seq<u8>>,
    kind: Seq<u8>,
    at: Seq<int>,
    totals: Seq<int>,
    children: Seq<RecordTree>,
    os: u8,
    cw: int,
    tw: int,
) -> Seq<u8> {
    seq![0x42u8, 0x54, 0x49, 0x4E] + (kind + (stored_elements::joined(records) + pointers_bytes(
        at,
        totals,
        children,
        0,
        os,
        cw,
        tw,
    )))
}

/// The smallest number of bytes that has room for `n`.
pub open spec fn is_width_of(w: int, n: int) -> bool {
    &&& 1 <= w
    &&& n < bytes::pow256(w as nat)
    &&& w > 1 ==> n >= bytes::pow256((w - 1) as nat)
}

/// Whether `cw` and `tw` are the widths of the numbers of records in the nodes `depth` levels above
/// the leaves, where a leaf has room for `room` records. Above leaves the total is left out.
pub open spec fn are_widths(cw: int, tw: int, room: u64, depth: int) -> bool {
    if depth == 1 {
        is_width_of(cw, room as int) && tw == 0
    } else {
        is_width_of(cw, 2 * room) && is_width_of(
            tw,
            btree_v2::tree_room(room, depth - 1) as int,
        )
    }
}

/// Whether the records of a node all have the same size, and their number fits in its field.
pub open spec fn are_records(records: Seq<Seq<u8>>, rs: int) -> bool {
    &&& stored_elements::have_size(records, rs)
    &&& records.len() <= 0xFFFF
}

/// Whether a tree stands at `p`, with the leaves `depth` levels below.
pub open spec fn tree_stands(
    d: Seq<u8>,
    p: int,
    t: RecordTree,
    depth: int,
    rs: int,
    os: u8,
    room: u64,
) -> bool
    decreases t,
{
    match t {
        RecordTree::Leaf { records, kind } => {
            &&& depth == 0
            &&& are_records(records, rs)
            &&& kind.len() == 2
            &&& places::stands(d, p, leaf_bytes(records, kind))
        },
        RecordTree::Inner { records, kind, at, totals, children } => {
            &&& depth > 0
            &&& are_records(records, rs)
            &&& kind.len() == 2
            &&& children.len() == records.len() + 1
            &&& at.len() == children.len()
            &&& totals.len() == children.len()
            &&& exists|cw: int, tw: int|
                are_widths(cw, tw, room, depth) && (forall|i: int|
                    0 <= i < children.len() ==> root_records(#[trigger] children[i]).len()
                        < bytes::pow256(cw as nat)) && #[trigger] places::stands(
                    d,
                    p,
                    inner_bytes(records, kind, at, totals, children, os, cw, tw),
                )
            &&& forall|i: int|
                0 <= i < children.len() ==> {
                    &&& 0 <= at[i] < bytes::pow256(os as nat)
                    &&& at[i] <= usize::MAX
                    &&& tree_stands(d, at[i], #[trigger] children[i], depth - 1, rs, os, room)
                }
        },
    }
}

// ---- Reading ----

pub proof fn lemma_width(w: int, n: nat)
    requires
        is_width_of(w, n as int),
    ensures
        bytes::byte_width(n) == w,
    decreases w,
{
    if w == 1 {
        assert(bytes::pow256(1) == 256) by {
            bytes::lemma_pow256_values();
        }
    } else {
        let p = bytes::pow256((w - 1) as nat);
        assert(bytes::pow256(w as nat) == 256 * p);
        assert(p >= 256) by {
            lemma_pow_grows((w - 1) as nat);
        }
        if w > 2 {
            assert(p == 256 * bytes::pow256((w - 2) as nat));
        } else {
            assert(bytes::pow256(0) == 1);
        }
        assert(is_width_of(w - 1, (n / 256) as int));
        lemma_width(w - 1, n / 256);
    }
}

proof fn lemma_pow_grows(n: nat)
    requires
        n >= 1,
    ensures
        bytes::pow256(n) >= 256,
    decreases n,
{
    if n > 1 {
        lemma_pow_grows((n - 1) as nat);
    } else {
        bytes::lemma_pow256_values();
    }
}

proof fn lemma_records(d: Seq<u8>, q: int, records: Seq<Seq<u8>>, rs: int)
    requires
        rs > 0,
        stored_elements::have_size(records, rs),
        places::stands(d, q, stored_elements::joined(records)),
    ensures
        stored_elements::joined(records).len() == records.len() * rs,
        forall|i: int|
            0 <= i < records.len() ==> #[trigger] btree_v2::record_at(d, q, rs, i) == records[i],
{
    let all = stored_elements::joined(records);
    stored_elements::lemma_joined_len(records, rs);
    stored_elements::law_elements_are_found(records, rs);
    assert forall|i: int| 0 <= i < records.len() implies #[trigger] btree_v2::record_at(
        d,
        q,
        rs,
        i,
    ) == records[i] by {
        let n = records.len() as int;
        assert(0 <= i * rs && (i + 1) * rs == i * rs + rs && (i + 1) * rs <= n * rs)
            by (nonlinear_arith)
            requires
                0 <= i < n,
                rs > 0,
        ;
        let e = crate::data_read::element(all, rs, i);
        assert(e == records[i]);
        assert forall|j: int| 0 <= j < rs implies btree_v2::record_at(d, q, rs, i)[j] == e[j] by {
            places::lemma_byte(d, q, all, i * rs + j);
        }
        assert(btree_v2::record_at(d, q, rs, i) =~= e);
    }
}

proof fn lemma_leaf(d: Seq<u8>, p: int, records: Seq<Seq<u8>>, kind: Seq<u8>, rs: int)
    requires
        rs > 0,
        are_records(records, rs),
        kind.len() == 2,
        places::stands(d, p, leaf_bytes(records, kind)),
    ensures
        btree_v2::leaf_records(d, p, records.len() as int, rs) == Ok::<
            Seq<Seq<u8>>,
            ErrorModel,
        >(records),
{
    let tag = seq![0x42u8, 0x54, 0x4C, 0x46];
    let all = stored_elements::joined(records);
    let b = tag + (kind + all);
    header_chunks::lemma_sealed(d, p, b);
    places::lemma_parts(d, p, tag, kind + all);
    places::lemma_tag(d, p, tag);
    places::lemma_parts(d, p + 4, kind, all);
    lemma_records(d, p + 6, records, rs);
    let n = records.len() as int;
    let read = Seq::new(n as nat, |i: int| btree_v2::record_at(d, p + 6, rs, i));
    assert(read =~= records);
    assert(p + b.len() == p + 6 + n * rs);
}

proof fn lemma_pointers(
    d: Seq<u8>,
    q: int,
    at: Seq<int>,
    totals: Seq<int>,
    children: Seq<RecordTree>,
    k: int,
    os: u8,
    cw: int,
    tw: int,
)
    requires
        0 <= k <= children.len(),
        0 <= cw,
        0 <= tw,
        places::stands(d, q, pointers_bytes(at, totals, children, k, os, cw, tw)),
    ensures
        q + (children.len() - k) * (os + cw + tw) <= d.len(),
        forall|i: int|
            k <= i < children.len() ==> places::stands(
                d,
                q + (i - k) * (os + cw + tw),
                pointer_bytes(
                    at[i],
                    root_records(#[trigger] children[i]).len() as int,
                    totals[i],
                    os,
                    cw,
                    tw,
                ),
            ),
    decreases children.len() - k,
{
    let size = os + cw + tw;
    if k < children.len() {
        let n = root_records(children[k]).len() as int;
        let b = pointer_bytes(at[k], n, totals[k], os, cw, tw);
        places::lemma_field_len(at[k], os as int);
        places::lemma_field_len(n, cw);
        places::lemma_field_len(totals[k], tw);
        places::lemma_parts(d, q, b, pointers_bytes(at, totals, children, k + 1, os, cw, tw));
        lemma_pointers(d, q + size, at, totals, children, k + 1, os, cw, tw);
        assert((children.len() - k) * size == size + (children.len() - (k + 1)) * size)
            by (nonlinear_arith);
        assert forall|i: int| k <= i < children.len() implies places::stands(
            d,
            q + (i - k) * size,
            pointer_bytes(
                at[i],
                root_records(#[trigger] children[i]).len() as int,
                totals[i],
                os,
                cw,
                tw,
            ),
        ) by {
            if i == k {
                assert((i - k) * size == 0) by (nonlinear_arith)
                    requires
                        i == k,
                ;
            } else {
                assert((i - k) * size == size + (i - (k + 1)) * size) by (nonlinear_arith);
            }
        }
    } else {
        assert((children.len() - k) * size == 0) by (nonlinear_arith)
            requires
                children.len() == k,
        ;
    }
}

proof fn lemma_pointer(d: Seq<u8>, q: int, at: int, n: int, total: int, os: u8, cw: int, tw: int)
    requires
        crate::utils::is_width(os),
        0 <= cw,
        0 <= tw,
        0 <= at < bytes::pow256(os as nat),
        0 <= n <= 0xFFFF,
        n < bytes::pow256(cw as nat),
        at <= usize::MAX,
        places::stands(d, q, pointer_bytes(at, n, total, os, cw, tw)),
    ensures
        (crate::utils::uint_at(d, q, os) as usize) as int == at,
        (bytes::le_value(d.subrange(q + os, q + os + cw)) as u64 as u16) as int == n,
{
    let a = places::field(at, os as int);
    let b = places::field(n, cw);
    let c = places::field(total, tw);
    places::lemma_field_len(at, os as int);
    places::lemma_field_len(n, cw);
    places::lemma_parts(d, q, a, b + c);
    places::lemma_parts(d, q + os, b, c);
    places::lemma_word(d, q, at, os);
    bytes::lemma_le_round_trip(n as nat, cw as nat);
    vstd::arithmetic::div_mod::lemma_small_mod(n as nat, bytes::pow256(cw as nat));
}

/// The place of a tree among the nodes of its depth.
spec fn node_of(p: int, t: RecordTree, depth: int, rs: int, os: u8, room: u64) -> InternalNode {
    InternalNode { p, n: root_records(t).len() as int, depth, rs, os, max_leaf: room }
}

/// Whether a node names the place and the number of records of its child `i`.
spec fn leads_to(d: Seq<u8>, node: InternalNode, t: RecordTree, i: int) -> bool {
    &&& node.child_address(d, i) == t->at[i]
    &&& node.child_count(d, i) == root_records(t->children[i]).len()
}

/// A node without an error, and its children where it says.
proof fn lemma_inner(d: Seq<u8>, p: int, t: RecordTree, depth: int, rs: int, os: u8, room: u64)
    requires
        t is Inner,
        rs > 0,
        crate::utils::is_width(os),
        tree_stands(d, p, t, depth, rs, os, room),
        room <= u32::MAX,
    ensures
        node_of(p, t, depth, rs, os, room).error(d) is None,
        forall|i: int|
            0 <= i < t->children.len() ==> #[trigger] leads_to(
                d,
                node_of(p, t, depth, rs, os, room),
                t,
                i,
            ),
        forall|i: int|
            0 <= i < t->Inner_records.len() ==> #[trigger] btree_v2::record_at(d, p + 6, rs, i)
                == t->Inner_records[i],
{
    let node = node_of(p, t, depth, rs, os, room);
    let records = t->Inner_records;
    let children = t->children;
    let at = t->at;
    let totals = t->totals;
    let kind = t->Inner_kind;
    let tag = seq![0x42u8, 0x54, 0x49, 0x4E];
    let all = stored_elements::joined(records);
    let (cw, tw) = choose|cw: int, tw: int|
        are_widths(cw, tw, room, depth) && (forall|i: int|
            0 <= i < children.len() ==> root_records(#[trigger] children[i]).len()
                < bytes::pow256(cw as nat)) && #[trigger] places::stands(
            d,
            p,
            inner_bytes(records, kind, at, totals, children, os, cw, tw),
        );
    let pointers = pointers_bytes(at, totals, children, 0, os, cw, tw);
    if depth == 1 {
        lemma_width(cw, room as nat);
    } else {
        lemma_width(cw, (2 * room) as nat);
        lemma_width(tw, btree_v2::tree_room(room, depth - 1) as nat);
    }
    assert(node.count_width() == cw);
    assert(node.total_width() == tw);
    places::lemma_parts(d, p, tag, kind + (all + pointers));
    places::lemma_tag(d, p, tag);
    places::lemma_parts(d, p + 4, kind, all + pointers);
    places::lemma_parts(d, p + 6, all, pointers);
    lemma_records(d, p + 6, records, rs);
    let q = p + 6 + records.len() * rs;
    lemma_pointers(d, q, at, totals, children, 0, os, cw, tw);
    assert(node.pointer(0) == q) by {
        assert(0 * node.pointer_size() == 0) by (nonlinear_arith);
    }
    assert(node.error(d) is None) by {
        assert(node.pointer_size() == os + cw + tw);
        assert((children.len() - 0) * (os + cw + tw) == (node.n + 1) * node.pointer_size());
        assert(crate::utils::fits(d, p + 6, node.n * rs));
        assert(crate::utils::fits(d, q, (node.n + 1) * node.pointer_size()));
        assert(bytes::has_tag(d, p, tag));
    }
    assert forall|i: int| 0 <= i < children.len() implies #[trigger] leads_to(d, node, t, i) by {
        let n = root_records(children[i]).len() as int;
        assert(tree_stands(d, at[i], children[i], depth - 1, rs, os, room));
        lemma_pointer(d, q + (i - 0) * (os + cw + tw), at[i], n, totals[i], os, cw, tw);
    }
}

#[verifier::spinoff_prover]
#[verifier::rlimit(40)]
proof fn lemma_tree(d: Seq<u8>, p: int, t: RecordTree, depth: int, rs: int, os: u8, room: u64)
    requires
        t is Inner,
        rs > 0,
        crate::utils::is_width(os),
        tree_stands(d, p, t, depth, rs, os, room),
        room <= u32::MAX,
    ensures
        node_of(p, t, depth, rs, os, room).records(d) == Ok::<Seq<Seq<u8>>, ErrorModel>(
            in_order(t),
        ),
    decreases t, 1int, 0int,
{
    lemma_inner(d, p, t, depth, rs, os, room);
    lemma_children(d, p, t, depth, rs, os, room, t->children.len() as int);
}

#[verifier::spinoff_prover]
#[verifier::rlimit(40)]
proof fn lemma_children(
    d: Seq<u8>,
    p: int,
    t: RecordTree,
    depth: int,
    rs: int,
    os: u8,
    room: u64,
    k: int,
)
    requires
        t is Inner,
        rs > 0,
        crate::utils::is_width(os),
        tree_stands(d, p, t, depth, rs, os, room),
        room <= u32::MAX,
        0 <= k <= t->children.len(),
    ensures
        node_of(p, t, depth, rs, os, room).records_to(d, k) == Ok::<Seq<Seq<u8>>, ErrorModel>(
            in_order_to(t->children, t->Inner_records, k),
        ),
    decreases t, 0int, k,
{
    let node = node_of(p, t, depth, rs, os, room);
    let children = t->children;
    let records = t->Inner_records;
    if k > 0 {
        let i = k - 1;
        lemma_children(d, p, t, depth, rs, os, room, i);
        lemma_inner(d, p, t, depth, rs, os, room);
        let c = children[i];
        let at = t->at[i];
        assert(decreases_to!(t => children[i]));
        assert(tree_stands(d, at, c, depth - 1, rs, os, room));
        assert(leads_to(d, node, t, i));
        match c {
            RecordTree::Leaf { records, kind } => {
                lemma_leaf(d, at, records, kind, rs);
            },
            RecordTree::Inner { .. } => {
                lemma_tree(d, at, c, depth - 1, rs, os, room);
                assert(node.child(d, i) == node_of(at, c, depth - 1, rs, os, room));
            },
        }
        assert(node.child_records(d, i) == Ok::<Seq<Seq<u8>>, ErrorModel>(in_order(c)));
        let before = in_order_to(children, records, i);
        let found = in_order(c);
        if i < records.len() {
            assert((before + found).push(records[i]) =~= before + (found + seq![records[i]]));
        } else {
            assert(before + found =~= before + (found + Seq::empty()));
        }
    }
}

/// The number of records that a leaf has room for: as many as fit in a node beside its tag,
/// version, type and checksum.
pub open spec fn room_in(h: BTreeV2Header) -> u64 {
    if h.node_size > 10 {
        ((h.node_size - 10) / h.record_size as int) as u64
    } else {
        0
    }
}

/// The records of a tree are all that were written in its nodes, from left to right, whatever its
/// depth. A tree whose header counts no records has none.
#[verifier::rlimit(30)]
pub proof fn law_records_are_read_back(
    d: Seq<u8>,
    h: BTreeV2Header,
    t: RecordTree,
    os: u8,
)
    requires
        crate::utils::is_width(os),
        h.root_node_address <= usize::MAX,
        h.record_size > 0,
        h.total_records > 0,
        h.num_records_in_root > 0,
        h.num_records_in_root == root_records(t).len(),
        tree_stands(
            d,
            h.root_node_address as int,
            t,
            h.depth as int,
            h.record_size as int,
            os,
            room_in(h),
        ),
    ensures
        btree_v2::all_records(d, h, os) == Ok::<Seq<Seq<u8>>, ErrorModel>(in_order(t)),
        forall|none: BTreeV2Header|
            none.total_records == 0 ==> #[trigger] btree_v2::all_records(d, none, os) == Ok::<
                Seq<Seq<u8>>,
                ErrorModel,
            >(Seq::empty()),
{
    let p = h.root_node_address as int;
    let rs = h.record_size as int;
    let room = room_in(h);
    assert(0 <= btree_v2::leaf_room(h.node_size, h.record_size) <= h.node_size) by {
        if h.node_size > 10 {
            vstd::arithmetic::div_mod::lemma_div_is_ordered_by_denominator(
                h.node_size - 10,
                1,
                rs,
            );
            vstd::arithmetic::div_mod::lemma_div_pos_is_pos(h.node_size - 10, rs);
        }
    }
    match t {
        RecordTree::Leaf { records, kind } => {
            lemma_leaf(d, p, records, kind, rs);
        },
        RecordTree::Inner { .. } => {
            lemma_tree(d, p, t, h.depth as int, rs, os, room);
        },
    }
}

} // verus!
