//! What is written in a B-tree of chunks is read from it.

use vstd::prelude::*;
use crate::bytes;
use crate::chunk_cache::ChunkInfoModel;
use crate::error::ErrorModel;
use crate::traversal::{Tree, Visit};

verus! {

/// The tag of a node: "TREE".
pub open spec fn tree_tag() -> Seq<u8> {
    seq![0x54u8, 0x52, 0x45, 0x45]
}

/// Offsets, one after the other.
pub open spec fn offsets_bytes(offsets: Seq<u64>, k: int, os: u8) -> Seq<u8>
    decreases offsets.len() - k,
{
    if 0 <= k < offsets.len() {
        crate::places::field(offsets[k] as int, os as int) + offsets_bytes(offsets, k + 1, os)
    } else {
        Seq::empty()
    }
}

/// The key of a chunk: its size, its filter mask, its offsets.
pub open spec fn chunk_key(c: ChunkInfoModel, os: u8) -> Seq<u8> {
    crate::places::field(c.chunk_size as int, 4) + (crate::places::field(c.filter_mask as int, 4)
        + offsets_bytes(c.offsets, 0, os))
}

/// The entries of a node from the `k`-th on: a key and an address each.
pub open spec fn entries_bytes(keys: Seq<Seq<u8>>, addresses: Seq<u64>, k: int, os: u8) -> Seq<u8>
    decreases addresses.len() - k,
{
    if 0 <= k < addresses.len() {
        keys[k] + (crate::places::field(addresses[k] as int, os as int) + entries_bytes(
            keys,
            addresses,
            k + 1,
            os,
        ))
    } else {
        Seq::empty()
    }
}

/// A node of type 1: its tag, type and level, the number of entries, the addresses of its siblings,
/// the entries, and one more key.
pub open spec fn node_bytes(
    level: u8,
    left: u64,
    right: u64,
    keys: Seq<Seq<u8>>,
    addresses: Seq<u64>,
    last_key: Seq<u8>,
    os: u8,
) -> Seq<u8> {
    tree_tag() + (seq![1u8, level] + (crate::places::field(addresses.len() as int, 2) + (
    crate::places::field(left as int, os as int) + (crate::places::field(right as int, os as int)
        + (entries_bytes(keys, addresses, 0, os) + last_key)))))
}

/// Whether a node with the given keys and addresses stands at `p`, whatever its siblings and its
/// last key are.
pub open spec fn node_stands(
    d: Seq<u8>,
    p: int,
    level: u8,
    keys: Seq<Seq<u8>>,
    addresses: Seq<u64>,
    ndims: int,
    os: u8,
) -> bool {
    let width = 8 + ndims * os;
    &&& addresses.len() <= 0xFFFF
    &&& keys.len() == addresses.len()
    &&& forall|i: int| 0 <= i < keys.len() ==> (#[trigger] keys[i]).len() == width
    &&& forall|i: int| 0 <= i < addresses.len() ==> #[trigger] addresses[i] < bytes::pow256(os as nat)
    &&& exists|left: u64, right: u64, last_key: Seq<u8>|
        last_key.len() == width && #[trigger] crate::places::stands(
            d,
            p,
            node_bytes(level, left, right, keys, addresses, last_key, os),
        )
}

/// Whether the chunks fit in a leaf: each has as many offsets as there are axes, and all numbers fit
/// in their fields.
pub open spec fn are_storable(chunks: Seq<ChunkInfoModel>, ndims: int, os: u8) -> bool {
    forall|i: int|
        0 <= i < chunks.len() ==> (#[trigger] chunks[i]).offsets.len() == ndims && forall|k: int|
            0 <= k < ndims ==> #[trigger] chunks[i].offsets[k] < bytes::pow256(os as nat)
}

/// The addresses of the given positions.
pub open spec fn addresses_of(places: Seq<int>) -> Seq<u64> {
    Seq::new(places.len(), |i: int| places[i] as u64)
}

/// Whether the tree `t` of chunks stands at `p`, with its subtrees where its nodes say. The keys of
/// inner nodes can be any.
pub open spec fn tree_stands(d: Seq<u8>, p: int, t: Tree<ChunkInfoModel>, ndims: int, os: u8) -> bool
    decreases t,
{
    match t {
        Tree::Leaf(chunks) => {
            &&& are_storable(chunks, ndims, os)
            &&& node_stands(
                d,
                p,
                0,
                Seq::new(chunks.len(), |i: int| chunk_key(chunks[i], os)),
                Seq::new(chunks.len(), |i: int| chunks[i].address),
                ndims,
                os,
            )
        },
        Tree::Inner(places, children) => {
            &&& places.len() == children.len()
            &&& exists|level: u8, keys: Seq<Seq<u8>>|
                level > 0 && #[trigger] node_stands(
                    d,
                    p,
                    level,
                    keys,
                    addresses_of(places),
                    ndims,
                    os,
                )
            &&& forall|i: int|
                0 <= i < children.len() ==> tree_stands(
                    d,
                    places[i],
                    #[trigger] children[i],
                    ndims,
                    os,
                )
        },
    }
}

pub proof fn lemma_offsets_len(offsets: Seq<u64>, k: int, os: u8)
    requires
        0 <= k <= offsets.len(),
    ensures
        offsets_bytes(offsets, k, os).len() == (offsets.len() - k) * os,
    decreases offsets.len() - k,
{
    if k < offsets.len() {
        lemma_offsets_len(offsets, k + 1, os);
        crate::places::lemma_field_len(offsets[k] as int, os as int);
        assert((offsets.len() - k) * os == os + (offsets.len() - (k + 1)) * os) by (nonlinear_arith);
    } else {
        assert((offsets.len() - k) * os == 0) by (nonlinear_arith)
            requires
                offsets.len() == k,
        ;
    }
}

pub proof fn lemma_offset(d: Seq<u8>, p: int, offsets: Seq<u64>, k: int, i: int, os: u8)
    requires
        crate::places::stands(d, p, offsets_bytes(offsets, k, os)),
        0 <= k <= i < offsets.len(),
        crate::utils::is_width(os),
        offsets[i] < bytes::pow256(os as nat),
    ensures
        crate::utils::uint_at(d, p + (i - k) * os, os) == offsets[i],
    decreases i - k,
{
    crate::places::lemma_field_len(offsets[k] as int, os as int);
    crate::places::lemma_parts(
        d,
        p,
        crate::places::field(offsets[k] as int, os as int),
        offsets_bytes(offsets, k + 1, os),
    );
    if i == k {
        crate::places::lemma_word(d, p, offsets[k] as int, os);
        assert((i - k) * os == 0) by (nonlinear_arith)
            requires
                i == k,
        ;
    } else {
        lemma_offset(d, p + os, offsets, k + 1, i, os);
        assert((i - k) * os == os + (i - (k + 1)) * os) by (nonlinear_arith);
    }
}

proof fn lemma_key_len(c: ChunkInfoModel, os: u8)
    ensures
        chunk_key(c, os).len() == 8 + c.offsets.len() * os,
{
    lemma_offsets_len(c.offsets, 0, os);
    crate::places::lemma_field_len(c.chunk_size as int, 4);
    crate::places::lemma_field_len(c.filter_mask as int, 4);
}

proof fn lemma_entry(
    d: Seq<u8>,
    p: int,
    keys: Seq<Seq<u8>>,
    addresses: Seq<u64>,
    k: int,
    i: int,
    width: int,
    os: u8,
)
    requires
        crate::places::stands(d, p, entries_bytes(keys, addresses, k, os)),
        0 <= k <= i < addresses.len(),
        keys.len() == addresses.len(),
        forall|j: int| 0 <= j < keys.len() ==> (#[trigger] keys[j]).len() == width,
        width >= 0,
    ensures
        crate::places::stands(d, p + (i - k) * (width + os), keys[i]),
        crate::places::stands(
            d,
            p + (i - k) * (width + os) + width,
            crate::places::field(addresses[i] as int, os as int),
        ),
    decreases i - k,
{
    let a = crate::places::field(addresses[k] as int, os as int);
    let rest = entries_bytes(keys, addresses, k + 1, os);
    crate::places::lemma_field_len(addresses[k] as int, os as int);
    assert(keys[k].len() == width);
    crate::places::lemma_parts(d, p, keys[k], a + rest);
    crate::places::lemma_parts(d, p + width, a, rest);
    if i == k {
        assert((i - k) * (width + os) == 0) by (nonlinear_arith)
            requires
                i == k,
        ;
    } else {
        lemma_entry(d, p + width + os, keys, addresses, k + 1, i, width, os);
        assert((i - k) * (width + os) == (width + os) + (i - (k + 1)) * (width + os))
            by (nonlinear_arith);
    }
}

proof fn lemma_entries_len(
    keys: Seq<Seq<u8>>,
    addresses: Seq<u64>,
    k: int,
    width: int,
    os: u8,
)
    requires
        0 <= k <= addresses.len(),
        keys.len() == addresses.len(),
        forall|j: int| 0 <= j < keys.len() ==> (#[trigger] keys[j]).len() == width,
    ensures
        entries_bytes(keys, addresses, k, os).len() == (addresses.len() - k) * (width + os),
    decreases addresses.len() - k,
{
    if k < addresses.len() {
        lemma_entries_len(keys, addresses, k + 1, width, os);
        crate::places::lemma_field_len(addresses[k] as int, os as int);
        assert(keys[k].len() == width);
        assert((addresses.len() - k) * (width + os) == (width + os) + (addresses.len() - (k + 1))
            * (width + os)) by (nonlinear_arith);
    } else {
        assert((addresses.len() - k) * (width + os) == 0) by (nonlinear_arith)
            requires
                addresses.len() == k,
        ;
    }
}

/// What the fields of a node are.
proof fn lemma_node(
    d: Seq<u8>,
    p: int,
    level: u8,
    keys: Seq<Seq<u8>>,
    addresses: Seq<u64>,
    ndims: int,
    os: u8,
)
    requires
        node_stands(d, p, level, keys, addresses, ndims, os),
        crate::utils::is_width(os),
        ndims >= 0,
    ensures
        0 <= p < d.len(),
        crate::chunked_read::node_error(d, p, ndims, os) is None,
        d[p + 5] == level,
        crate::chunked_read::entries_at(d, p) == addresses.len(),
        forall|i: int|
            0 <= i < addresses.len() ==> #[trigger] crate::chunked_read::child_at(
                d,
                p,
                i,
                ndims,
                os,
            ) == addresses[i],
        forall|i: int|
            0 <= i < addresses.len() ==> crate::places::stands(
                d,
                crate::chunked_read::entry_at(p, i, ndims, os),
                #[trigger] keys[i],
            ),
{
    let width = 8 + ndims * os;
    assert(ndims * os >= 0) by (nonlinear_arith)
        requires
            ndims >= 0,
            os >= 0,
    ;
    let (left, right, last_key) = choose|left: u64, right: u64, last_key: Seq<u8>|
        last_key.len() == width && #[trigger] crate::places::stands(
            d,
            p,
            node_bytes(level, left, right, keys, addresses, last_key, os),
        );
    let n = crate::places::field(addresses.len() as int, 2);
    let l = crate::places::field(left as int, os as int);
    let r = crate::places::field(right as int, os as int);
    let all = entries_bytes(keys, addresses, 0, os);
    crate::places::lemma_field_len(addresses.len() as int, 2);
    crate::places::lemma_field_len(left as int, os as int);
    crate::places::lemma_field_len(right as int, os as int);
    lemma_entries_len(keys, addresses, 0, width, os);
    crate::places::lemma_parts(
        d,
        p,
        tree_tag(),
        seq![1u8, level] + (n + (l + (r + (all + last_key)))),
    );
    crate::places::lemma_parts(d, p + 4, seq![1u8, level], n + (l + (r + (all + last_key))));
    crate::places::lemma_parts(d, p + 6, n, l + (r + (all + last_key)));
    crate::places::lemma_parts(d, p + 8, l, r + (all + last_key));
    crate::places::lemma_parts(d, p + 8 + os, r, all + last_key);
    crate::places::lemma_parts(d, p + 8 + os + os, all, last_key);
    crate::places::lemma_tag(d, p, tree_tag());
    crate::places::lemma_byte(d, p + 4, seq![1u8, level], 0);
    crate::places::lemma_byte(d, p + 4, seq![1u8, level], 1);
    crate::places::lemma_u16(d, p + 6, addresses.len() as int);
    assert forall|i: int| 0 <= i < addresses.len() implies #[trigger] crate::chunked_read::child_at(
        d,
        p,
        i,
        ndims,
        os,
    ) == addresses[i] by {
        lemma_entry(d, p + 8 + os + os, keys, addresses, 0, i, width, os);
        crate::places::lemma_word(
            d,
            p + 8 + os + os + i * (width + os) + width,
            addresses[i] as int,
            os,
        );
    }
    assert forall|i: int| 0 <= i < addresses.len() implies crate::places::stands(
        d,
        crate::chunked_read::entry_at(p, i, ndims, os),
        #[trigger] keys[i],
    ) by {
        lemma_entry(d, p + 8 + os + os, keys, addresses, 0, i, width, os);
    }
}

proof fn lemma_leaf_chunk(
    d: Seq<u8>,
    p: int,
    c: ChunkInfoModel,
    i: int,
    ndims: int,
    os: u8,
)
    requires
        crate::places::stands(
            d,
            crate::chunked_read::entry_at(p, i, ndims, os),
            chunk_key(c, os),
        ),
        crate::chunked_read::child_at(d, p, i, ndims, os) == c.address,
        crate::utils::is_width(os),
        c.offsets.len() == ndims,
        forall|k: int| 0 <= k < ndims ==> #[trigger] c.offsets[k] < bytes::pow256(os as nat),
    ensures
        crate::chunked_read::leaf_chunk(d, p, i, ndims, os) == c,
{
    let q = crate::chunked_read::entry_at(p, i, ndims, os);
    let a = crate::places::field(c.chunk_size as int, 4);
    let b = crate::places::field(c.filter_mask as int, 4);
    let o = offsets_bytes(c.offsets, 0, os);
    crate::places::lemma_field_len(c.chunk_size as int, 4);
    crate::places::lemma_field_len(c.filter_mask as int, 4);
    crate::places::lemma_parts(d, q, a, b + o);
    crate::places::lemma_parts(d, q + 4, b, o);
    crate::places::lemma_u32(d, q, c.chunk_size as int);
    crate::places::lemma_u32(d, q + 4, c.filter_mask as int);
    let leaf = crate::chunked_read::leaf_chunk(d, p, i, ndims, os);
    assert forall|k: int| 0 <= k < ndims implies leaf.offsets[k] == c.offsets[k] by {
        assert(c.offsets[k] < bytes::pow256(os as nat));
        lemma_offset(d, q + 8, c.offsets, 0, k, os);
    }
    assert(leaf.offsets =~= c.offsets);
}

proof fn lemma_tree_shown(d: Seq<u8>, p: int, t: Tree<ChunkInfoModel>, ndims: int, os: u8)
    requires
        tree_stands(d, p, t, ndims, os),
        crate::utils::is_width(os),
        ndims >= 0,
        d.len() <= usize::MAX,
    ensures
        crate::traversal::shows(crate::chunked_read::visits(d, ndims, os), p, t),
        0 <= p < d.len(),
    decreases t,
{
    let visit = crate::chunked_read::visits(d, ndims, os);
    assert(visit(p) == crate::chunked_read::visit_at(d, p, ndims, os));
    match t {
        Tree::Leaf(chunks) => {
            let keys = Seq::new(chunks.len(), |i: int| chunk_key(chunks[i], os));
            let addresses = Seq::new(chunks.len(), |i: int| chunks[i].address);
            lemma_node(d, p, 0, keys, addresses, ndims, os);
            let found = Seq::new(
                chunks.len(),
                |i: int| crate::chunked_read::leaf_chunk(d, p, i, ndims, os),
            );
            assert forall|i: int| 0 <= i < chunks.len() implies found[i] == chunks[i] by {
                assert(keys[i] == chunk_key(chunks[i], os));
                assert(crate::chunked_read::child_at(d, p, i, ndims, os) == addresses[i]);
                assert(chunks[i].offsets.len() == ndims);
                lemma_leaf_chunk(d, p, chunks[i], i, ndims, os);
            }
            assert(found =~= chunks);
        },
        Tree::Inner(places, children) => {
            let addresses = addresses_of(places);
            let (level, keys) = choose|level: u8, keys: Seq<Seq<u8>>|
                level > 0 && #[trigger] node_stands(d, p, level, keys, addresses, ndims, os);
            lemma_node(d, p, level, keys, addresses, ndims, os);
            let below = crate::traversal::positions(
                Seq::new(
                    addresses.len(),
                    |i: int| crate::chunked_read::child_at(d, p, i, ndims, os),
                ),
            );
            assert forall|i: int|
                0 <= i < children.len() implies 0 <= places[i] < d.len()
                && crate::traversal::shows(visit, places[i], #[trigger] children[i]) by {
                lemma_tree_shown(d, places[i], children[i], ndims, os);
            }
            assert forall|i: int| 0 <= i < places.len() implies below[i] == places[i] by {
                assert(crate::chunked_read::child_at(d, p, i, ndims, os) == addresses[i]);
                assert(crate::traversal::shows(visit, places[i], children[i]));
            }
            assert(below =~= places);
        },
    }
}

/// The chunks of a B-tree are those of all its leaves, from left to right: where a tree stands in a
/// file, whatever its height and whatever the keys of its inner nodes, reading gives the chunks that
/// are written in it.
#[verifier::rlimit(30)]
pub proof fn law_chunk_tree_is_read_back(
    d: Seq<u8>,
    p: int,
    t: Tree<ChunkInfoModel>,
    ndims: int,
    os: u8,
)
    requires
        tree_stands(d, p, t, ndims, os),
        crate::utils::is_width(os),
        ndims >= 0,
        d.len() <= usize::MAX,
    ensures
        crate::chunked_read::btree_chunks(d, p, ndims, os) == Ok::<
            Seq<ChunkInfoModel>,
            ErrorModel,
        >(crate::traversal::leaves(t)),
{
    let visit = crate::chunked_read::visits(d, ndims, os);
    lemma_tree_shown(d, p, t, ndims, os);
    assert forall|q: int| #[trigger] visit(q) is Inner implies 0 <= q < d.len() by {
        assert(visit(q) == crate::chunked_read::visit_at(d, q, ndims, os));
    }
    assert forall|q: int|
        #[trigger] visit(q) != Visit::Leaf(
            Err::<Seq<ChunkInfoModel>, ErrorModel>(crate::traversal::too_deep()),
        ) by {
        assert(visit(q) == crate::chunked_read::visit_at(d, q, ndims, os));
    }
    crate::traversal::law_traversal_finds_all_leaves(visit, d.len(), p, t);
}

/// What is collected from an inner node is what is collected from all its children, one after the
/// other.
#[verifier::rlimit(30)]
pub proof fn law_inner_node_joins_its_children(
    d: Seq<u8>,
    p: int,
    level: u8,
    keys: Seq<Seq<u8>>,
    addresses: Seq<u64>,
    children: Seq<Seq<ChunkInfoModel>>,
    ndims: int,
    os: u8,
)
    requires
        node_stands(d, p, level, keys, addresses, ndims, os),
        level > 0,
        crate::utils::is_width(os),
        ndims >= 0,
        d.len() <= usize::MAX,
        children.len() == addresses.len(),
        forall|i: int|
            0 <= i < children.len() ==> addresses[i] <= usize::MAX
                && crate::chunked_read::btree_chunks(d, addresses[i] as int, ndims, os) == Ok::<
                Seq<ChunkInfoModel>,
                ErrorModel,
            >(#[trigger] children[i]),
        crate::chunked_read::btree_chunks(d, p, ndims, os) != Err::<
            Seq<ChunkInfoModel>,
            ErrorModel,
        >(crate::traversal::too_deep()),
    ensures
        crate::chunked_read::btree_chunks(d, p, ndims, os) == Ok::<
            Seq<ChunkInfoModel>,
            ErrorModel,
        >(children.flatten()),
{
    lemma_node(d, p, level, keys, addresses, ndims, os);
    let visit = crate::chunked_read::visits(d, ndims, os);
    assert(visit(p) == crate::chunked_read::visit_at(d, p, ndims, os));
    let below = crate::traversal::positions(
        Seq::new(addresses.len(), |i: int| crate::chunked_read::child_at(d, p, i, ndims, os)),
    );
    assert forall|i: int| 0 <= i < addresses.len() implies below[i] == addresses[i] by {
        assert(crate::chunked_read::child_at(d, p, i, ndims, os) == addresses[i]);
        let c = children[i];
        assert(addresses[i] <= usize::MAX);
    }
    let places = Seq::new(addresses.len(), |i: int| addresses[i] as int);
    assert(below =~= places);
    let limit = d.len();
    lemma_joined(visit, places, children, 0, limit);
    assert(children.subrange(0, children.len() as int) =~= children);
}

proof fn lemma_joined(
    visit: spec_fn(int) -> Visit<ChunkInfoModel>,
    places: Seq<int>,
    children: Seq<Seq<ChunkInfoModel>>,
    i: int,
    limit: nat,
)
    requires
        0 <= i <= children.len(),
        children.len() == places.len(),
        limit > 0,
        forall|k: int|
            0 <= k < children.len() ==> crate::traversal::found(visit, places[k], limit) == Ok::<
                Seq<ChunkInfoModel>,
                ErrorModel,
            >(#[trigger] children[k]),
        crate::traversal::found_from(visit, places, i, (limit - 1) as nat) != Err::<
            Seq<ChunkInfoModel>,
            ErrorModel,
        >(crate::traversal::too_deep()),
    ensures
        crate::traversal::found_from(visit, places, i, (limit - 1) as nat) == Ok::<
            Seq<ChunkInfoModel>,
            ErrorModel,
        >(children.subrange(i, children.len() as int).flatten()),
    decreases children.len() - i,
{
    let tail = children.subrange(i, children.len() as int);
    if i < children.len() {
        assert(crate::traversal::found(visit, places[i], limit) == Ok::<
            Seq<ChunkInfoModel>,
            ErrorModel,
        >(children[i]));
        crate::traversal::lemma_depth_suffices(visit, places[i], (limit - 1) as nat, limit);
        lemma_joined(visit, places, children, i + 1, limit);
        assert(tail.drop_first() =~= children.subrange(i + 1, children.len() as int));
        assert(tail.first() == children[i]);
    } else {
        assert(tail =~= Seq::empty());
    }
}

} // verus!
