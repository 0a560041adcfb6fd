//! What is written in the arrays that index chunks is read from them.

use vstd::prelude::*;
use vstd::arithmetic::power2::pow2;
use crate::bytes;
use crate::chunk_cache::ChunkInfoModel;
use crate::error::ErrorModel;
use crate::extensible_array::{self, ExtensibleArrayHeader};
use crate::fixed_array::{self, ChunkGrid, FixedArrayHeader};
use crate::grid;
use crate::listings;
use crate::places;

verus! {

// ---- Headers ----

/// The header of a fixed array: tag, version 0, what it indexes, the size of an element, the number
/// of bits of a page, the number of elements, the address of the data block, the checksum.
pub open spec fn fixed_header_bytes(h: FixedArrayHeader, checksum: Seq<u8>, os: u8, ls: u8) -> Seq<u8> {
    seq![0x46u8, 0x41, 0x48, 0x44] + (seq![0u8, h.client_id, h.element_size, h.max_nelmts_bits] + (
    places::field(h.num_elements as int, ls as int) + (places::field(
        h.data_block_address as int,
        os as int,
    ) + checksum)))
}

/// The header of a fixed array is read as what was written in it.
pub proof fn law_fixed_array_header_is_read_back(
    d: Seq<u8>,
    p: int,
    h: FixedArrayHeader,
    checksum: Seq<u8>,
    os: u8,
    ls: u8,
)
    requires
        crate::utils::is_width(os),
        crate::utils::is_width(ls),
        checksum.len() == 4,
        h.num_elements < bytes::pow256(ls as nat),
        h.data_block_address < bytes::pow256(os as nat),
        places::stands(d, p, fixed_header_bytes(h, checksum, os, ls)),
    ensures
        fixed_array::fixed_array_at(d, p, os, ls) == Ok::<FixedArrayHeader, ErrorModel>(h),
{
    let tag = seq![0x46u8, 0x41, 0x48, 0x44];
    let front = seq![0u8, h.client_id, h.element_size, h.max_nelmts_bits];
    let n = places::field(h.num_elements as int, ls as int);
    let a = places::field(h.data_block_address as int, os as int);
    places::lemma_field_len(h.num_elements as int, ls as int);
    places::lemma_field_len(h.data_block_address as int, os as int);
    places::lemma_parts(d, p, tag, front + (n + (a + checksum)));
    places::lemma_tag(d, p, tag);
    assert(tag == fixed_array::fahd());
    places::lemma_parts(d, p + 4, front, n + (a + checksum));
    places::lemma_byte(d, p + 4, front, 0);
    places::lemma_byte(d, p + 4, front, 1);
    places::lemma_byte(d, p + 4, front, 2);
    places::lemma_byte(d, p + 4, front, 3);
    places::lemma_parts(d, p + 8, n, a + checksum);
    places::lemma_word(d, p + 8, h.num_elements as int, ls);
    places::lemma_parts(d, p + 8 + ls, a, checksum);
    places::lemma_word(d, p + 8 + ls, h.data_block_address as int, os);
}

/// The header of an extensible array: tag, version 0, what it indexes, the size of an element, the
/// number of bits of an index, four numbers that describe its blocks, four counts of which nothing
/// is read, the number of elements, one more count, the address of the index block, the checksum.
pub open spec fn extensible_header_bytes(
    h: ExtensibleArrayHeader,
    counts: Seq<u8>,
    last: Seq<u8>,
    checksum: Seq<u8>,
    os: u8,
    ls: u8,
) -> Seq<u8> {
    seq![0x45u8, 0x41, 0x48, 0x44] + (seq![
        0u8,
        h.client_id,
        h.element_size,
        h.max_nelmts_bits,
        h.idx_blk_elmts,
        h.min_dblk_nelmts,
        h.super_blk_min_nelmts,
        h.max_dblk_nelmts_bits,
    ] + (counts + (places::field(h.num_elements as int, ls as int) + (last + (places::field(
        h.index_block_address as int,
        os as int,
    ) + checksum)))))
}

/// The header of an extensible array is read as what was written in it.
pub proof fn law_extensible_array_header_is_read_back(
    d: Seq<u8>,
    p: int,
    h: ExtensibleArrayHeader,
    counts: Seq<u8>,
    last: Seq<u8>,
    checksum: Seq<u8>,
    os: u8,
    ls: u8,
)
    requires
        crate::utils::is_width(os),
        crate::utils::is_width(ls),
        counts.len() == 4 * ls,
        last.len() == ls,
        checksum.len() == 4,
        h.num_elements < bytes::pow256(ls as nat),
        h.index_block_address < bytes::pow256(os as nat),
        places::stands(d, p, extensible_header_bytes(h, counts, last, checksum, os, ls)),
    ensures
        extensible_array::extensible_array_at(d, p, os, ls) == Ok::<
            ExtensibleArrayHeader,
            ErrorModel,
        >(h),
{
    let tag = seq![0x45u8, 0x41, 0x48, 0x44];
    let front = seq![
        0u8,
        h.client_id,
        h.element_size,
        h.max_nelmts_bits,
        h.idx_blk_elmts,
        h.min_dblk_nelmts,
        h.super_blk_min_nelmts,
        h.max_dblk_nelmts_bits,
    ];
    let n = places::field(h.num_elements as int, ls as int);
    let a = places::field(h.index_block_address as int, os as int);
    places::lemma_field_len(h.num_elements as int, ls as int);
    places::lemma_field_len(h.index_block_address as int, os as int);
    let r = counts + (n + (last + (a + checksum)));
    places::lemma_parts(d, p, tag, front + r);
    places::lemma_tag(d, p, tag);
    assert(tag == extensible_array::eahd());
    places::lemma_parts(d, p + 4, front, r);
    places::lemma_byte(d, p + 4, front, 0);
    places::lemma_byte(d, p + 4, front, 1);
    places::lemma_byte(d, p + 4, front, 2);
    places::lemma_byte(d, p + 4, front, 3);
    places::lemma_byte(d, p + 4, front, 4);
    places::lemma_byte(d, p + 4, front, 5);
    places::lemma_byte(d, p + 4, front, 6);
    places::lemma_byte(d, p + 4, front, 7);
    places::lemma_parts(d, p + 12, counts, n + (last + (a + checksum)));
    places::lemma_parts(d, p + 12 + 4 * ls, n, last + (a + checksum));
    places::lemma_word(d, p + 12 + 4 * ls, h.num_elements as int, ls);
    places::lemma_parts(d, p + 12 + 5 * ls, last, a + checksum);
    places::lemma_parts(d, p + 12 + 6 * ls, a, checksum);
    places::lemma_word(d, p + 12 + 6 * ls, h.index_block_address as int, os);
}

// ---- Elements ----

/// An element of an array: the address of a chunk, undefined if there is none, and for filtered
/// chunks the size and the filter mask.
pub struct Slot {
    pub address: Option<u64>,
    pub size: u32,
    pub mask: u32,
}

/// The bytes of an element; the size of a filtered chunk takes `sw` of them.
pub open spec fn slot_bytes(s: Slot, filtered: bool, os: u8, sw: int) -> Seq<u8> {
    places::address(s.address, os) + if filtered {
        places::field(s.size as int, sw) + places::field(s.mask as int, 4)
    } else {
        Seq::empty()
    }
}

/// The elements from the `k`-th on.
pub open spec fn slots_bytes(ss: Seq<Slot>, filtered: bool, k: int, os: u8, sw: int) -> Seq<u8>
    decreases ss.len() - k,
{
    if 0 <= k < ss.len() {
        slot_bytes(ss[k], filtered, os, sw) + slots_bytes(ss, filtered, k + 1, os, sw)
    } else {
        Seq::empty()
    }
}

/// Whether an element has room for an entry.
pub open spec fn is_slot(s: Slot, filtered: bool, os: u8, sw: int) -> bool {
    &&& places::is_address(s.address, os)
    &&& filtered ==> s.size < bytes::pow256(sw as nat)
}

/// The chunk that element `index` stands for: that with this number in the grid. One that is not
/// filtered has the size of a whole chunk.
pub open spec fn chunk_in(s: Slot, filtered: bool, g: ChunkGrid, index: int) -> Option<
    ChunkInfoModel,
> {
    match s.address {
        None => None,
        Some(a) => Some(
            ChunkInfoModel {
                chunk_size: if filtered {
                    s.size
                } else {
                    g.bytes as u32
                },
                filter_mask: if filtered {
                    s.mask
                } else {
                    0
                },
                offsets: grid::offsets_of(index, g.counts, g.chunk),
                address: a,
            },
        ),
    }
}

/// The chunks that the elements stand for, the first of them with the number `index`.
pub open spec fn chunks_in(ss: Seq<Slot>, filtered: bool, g: ChunkGrid, index: int) -> Seq<
    Option<ChunkInfoModel>,
> {
    Seq::new(ss.len(), |i: int| chunk_in(ss[i], filtered, g, index + i))
}

proof fn lemma_slot(d: Seq<u8>, p: int, s: Slot, filtered: bool, os: u8, sw: int)
    requires
        crate::utils::is_width(os),
        0 <= sw,
        is_slot(s, filtered, os, sw),
        places::stands(d, p, slot_bytes(s, filtered, os, sw)),
    ensures
        slot_bytes(s, filtered, os, sw).len() == if filtered {
            os + sw + 4
        } else {
            os as int
        },
        p + slot_bytes(s, filtered, os, sw).len() <= d.len(),
        s.address is None <==> crate::utils::undefined_bytes(d, p, os),
        s.address matches Some(a) ==> crate::utils::uint_at(d, p, os) == a,
        filtered ==> bytes::le_value(d.subrange(p + os, p + os + sw)) == s.size && bytes::u32_at(
            d,
            p + os + sw,
        ) == s.mask,
{
    let a = places::address(s.address, os);
    let b = places::field(s.size as int, sw);
    let c = places::field(s.mask as int, 4);
    let tail = if filtered {
        b + c
    } else {
        Seq::empty()
    };
    places::lemma_field_len(s.size as int, sw);
    places::lemma_field_len(s.mask as int, 4);
    places::lemma_parts(d, p, a, tail);
    places::lemma_address(d, p, s.address, os);
    if let Some(v) = s.address {
        places::lemma_word(d, p, v as int, os);
    }
    if filtered {
        places::lemma_parts(d, p + os, b, c);
        places::lemma_u32(d, p + os + sw, s.mask as int);
        bytes::lemma_le_round_trip(s.size as nat, sw as nat);
        vstd::arithmetic::div_mod::lemma_small_mod(s.size as nat, bytes::pow256(sw as nat));
    }
}

/// What is there of the elements from the `k`-th on.
proof fn lemma_present_front(items: Seq<Option<ChunkInfoModel>>, k: int)
    requires
        0 <= k < items.len(),
    ensures
        listings::present(items.subrange(k, items.len() as int)) == (match items[k] {
            Some(c) => seq![c],
            None => Seq::empty(),
        }) + listings::present(items.subrange(k + 1, items.len() as int)),
    decreases items.len() - k,
{
    let n = items.len() as int;
    let all = items.subrange(k, n);
    let rest = items.subrange(k + 1, n);
    if k == n - 1 {
        assert(all.drop_last() =~= Seq::empty());
        assert(rest =~= Seq::empty());
        reveal_with_fuel(listings::present, 2);
        assert(all.last() == items[k]);
        match items[k] {
            Some(c) => {
                assert(listings::present(all) =~= seq![c] + listings::present(rest));
            },
            None => {
                assert(listings::present(all) =~= Seq::empty() + listings::present(rest));
            },
        }
    } else {
        let front = items.drop_last();
        lemma_present_front(front, k);
        assert(all.drop_last() =~= front.subrange(k, n - 1));
        assert(rest.drop_last() =~= front.subrange(k + 1, n - 1));
        assert(all.last() == items[n - 1] && rest.last() == items[n - 1]);
        let head = match items[k] {
            Some(c) => seq![c],
            None => Seq::<ChunkInfoModel>::empty(),
        };
        let mid = listings::present(rest.drop_last());
        match items[n - 1] {
            Some(c) => {
                assert((head + mid).push(c) =~= head + mid.push(c));
            },
            None => {},
        }
    }
}

#[verifier::spinoff_prover]
#[verifier::rlimit(40)]
proof fn lemma_extensible_slots(
    d: Seq<u8>,
    p: int,
    h: ExtensibleArrayHeader,
    ss: Seq<Slot>,
    k: int,
    g: ChunkGrid,
    index: int,
    done: Seq<ChunkInfoModel>,
    os: u8,
    sw: int,
)
    requires
        crate::utils::is_width(os),
        0 <= sw <= 8,
        0 <= k <= ss.len(),
        h.client_id != 0 ==> h.element_size == os + sw + 4,
        h.client_id == 0 ==> g.bytes <= u32::MAX,
        0 <= g.bytes,
        forall|i: int| 0 <= i < ss.len() ==> is_slot(#[trigger] ss[i], h.client_id != 0, os, sw),
        places::stands(d, p, slots_bytes(ss, h.client_id != 0, k, os, sw)),
    ensures
        extensible_array::ea_elements_at(d, p, h, os, g, index + k, ss.len() - k, done) == Ok::<
            Seq<ChunkInfoModel>,
            ErrorModel,
        >(
            done + listings::present(
                chunks_in(ss, h.client_id != 0, g, index).subrange(k, ss.len() as int),
            ),
        ),
    decreases ss.len() - k,
{
    let filtered = h.client_id != 0;
    let items = chunks_in(ss, filtered, g, index);
    let n = ss.len() as int;
    if k < n {
        let s = ss[k];
        let b = slot_bytes(s, filtered, os, sw);
        places::lemma_parts(d, p, b, slots_bytes(ss, filtered, k + 1, os, sw));
        assert(is_slot(s, filtered, os, sw));
        lemma_slot(d, p, s, filtered, os, sw);
        lemma_present_front(items, k);
        let width = extensible_array::ea_width(h.client_id, h.element_size, os);
        assert(b.len() == width);
        assert(items[k] == chunk_in(s, filtered, g, index + k));
        let more = match items[k] {
            Some(c) => done.push(c),
            None => done,
        };
        assert(extensible_array::ea_element_at(
            d,
            p,
            h.client_id,
            h.element_size,
            os,
            g,
            index + k,
        ) == Ok::<Option<ChunkInfoModel>, ErrorModel>(items[k]));
        lemma_extensible_slots(d, p + width, h, ss, k + 1, g, index, more, os, sw);
        let rest = listings::present(items.subrange(k + 1, n));
        match items[k] {
            Some(c) => {
                assert(done.push(c) + rest =~= done + (seq![c] + rest));
            },
            None => {
                assert(done + rest =~= done + (Seq::empty() + rest));
            },
        }
    } else {
        assert(items.subrange(k, n) =~= Seq::empty());
        assert(done + listings::present(items.subrange(k, n)) =~= done);
    }
}

/// Elements of an extensible array that stand one behind the other list the chunks that they stand
/// for, in their order, each with the place in the grid that its number has.
pub proof fn law_extensible_elements_are_read_back(
    d: Seq<u8>,
    p: int,
    h: ExtensibleArrayHeader,
    ss: Seq<Slot>,
    g: ChunkGrid,
    index: int,
    os: u8,
    sw: int,
)
    requires
        crate::utils::is_width(os),
        0 <= sw <= 8,
        h.client_id != 0 ==> h.element_size == os + sw + 4,
        h.client_id == 0 ==> g.bytes <= u32::MAX,
        0 <= g.bytes,
        forall|i: int| 0 <= i < ss.len() ==> is_slot(#[trigger] ss[i], h.client_id != 0, os, sw),
        places::stands(d, p, slots_bytes(ss, h.client_id != 0, 0, os, sw)),
    ensures
        extensible_array::ea_elements_at(
            d,
            p,
            h,
            os,
            g,
            index,
            ss.len() as int,
            Seq::empty(),
        ) == Ok::<Seq<ChunkInfoModel>, ErrorModel>(
            listings::present(chunks_in(ss, h.client_id != 0, g, index)),
        ),
{
    let items = chunks_in(ss, h.client_id != 0, g, index);
    let none = Seq::<ChunkInfoModel>::empty();
    lemma_extensible_slots(d, p, h, ss, 0, g, index, none, os, sw);
    assert(items.subrange(0, ss.len() as int) =~= items);
    assert(none + listings::present(items) =~= listings::present(items));
}

#[verifier::spinoff_prover]
#[verifier::rlimit(40)]
proof fn lemma_fixed_slots(
    d: Seq<u8>,
    p: int,
    h: FixedArrayHeader,
    ss: Seq<Slot>,
    k: int,
    g: ChunkGrid,
    done: Seq<ChunkInfoModel>,
    os: u8,
    sw: int,
)
    requires
        crate::utils::is_width(os),
        0 <= sw <= 8,
        0 <= k <= ss.len(),
        h.client_id != 0 ==> h.element_size == os + sw + 4,
        h.client_id == 0 ==> g.bytes <= u32::MAX,
        0 <= g.bytes,
        forall|i: int| 0 <= i < ss.len() ==> is_slot(#[trigger] ss[i], h.client_id != 0, os, sw),
        places::stands(d, p, slots_bytes(ss, h.client_id != 0, k, os, sw)),
    ensures
        fixed_array::fixed_elements_at(d, p, h, os, g, k, ss.len() as int, done) == Ok::<
            Seq<ChunkInfoModel>,
            ErrorModel,
        >(
            done + listings::present(
                chunks_in(ss, h.client_id != 0, g, 0).subrange(k, ss.len() as int),
            ),
        ),
    decreases ss.len() - k,
{
    let filtered = h.client_id != 0;
    let items = chunks_in(ss, filtered, g, 0);
    let n = ss.len() as int;
    if k < n {
        let s = ss[k];
        let b = slot_bytes(s, filtered, os, sw);
        places::lemma_parts(d, p, b, slots_bytes(ss, filtered, k + 1, os, sw));
        assert(is_slot(s, filtered, os, sw));
        lemma_slot(d, p, s, filtered, os, sw);
        lemma_present_front(items, k);
        let width = fixed_array::element_width(h, os);
        assert(b.len() == width);
        assert(items[k] == chunk_in(s, filtered, g, k));
        let more = match items[k] {
            Some(c) => done.push(c),
            None => done,
        };
        assert(fixed_array::fixed_element_at(d, p, h, os, g, k) == Ok::<
            Option<ChunkInfoModel>,
            ErrorModel,
        >(items[k]));
        lemma_fixed_slots(d, p + width, h, ss, k + 1, g, more, os, sw);
        let rest = listings::present(items.subrange(k + 1, n));
        match items[k] {
            Some(c) => {
                assert(done.push(c) + rest =~= done + (seq![c] + rest));
            },
            None => {
                assert(done + rest =~= done + (Seq::empty() + rest));
            },
        }
    } else {
        assert(items.subrange(k, n) =~= Seq::empty());
        assert(done + listings::present(items.subrange(k, n)) =~= done);
    }
}

/// A fixed array lists the chunks that the elements of its data block stand for, in their order,
/// each with the place in the grid that its number has.
pub proof fn law_fixed_array_is_read_back(
    d: Seq<u8>,
    h: FixedArrayHeader,
    kind: Seq<u8>,
    ss: Seq<Slot>,
    dims: Seq<u64>,
    chunk: Seq<u32>,
    size: u32,
    os: u8,
    sw: int,
)
    requires
        crate::utils::is_width(os),
        0 <= sw <= 8,
        d.len() <= usize::MAX,
        h.data_block_address <= usize::MAX,
        h.client_id != 0 ==> h.element_size == os + sw + 4,
        h.client_id == 0 ==> fixed_array::grid_of(dims, chunk, size).bytes <= u32::MAX,
        h.num_elements == ss.len() <= usize::MAX,
        ss.len() <= pow2(h.max_nelmts_bits as nat),
        forall|i: int| 0 <= i < ss.len() ==> is_slot(#[trigger] ss[i], h.client_id != 0, os, sw),
        kind.len() == 2 + os,
        places::stands(
            d,
            h.data_block_address as int,
            seq![0x46u8, 0x41, 0x44, 0x42] + (kind + slots_bytes(
                ss,
                h.client_id != 0,
                0,
                os,
                sw,
            )),
        ),
    ensures
        fixed_array::fixed_chunks(d, h, dims, chunk, size, os) == Ok::<
            Seq<ChunkInfoModel>,
            ErrorModel,
        >(
            listings::present(
                chunks_in(
                    ss,
                    h.client_id != 0,
                    fixed_array::grid_of(dims, chunk, size),
                    0,
                ),
            ),
        ),
{
    let g = fixed_array::grid_of(dims, chunk, size);
    let p = h.data_block_address as int;
    let tag = seq![0x46u8, 0x41, 0x44, 0x42];
    let all = slots_bytes(ss, h.client_id != 0, 0, os, sw);
    places::lemma_parts(d, p, tag, kind + all);
    places::lemma_tag(d, p, tag);
    assert(tag == fixed_array::fadb());
    places::lemma_parts(d, p + 4, kind, all);
    let none = Seq::<ChunkInfoModel>::empty();
    let items = chunks_in(ss, h.client_id != 0, g, 0);
    lemma_fixed_slots(d, p + 6 + os, h, ss, 0, g, none, os, sw);
    assert(items.subrange(0, ss.len() as int) =~= items);
    assert(none + listings::present(items) =~= listings::present(items));
}

// ---- Blocks ----

/// Where block `i` starts among the elements: behind those of all blocks before it, whether they are
/// there or not.
pub open spec fn block_start(sizes: Seq<usize>, i: int) -> int
    decreases i,
{
    if i <= 0 {
        0
    } else {
        block_start(sizes, i - 1) + sizes[i - 1]
    }
}

/// What each block lists: nothing if its address is undefined.
pub open spec fn are_blocks(
    d: Seq<u8>,
    addresses: Seq<u64>,
    sizes: Seq<usize>,
    h: ExtensibleArrayHeader,
    os: u8,
    g: ChunkGrid,
    index: int,
    found: Seq<Seq<ChunkInfoModel>>,
) -> bool {
    &&& found.len() == addresses.len()
    &&& addresses.len() <= sizes.len()
    &&& forall|i: int|
        0 <= i < addresses.len() ==> if addresses[i] + 1 == bytes::pow256(os as nat) {
            (#[trigger] found[i]).len() == 0
        } else {
            addresses[i] <= usize::MAX && extensible_array::ea_block_at(
                d,
                addresses[i] as int,
                sizes[i] as int,
                h,
                os,
                g,
                index + block_start(sizes, i),
            ) == Ok::<Seq<ChunkInfoModel>, ErrorModel>(found[i])
        }
}

proof fn lemma_blocks(
    d: Seq<u8>,
    addresses: Seq<u64>,
    sizes: Seq<usize>,
    i: int,
    h: ExtensibleArrayHeader,
    os: u8,
    g: ChunkGrid,
    index: int,
    found: Seq<Seq<ChunkInfoModel>>,
    done: Seq<ChunkInfoModel>,
)
    requires
        os == 2 || os == 4 || os == 8,
        0 <= i <= addresses.len(),
        are_blocks(d, addresses, sizes, h, os, g, index, found),
    ensures
        extensible_array::ea_blocks(
            d,
            addresses,
            sizes,
            i,
            h,
            os,
            g,
            index + block_start(sizes, i),
            done,
        ) == Ok::<Seq<ChunkInfoModel>, ErrorModel>(
            done + found.subrange(i, found.len() as int).flatten(),
        ),
    decreases addresses.len() - i,
{
    let n = found.len() as int;
    bytes::lemma_pow256_values();
    let tail = found.subrange(i, n);
    if i < addresses.len() {
        let rest = found.subrange(i + 1, n);
        assert(tail.first() == found[i]);
        assert(tail.drop_first() =~= rest);
        let all = done + found[i];
        if addresses[i] + 1 == bytes::pow256(os as nat) {
            assert(all =~= done);
        }
        lemma_blocks(d, addresses, sizes, i + 1, h, os, g, index, found, all);
        assert(all + rest.flatten() =~= done + (found[i] + rest.flatten()));
    } else {
        assert(tail =~= Seq::empty());
        assert(done + tail.flatten() =~= done);
    }
}

/// Data blocks list what each of them lists, one after the other. A block that is not there counts
/// as many elements as one that is.
pub proof fn law_blocks_are_listed_in_order(
    d: Seq<u8>,
    addresses: Seq<u64>,
    sizes: Seq<usize>,
    h: ExtensibleArrayHeader,
    os: u8,
    g: ChunkGrid,
    index: int,
    found: Seq<Seq<ChunkInfoModel>>,
    done: Seq<ChunkInfoModel>,
)
    requires
        os == 2 || os == 4 || os == 8,
        are_blocks(d, addresses, sizes, h, os, g, index, found),
    ensures
        extensible_array::ea_blocks(d, addresses, sizes, 0, h, os, g, index, done) == Ok::<
            Seq<ChunkInfoModel>,
            ErrorModel,
        >(done + found.flatten()),
{
    lemma_blocks(d, addresses, sizes, 0, h, os, g, index, found, done);
    assert(found.subrange(0, found.len() as int) =~= found);
}

/// A data block that fits in one page lists the elements that stand behind its tag, two bytes of
/// version and kind, the address of the header, and the number of its first element.
pub proof fn law_unpaged_block_lists_its_elements(
    d: Seq<u8>,
    at: int,
    kind: Seq<u8>,
    offset_bytes: int,
    h: ExtensibleArrayHeader,
    ss: Seq<Slot>,
    g: ChunkGrid,
    index: int,
    os: u8,
    sw: int,
)
    requires
        crate::utils::is_width(os),
        0 <= sw <= 8,
        crate::array_pages::is_cover(offset_bytes, h.max_nelmts_bits as int, 8),
        kind.len() == 2 + os + offset_bytes,
        ss.len() <= pow2(h.max_nelmts_bits as nat),
        h.client_id != 0 ==> h.element_size == os + sw + 4,
        h.client_id == 0 ==> g.bytes <= u32::MAX,
        0 <= g.bytes,
        forall|i: int| 0 <= i < ss.len() ==> is_slot(#[trigger] ss[i], h.client_id != 0, os, sw),
        places::stands(
            d,
            at,
            seq![0x45u8, 0x41, 0x44, 0x42] + (kind + slots_bytes(
                ss,
                h.client_id != 0,
                0,
                os,
                sw,
            )),
        ),
    ensures
        extensible_array::ea_block_at(d, at, ss.len() as int, h, os, g, index) == Ok::<
            Seq<ChunkInfoModel>,
            ErrorModel,
        >(listings::present(chunks_in(ss, h.client_id != 0, g, index))),
{
    let tag = seq![0x45u8, 0x41, 0x44, 0x42];
    let all = slots_bytes(ss, h.client_id != 0, 0, os, sw);
    places::lemma_parts(d, at, tag, kind + all);
    places::lemma_tag(d, at, tag);
    assert(tag == extensible_array::eadb());
    places::lemma_parts(d, at + 4, kind, all);
    crate::array_pages::lemma_cover(offset_bytes, h.max_nelmts_bits as int, 8);
    law_extensible_elements_are_read_back(
        d,
        at + 6 + os + offset_bytes,
        h,
        ss,
        g,
        index,
        os,
        sw,
    );
}

/// A super block lists what its data blocks list: their addresses stand behind its tag, two bytes of
/// version and kind, and the address of the header, and each of them has room for the same number of
/// elements.
pub proof fn law_super_block_lists_its_blocks(
    d: Seq<u8>,
    at: int,
    kind: Seq<u8>,
    addresses: Seq<u64>,
    size: usize,
    h: ExtensibleArrayHeader,
    os: u8,
    g: ChunkGrid,
    index: int,
    found: Seq<Seq<ChunkInfoModel>>,
)
    requires
        os == 2 || os == 4 || os == 8,
        kind.len() == 2 + os,
        addresses.len() <= usize::MAX,
        crate::group_tree::are_fields(addresses, os),
        places::stands(
            d,
            at,
            seq![0x45u8, 0x41, 0x53, 0x42] + (kind + crate::chunk_tree::offsets_bytes(
                addresses,
                0,
                os,
            )),
        ),
        are_blocks(
            d,
            addresses,
            Seq::new(addresses.len(), |i: int| size),
            h,
            os,
            g,
            index,
            found,
        ),
    ensures
        extensible_array::ea_super_at(d, at, addresses.len() as usize, size, h, os, g, index)
            == Ok::<Seq<ChunkInfoModel>, ErrorModel>(found.flatten()),
{
    let tag = seq![0x45u8, 0x41, 0x53, 0x42];
    let all = crate::chunk_tree::offsets_bytes(addresses, 0, os);
    places::lemma_parts(d, at, tag, kind + all);
    places::lemma_tag(d, at, tag);
    assert(tag == extensible_array::easb());
    places::lemma_parts(d, at + 4, kind, all);
    lemma_addresses(d, at + 6 + os, addresses, 0, os);
    assert(addresses.take(0) =~= Seq::<u64>::empty());
    let none = Seq::<ChunkInfoModel>::empty();
    let sizes = Seq::new(addresses.len(), |i: int| size);
    assert(sizes =~= extensible_array::equal_sizes(addresses.len(), size));
    law_blocks_are_listed_in_order(d, addresses, sizes, h, os, g, index, found, none);
    assert(none + found.flatten() =~= found.flatten());
}

pub proof fn lemma_addresses(d: Seq<u8>, p: int, addresses: Seq<u64>, k: int, os: u8)
    requires
        crate::utils::is_width(os),
        0 <= k <= addresses.len(),
        crate::group_tree::are_fields(addresses, os),
        places::stands(d, p, crate::chunk_tree::offsets_bytes(addresses, k, os)),
    ensures
        extensible_array::addresses_at(d, p, os, addresses.len() - k, addresses.take(k)) == Ok::<
            Seq<u64>,
            ErrorModel,
        >(addresses),
    decreases addresses.len() - k,
{
    if k < addresses.len() {
        let b = places::field(addresses[k] as int, os as int);
        places::lemma_field_len(addresses[k] as int, os as int);
        assert(addresses[k] < bytes::pow256(os as nat));
        places::lemma_parts(d, p, b, crate::chunk_tree::offsets_bytes(addresses, k + 1, os));
        places::lemma_word(d, p, addresses[k] as int, os);
        assert(addresses.take(k).push(addresses[k]) =~= addresses.take(k + 1));
        lemma_addresses(d, p + os, addresses, k + 1, os);
    } else {
        assert(addresses.take(k) =~= addresses);
    }
}

/// The number of data blocks that the super blocks before the `k`-th have.
pub open spec fn blocks_before(k: int) -> int
    decreases k,
{
    if k <= 0 {
        0
    } else {
        blocks_before(k - 1) + pow2(((k - 1) / 2) as nat)
    }
}

proof fn lemma_direct(k: int, j: int, from: int, levels: int, min: int)
    requires
        0 <= from <= k < levels,
        0 <= j < pow2((k / 2) as nat),
    ensures
        0 <= blocks_before(k) - blocks_before(from) + j < extensible_array::direct_sizes(
            from,
            levels,
            min,
        ).len(),
        extensible_array::direct_sizes(from, levels, min)[blocks_before(k) - blocks_before(from)
            + j] == (min * pow2(((k + 1) / 2) as nat)) as usize,
    decreases k - from,
{
    let n = pow2((from / 2) as nat) as int;
    let rest = extensible_array::direct_sizes(from + 1, levels, min);
    let first = extensible_array::equal_sizes(
        extensible_array::super_count(from),
        extensible_array::super_size(from, min) as usize,
    );
    assert(extensible_array::direct_sizes(from, levels, min) == first + rest);
    assert(first.len() == n);
    assert(blocks_before(from + 1) == blocks_before(from) + n);
    if from < k {
        lemma_direct(k, j, from + 1, levels, min);
    }
}

/// The data blocks whose addresses stand in the index block are those of the first super blocks.
/// Super block `k` has `2^(k/2)` data blocks, and each of them room for `2^((k+1)/2)` times as many
/// elements as the smallest one.
pub proof fn law_sizes_of_direct_blocks(h: ExtensibleArrayHeader, k: int, j: int)
    requires
        0 <= k < h.super_blk_min_nelmts,
        0 <= j < pow2((k / 2) as nat),
    ensures
        0 <= blocks_before(k) + j < extensible_array::listed_sizes(h).len(),
        extensible_array::listed_sizes(h)[blocks_before(k) + j] == (h.min_dblk_nelmts * pow2(
            ((k + 1) / 2) as nat,
        )) as usize,
{
    lemma_direct(k, j, 0, h.super_blk_min_nelmts as int, h.min_dblk_nelmts as int);
}

} // verus!
