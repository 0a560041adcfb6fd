//! The arrays that are written to index chunks.

use vstd::prelude::*;
use crate::bytes;
use crate::checksum;
use crate::chunked_write::{self, ChunkOptions, WrittenChunk};
use crate::extensible_array::ExtensibleArrayHeader;
use crate::fixed_array::FixedArrayHeader;
use crate::index_slots::{self, Slot};
use crate::places;

verus! {

/// Bytes with their checksum behind them.
pub open spec fn sealed(b: Seq<u8>) -> Seq<u8> {
    b + places::field(checksum::lookup3(b) as int, 4)
}

/// The element that stands for chunk `i`, or for none behind the last chunk.
pub open spec fn slot_of(chunks: Seq<WrittenChunk>, i: int) -> Slot {
    if 0 <= i < chunks.len() {
        Slot {
            address: Some(chunks[i].address),
            size: chunks[i].compressed_size as u32,
            mask: chunks[i].filter_mask,
        }
    } else {
        Slot { address: None, size: 0, mask: 0 }
    }
}

/// The `count` elements from the `from`-th on.
pub open spec fn slots_of(chunks: Seq<WrittenChunk>, from: int, count: int) -> Seq<Slot> {
    Seq::new(count as nat, |i: int| slot_of(chunks, from + i))
}

/// Whether the sizes of all chunks fit in 32 bits.
pub open spec fn are_small(chunks: Seq<WrittenChunk>) -> bool {
    forall|i: int| 0 <= i < chunks.len() ==> (#[trigger] chunks[i]).compressed_size <= u32::MAX
}

proof fn lemma_zero_field(n: nat)
    ensures
        bytes::le_bytes(0, n) == Seq::new(n, |i: int| 0u8),
    decreases n,
{
    if n > 0 {
        lemma_zero_field((n - 1) as nat);
        assert(bytes::le_bytes(0, n) =~= Seq::new(n, |i: int| 0u8));
    } else {
        assert(bytes::le_bytes(0, n) =~= Seq::new(n, |i: int| 0u8));
    }
}

proof fn lemma_element(chunks: Seq<WrittenChunk>, i: int, os: u8, filtered: bool, width: nat)
    requires
        0 <= i,
        are_small(chunks),
    ensures
        (if i < chunks.len() {
            chunked_write::chunk_element(chunks[i], os, filtered, width)
        } else {
            chunked_write::undefined_element(os, filtered, width)
        }) == index_slots::slot_bytes(slot_of(chunks, i), filtered, os, width as int),
{
    let s = slot_of(chunks, i);
    let b = index_slots::slot_bytes(s, filtered, os, width as int);
    if i < chunks.len() {
        assert(chunks[i].compressed_size <= u32::MAX);
        if !filtered {
            assert(places::address(s.address, os) + Seq::<u8>::empty() =~= places::address(
                s.address,
                os,
            ));
        }
    } else {
        lemma_zero_field(width);
        lemma_zero_field(4);
        let none = Seq::new(os as nat, |i: int| 0xFFu8);
        if filtered {
            assert(Seq::new(width, |i: int| 0u8) + Seq::new(4, |i: int| 0u8) =~= Seq::new(
                width + 4,
                |i: int| 0u8,
            ));
        } else {
            assert(none + Seq::<u8>::empty() =~= none);
        }
    }
}

proof fn lemma_elements(
    chunks: Seq<WrittenChunk>,
    from: int,
    k: int,
    count: int,
    os: u8,
    filtered: bool,
    width: nat,
)
    requires
        0 <= from,
        0 <= k <= count,
        are_small(chunks),
    ensures
        chunked_write::elements_bytes(chunks, from + k, count - k, os, filtered, width)
            == index_slots::slots_bytes(
            slots_of(chunks, from, count),
            filtered,
            k,
            os,
            width as int,
        ),
    decreases count - k,
{
    if k < count {
        lemma_elements(chunks, from, k + 1, count, os, filtered, width);
        lemma_element(chunks, from + k, os, filtered, width);
        assert(slots_of(chunks, from, count)[k] == slot_of(chunks, from + k));
    }
}

/// A fixed array is written as its header and its data block, each with its checksum. The header
/// says where the data block is, which is behind it, and the data block where the header is. The
/// elements are the chunks in their order.
#[verifier::spinoff_prover]
#[verifier::rlimit(40)]
pub proof fn law_written_fixed_array(
    chunks: Seq<WrittenChunk>,
    os: u8,
    ls: u8,
    filtered: bool,
    base: u64,
    h: FixedArrayHeader,
    sw: nat,
)
    requires
        are_small(chunks),
        chunks.len() <= u64::MAX,
        sw == chunked_write::size_bytes(chunks, filtered),
        base + 12 + ls + os <= u64::MAX,
        h.client_id == if filtered {
            1u8
        } else {
            0u8
        },
        h.element_size == if filtered {
            os + sw + 4
        } else {
            os as int
        },
        h.max_nelmts_bits == 10,
        h.num_elements == chunks.len(),
        h.data_block_address == base + 12 + ls + os,
    ensures
        chunked_write::fixed_array_bytes(chunks, os, ls, filtered, base) == sealed(
            index_slots::fixed_header_bytes(h, Seq::empty(), os, ls),
        ) + sealed(
            seq![0x46u8, 0x41, 0x44, 0x42] + (seq![0u8, h.client_id] + (places::field(
                base as int,
                os as int,
            ) + index_slots::slots_bytes(
                slots_of(chunks, 0, chunks.len() as int),
                filtered,
                0,
                os,
                sw as int,
            ))),
        ),
{
    let n = chunks.len() as int;
    lemma_elements(chunks, 0, 0, n, os, filtered, sw);
    let slots = index_slots::slots_bytes(slots_of(chunks, 0, n), filtered, 0, os, sw as int);
    let tag = seq![0x46u8, 0x41, 0x48, 0x44];
    let front = seq![0u8, h.client_id, h.element_size, h.max_nelmts_bits];
    let a = places::field(h.num_elements as int, ls as int);
    let b = places::field(h.data_block_address as int, os as int);
    assert(crate::fixed_array::fahd() =~= tag);
    assert(front =~= seq![
        0u8,
        chunked_write::client(filtered),
        chunked_write::element_bytes(chunks, os, filtered) as u8,
        10u8,
    ]);
    assert(crate::fixed_array::fahd() + seq![
        0u8,
        chunked_write::client(filtered),
        chunked_write::element_bytes(chunks, os, filtered) as u8,
        10u8,
    ] + a + b =~= tag + (front + (a + (b + Seq::empty()))));
    let tag2 = seq![0x46u8, 0x41, 0x44, 0x42];
    let kind = seq![0u8, h.client_id];
    let owner = places::field(base as int, os as int);
    assert(crate::fixed_array::fadb() =~= tag2);
    assert(crate::fixed_array::fadb() + seq![0u8, chunked_write::client(filtered)] + owner + slots
        =~= tag2 + (kind + (owner + slots)));
}

/// A data block of an extensible array is written with its checksum: it says where the header is and
/// how many elements of data blocks stand before it, and holds its elements in their order,
/// undefined ones behind the last chunk.
#[verifier::spinoff_prover]
#[verifier::rlimit(40)]
pub proof fn law_written_data_block(
    chunks: Seq<WrittenChunk>,
    from: int,
    count: int,
    os: u8,
    filtered: bool,
    base: u64,
    sw: nat,
)
    requires
        are_small(chunks),
        4 <= from,
        0 <= count,
        sw == chunked_write::size_bytes(chunks, filtered),
    ensures
        chunked_write::block_bytes(chunks, from, count, os, filtered, base) == sealed(
            seq![0x45u8, 0x41, 0x44, 0x42] + (seq![
                0u8,
                if filtered {
                    1u8
                } else {
                    0u8
                },
            ] + (places::field(base as int, os as int) + (places::field(from - 4, 4)
                + index_slots::slots_bytes(
                slots_of(chunks, from, count),
                filtered,
                0,
                os,
                sw as int,
            )))),
        ),
{
    reveal(chunked_write::block_bytes);
    lemma_elements(chunks, from, 0, count, os, filtered, sw);
    let slots = index_slots::slots_bytes(slots_of(chunks, from, count), filtered, 0, os, sw as int);
    let tag = seq![0x45u8, 0x41, 0x44, 0x42];
    let kind = seq![
        0u8,
        if filtered {
            1u8
        } else {
            0u8
        },
    ];
    let owner = places::field(base as int, os as int);
    let at = places::field(from - 4, 4);
    assert(crate::extensible_array::eadb() =~= tag);
    assert(kind =~= seq![0u8, chunked_write::client(filtered)]);
    assert(crate::extensible_array::eadb() + seq![0u8, chunked_write::client(filtered)] + owner + at
        + slots =~= tag + (kind + (owner + (at + slots))));
}

/// The header of an extensible array is written with its checksum. It says where the index block
/// is, which is behind it, and how many elements there are.
#[verifier::spinoff_prover]
#[verifier::rlimit(40)]
pub proof fn law_written_array_header(
    chunks: Seq<WrittenChunk>,
    os: u8,
    ls: u8,
    filtered: bool,
    base: u64,
    h: ExtensibleArrayHeader,
)
    requires
        chunks.len() <= u64::MAX,
        base + 16 + 6 * ls + os <= u64::MAX,
        h.client_id == if filtered {
            1u8
        } else {
            0u8
        },
        h.element_size == if filtered {
            os + chunked_write::size_bytes(chunks, filtered) + 4
        } else {
            os as int
        },
        h.max_nelmts_bits == 32,
        h.idx_blk_elmts == 4,
        h.min_dblk_nelmts == 16,
        h.super_blk_min_nelmts == 4,
        h.max_dblk_nelmts_bits == 10,
        h.num_elements == chunks.len(),
        h.index_block_address == base + 16 + 6 * ls + os,
    ensures
        exists|counts: Seq<u8>, last: Seq<u8>|
            counts.len() == 4 * ls && last.len() == ls
                && chunked_write::extensible_header_bytes(chunks, os, ls, filtered, base) == sealed(
                #[trigger] index_slots::extensible_header_bytes(
                    h,
                    counts,
                    last,
                    Seq::empty(),
                    os,
                    ls,
                ),
            ),
{
    let n = chunks.len() as int;
    let size = chunked_write::element_bytes(chunks, os, filtered);
    let blocks = chunked_write::all_blocks(n, chunked_write::SUPER_BLOCKS as int);
    let elements = chunked_write::all_elements(n, chunked_write::SUPER_BLOCKS as int);
    let c1 = bytes::le_bytes(0, ls as nat);
    let c2 = bytes::le_bytes(blocks, ls as nat);
    let c3 = bytes::le_bytes(blocks * (10 + os as nat) + elements * size, ls as nat);
    let last = bytes::le_bytes(4 + elements, ls as nat);
    bytes::lemma_le_bytes_len(0, ls as nat);
    bytes::lemma_le_bytes_len(blocks, ls as nat);
    bytes::lemma_le_bytes_len(blocks * (10 + os as nat) + elements * size, ls as nat);
    bytes::lemma_le_bytes_len(4 + elements, ls as nat);
    let counts = c1 + c1 + c2 + c3;
    let tag = seq![0x45u8, 0x41, 0x48, 0x44];
    let front = seq![
        0u8,
        h.client_id,
        h.element_size,
        h.max_nelmts_bits,
        h.idx_blk_elmts,
        h.min_dblk_nelmts,
        h.super_blk_min_nelmts,
        h.max_dblk_nelmts_bits,
    ];
    let a = places::field(h.num_elements as int, ls as int);
    let b = places::field(h.index_block_address as int, os as int);
    assert(crate::extensible_array::eahd() =~= tag);
    let written = seq![
        0u8,
        chunked_write::client(filtered),
        size as u8,
        32u8,
        4u8,
        16u8,
        4u8,
        10u8,
    ];
    assert(front =~= written);
    assert(crate::extensible_array::eahd() + written + c1 + c1 + c2 + c3 + a + last + b =~= tag + (
    front + (counts + (a + (last + (b + Seq::empty()))))));
    assert(crate::extensible_array::header_size(os, ls) == 16 + 6 * ls + os);
    assert(chunked_write::extensible_header_bytes(chunks, os, ls, filtered, base) == sealed(
        index_slots::extensible_header_bytes(h, counts, last, Seq::empty(), os, ls),
    ));
}

/// The filters that options ask for: shuffling with the size of an element, then deflate with its
/// level, then the checksum, each of them if and only if it is asked for.
pub proof fn law_filters_of_options(options: ChunkOptions, size: u32)
    ensures
        ({
            let fs = options.filters(size);
            let s: int = if options.shuffle {
                1
            } else {
                0
            };
            let d: int = if options.deflate_level is Some {
                1
            } else {
                0
            };
            let f: int = if options.fletcher32 {
                1
            } else {
                0
            };
            &&& fs.len() == s + d + f
            &&& options.shuffle ==> fs[0].filter_id == 2 && fs[0].client_data.len() == 1
                && fs[0].client_data[0] == size
            &&& options.deflate_level matches Some(level) ==> fs[s].filter_id == 1
                && fs[s].client_data.len() == 1 && fs[s].client_data[0] == level
            &&& options.fletcher32 ==> fs[s + d].filter_id == 3 && fs[s + d].client_data.len() == 0
            &&& forall|i: int|
                0 <= i < fs.len() ==> (#[trigger] fs[i]).name is None && fs[i].flags == 0
            &&& options.pipeline(size) is None <==> fs.len() == 0
            &&& options.pipeline(size) matches Some(p) ==> p.filters == fs && p.version == 2
        }),
{
}

} // verus!
