//! What is written in the blocks of an extensible array is read from them.

use vstd::prelude::*;
use vstd::arithmetic::power2::pow2;
use crate::bytes;
use crate::chunk_cache::ChunkInfoModel;
use crate::chunk_tree;
use crate::chunked_read::ChunkedModel;
use crate::error::ErrorModel;
use crate::extensible_array::{self, ExtensibleArrayHeader};
use crate::fixed_array::{self, ChunkGrid, FixedArrayHeader};
use crate::group_tree;
use crate::index_slots::{self, Slot};
use crate::listings;
use crate::places;

verus! {

// ---- The layout ----

proof fn lemma_direct_len(from: int, levels: int, min: int)
    requires
        0 <= from <= levels,
    ensures
        extensible_array::direct_sizes(from, levels, min).len() == index_slots::blocks_before(levels)
            - index_slots::blocks_before(from),
    decreases levels - from,
{
    if from < levels {
        lemma_direct_len(from + 1, levels, min);
        assert(index_slots::blocks_before(from + 1) == index_slots::blocks_before(from) + pow2(
            (from / 2) as nat,
        ));
    }
}

/// The index block has the addresses of all data blocks of the first super blocks, and of no other.
pub proof fn law_number_of_direct_blocks(h: ExtensibleArrayHeader)
    ensures
        extensible_array::listed_sizes(h).len() == index_slots::blocks_before(
            h.super_blk_min_nelmts as int,
        ),
{
    lemma_direct_len(0, h.super_blk_min_nelmts as int, h.min_dblk_nelmts as int);
}

/// The number of elements of the `n` super blocks from the `k`-th on: super block `k` has `2^(k/2)`
/// data blocks with `min * 2^((k+1)/2)` elements each.
pub open spec fn elements_from(k: int, min: int, n: int) -> int
    decreases n,
{
    if n <= 0 {
        0
    } else {
        elements_from(k, min, n - 1) + pow2(((k + n - 1) / 2) as nat) * (min * pow2(
            ((k + n) / 2) as nat,
        ))
    }
}

proof fn lemma_from_next(k: int, min: int, n: int)
    requires
        n >= 1,
        k >= 0,
    ensures
        elements_from(k, min, n) == pow2((k / 2) as nat) * (min * pow2(((k + 1) / 2) as nat))
            + elements_from(k + 1, min, n - 1),
    decreases n,
{
    reveal_with_fuel(elements_from, 2);
    if n > 1 {
        lemma_from_next(k, min, n - 1);
        assert(k + 1 + (n - 1) - 1 == k + n - 1);
        assert(k + 1 + (n - 1) == k + n);
    }
}

proof fn lemma_layout(k: int, min: int, covered: int, remaining: int, j: int)
    requires
        k >= 0,
        min > 0,
        0 <= j < extensible_array::super_layout(k, min, covered, remaining).len(),
    ensures
        extensible_array::super_layout(k, min, covered, remaining)[j] == (
            pow2(((k + j) / 2) as nat) as usize,
            (min * pow2(((k + j + 1) / 2) as nat)) as usize,
        ),
        covered + elements_from(k, min, j) < remaining,
    decreases j,
{
    let n = extensible_array::super_count(k) as int;
    let size = extensible_array::super_size(k, min);
    if j > 0 {
        let rest = extensible_array::super_layout(k + 1, min, covered + n * size, remaining);
        lemma_layout(k + 1, min, covered + n * size, remaining, j - 1);
        lemma_from_next(k, min, j);
        assert(k + 1 + (j - 1) == k + j);
    }
}

proof fn lemma_layout_covers(k: int, min: int, covered: int, remaining: int)
    requires
        k >= 0,
        min > 0,
    ensures
        remaining <= covered + elements_from(
            k,
            min,
            extensible_array::super_layout(k, min, covered, remaining).len() as int,
        ),
    decreases extensible_array::uncovered(covered, remaining),
{
    let n = extensible_array::super_count(k) as int;
    let size = extensible_array::super_size(k, min);
    if covered < remaining {
        vstd::arithmetic::power2::lemma_pow2_pos((k / 2) as nat);
        vstd::arithmetic::power2::lemma_pow2_pos(((k + 1) / 2) as nat);
        let p = pow2(((k + 1) / 2) as nat) as int;
        assert(size > 0) by (nonlinear_arith)
            requires
                size == min * p,
                min > 0,
                p > 0,
        ;
        assert(n * size > 0) by (nonlinear_arith)
            requires
                n > 0,
                size > 0,
        ;
        lemma_layout_covers(k + 1, min, covered + n * size, remaining);
        let rest = extensible_array::super_layout(k + 1, min, covered + n * size, remaining);
        lemma_from_next(k, min, rest.len() as int + 1);
    }
}

/// Behind the data blocks of the index block there are as many super blocks as hold the elements
/// that are left, and no more. Super block `k` has `2^(k/2)` data blocks, and each of them room for
/// `2^((k+1)/2)` times as many elements as the smallest one.
pub proof fn law_super_blocks_cover_what_is_left(h: ExtensibleArrayHeader, j: int)
    requires
        h.min_dblk_nelmts > 0,
        h.num_elements <= usize::MAX,
        0 <= j < extensible_array::listed_supers(h).len(),
    ensures
        ({
            let k = h.super_blk_min_nelmts as int;
            let min = h.min_dblk_nelmts as int;
            let n = extensible_array::listed_supers(h).len() as int;
            let left = h.num_elements - h.idx_blk_elmts - index_slots::block_start(
                extensible_array::listed_sizes(h),
                extensible_array::listed_sizes(h).len() as int,
            );
            &&& extensible_array::listed_supers(h)[j] == (
                pow2(((k + j) / 2) as nat) as usize,
                (min * pow2(((k + j + 1) / 2) as nat)) as usize,
            )
            &&& elements_from(k, min, j) < left
            &&& left <= elements_from(k, min, n)
        }),
{
    let sizes = extensible_array::listed_sizes(h);
    lemma_sums(sizes, sizes.len() as int);
    let left = h.num_elements - extensible_array::listed_total(h);
    lemma_layout(h.super_blk_min_nelmts as int, h.min_dblk_nelmts as int, 0, left, j);
    lemma_layout_covers(h.super_blk_min_nelmts as int, h.min_dblk_nelmts as int, 0, left);
}

proof fn lemma_sums(sizes: Seq<usize>, n: int)
    ensures
        index_slots::block_start(sizes, n) == extensible_array::sum_to(sizes, n),
    decreases n,
{
    if n > 0 {
        lemma_sums(sizes, n - 1);
    }
}

// ---- Super blocks ----

/// Where super block `i` starts among the elements of the super blocks.
pub open spec fn super_start(infos: Seq<(usize, usize)>, i: int) -> int
    decreases i,
{
    if i <= 0 {
        0
    } else {
        super_start(infos, i - 1) + infos[i - 1].0 * infos[i - 1].1
    }
}

/// What each super block lists: nothing if its address is undefined.
pub open spec fn are_supers(
    d: Seq<u8>,
    addresses: Seq<u64>,
    infos: Seq<(usize, usize)>,
    h: ExtensibleArrayHeader,
    os: u8,
    g: ChunkGrid,
    index: int,
    found: Seq<Seq<ChunkInfoModel>>,
) -> bool {
    &&& found.len() == addresses.len()
    &&& addresses.len() <= infos.len()
    &&& forall|i: int|
        0 <= i < addresses.len() ==> if addresses[i] + 1 == bytes::pow256(os as nat) {
            (#[trigger] found[i]).len() == 0
        } else {
            addresses[i] <= usize::MAX && extensible_array::ea_super_at(
                d,
                addresses[i] as int,
                infos[i].0,
                infos[i].1,
                h,
                os,
                g,
                index + super_start(infos, i),
            ) == Ok::<Seq<ChunkInfoModel>, ErrorModel>(found[i])
        }
}

proof fn lemma_supers(
    d: Seq<u8>,
    addresses: Seq<u64>,
    infos: Seq<(usize, usize)>,
    i: int,
    h: ExtensibleArrayHeader,
    os: u8,
    g: ChunkGrid,
    index: int,
    found: Seq<Seq<ChunkInfoModel>>,
    done: Seq<ChunkInfoModel>,
)
    requires
        os == 2 || os == 4 || os == 8,
        0 <= i <= addresses.len(),
        are_supers(d, addresses, infos, h, os, g, index, found),
    ensures
        extensible_array::ea_supers(
            d,
            addresses,
            infos,
            i,
            h,
            os,
            g,
            index + super_start(infos, i),
            done,
        ) == Ok::<Seq<ChunkInfoModel>, ErrorModel>(
            done + found.subrange(i, found.len() as int).flatten(),
        ),
    decreases addresses.len() - i,
{
    let n = found.len() as int;
    bytes::lemma_pow256_values();
    let tail = found.subrange(i, n);
    if i < addresses.len() {
        let rest = found.subrange(i + 1, n);
        assert(tail.first() == found[i]);
        assert(tail.drop_first() =~= rest);
        let all = done + found[i];
        if addresses[i] + 1 == bytes::pow256(os as nat) {
            assert(all =~= done);
        }
        lemma_supers(d, addresses, infos, i + 1, h, os, g, index, found, all);
        assert(all + rest.flatten() =~= done + (found[i] + rest.flatten()));
    } else {
        assert(tail =~= Seq::empty());
        assert(done + tail.flatten() =~= done);
    }
}

/// Super blocks list what each of them lists, one after the other. A super block that is not there
/// counts as many elements as one that is.
pub proof fn law_super_blocks_are_listed_in_order(
    d: Seq<u8>,
    addresses: Seq<u64>,
    infos: Seq<(usize, usize)>,
    h: ExtensibleArrayHeader,
    os: u8,
    g: ChunkGrid,
    index: int,
    found: Seq<Seq<ChunkInfoModel>>,
    done: Seq<ChunkInfoModel>,
)
    requires
        os == 2 || os == 4 || os == 8,
        are_supers(d, addresses, infos, h, os, g, index, found),
    ensures
        extensible_array::ea_supers(d, addresses, infos, 0, h, os, g, index, done) == Ok::<
            Seq<ChunkInfoModel>,
            ErrorModel,
        >(done + found.flatten()),
{
    lemma_supers(d, addresses, infos, 0, h, os, g, index, found, done);
    assert(found.subrange(0, found.len() as int) =~= found);
}

// ---- The array ----

proof fn lemma_leading(d: Seq<u8>, p: int, addresses: Seq<u64>, k: int, os: u8)
    requires
        crate::utils::is_width(os),
        0 <= k <= addresses.len(),
        places::stands(d, p, chunk_tree::offsets_bytes(addresses, k, os)),
    ensures
        extensible_array::addresses_in(d, p, os, addresses.len() - k) == addresses.len() - k,
    decreases addresses.len() - k,
{
    if k < addresses.len() {
        let b = places::field(addresses[k] as int, os as int);
        places::lemma_field_len(addresses[k] as int, os as int);
        places::lemma_parts(d, p, b, chunk_tree::offsets_bytes(addresses, k + 1, os));
        lemma_leading(d, p + os, addresses, k + 1, os);
    }
}

proof fn lemma_addresses(d: Seq<u8>, p: int, addresses: Seq<u64>, os: u8)
    requires
        crate::utils::is_width(os),
        group_tree::are_fields(addresses, os),
        places::stands(d, p, chunk_tree::offsets_bytes(addresses, 0, os)),
    ensures
        extensible_array::leading_addresses(d, p, os, addresses.len() as int) == Ok::<
            Seq<u64>,
            ErrorModel,
        >(addresses),
{
    lemma_leading(d, p, addresses, 0, os);
    index_slots::lemma_addresses(d, p, addresses, 0, os);
    assert(addresses.take(0) =~= Seq::<u64>::empty());
}

proof fn lemma_slots_len(ss: Seq<Slot>, filtered: bool, k: int, os: u8, sw: int)
    requires
        0 <= k <= ss.len(),
        0 <= sw,
    ensures
        index_slots::slots_bytes(ss, filtered, k, os, sw).len() == (ss.len() - k) * if filtered {
            os + sw + 4
        } else {
            os as int
        },
    decreases ss.len() - k,
{
    let w = if filtered {
        os + sw + 4
    } else {
        os as int
    };
    if k < ss.len() {
        lemma_slots_len(ss, filtered, k + 1, os, sw);
        places::lemma_address_len(ss[k].address, os);
        places::lemma_field_len(ss[k].size as int, sw);
        places::lemma_field_len(ss[k].mask as int, 4);
        assert(index_slots::slot_bytes(ss[k], filtered, os, sw).len() == w);
        let n = ss.len() - k;
        assert(n * w == w + (n - 1) * w) by (nonlinear_arith);
    } else {
        assert(0 * w == 0);
    }
}

/// An array whose elements all stand in the index block lists the chunks that they stand for.
pub proof fn law_small_array_is_read_back(
    d: Seq<u8>,
    h: ExtensibleArrayHeader,
    kind: Seq<u8>,
    ss: Seq<Slot>,
    dims: Seq<u64>,
    chunk: Seq<u32>,
    size: u32,
    os: u8,
    sw: int,
)
    requires
        crate::utils::is_width(os),
        0 <= sw <= 8,
        h.index_block_address <= usize::MAX,
        h.num_elements == ss.len() <= h.idx_blk_elmts,
        h.client_id != 0 ==> h.element_size == os + sw + 4,
        h.client_id == 0 ==> fixed_array::grid_of(dims, chunk, size).bytes <= u32::MAX,
        forall|i: int|
            0 <= i < ss.len() ==> index_slots::is_slot(#[trigger] ss[i], h.client_id != 0, os, sw),
        kind.len() == 2 + os,
        places::stands(
            d,
            h.index_block_address as int,
            seq![0x45u8, 0x41, 0x49, 0x42] + (kind + index_slots::slots_bytes(
                ss,
                h.client_id != 0,
                0,
                os,
                sw,
            )),
        ),
    ensures
        extensible_array::extensible_chunks(d, h, dims, chunk, size, os) == Ok::<
            Seq<ChunkInfoModel>,
            ErrorModel,
        >(
            listings::present(
                index_slots::chunks_in(
                    ss,
                    h.client_id != 0,
                    fixed_array::grid_of(dims, chunk, size),
                    0,
                ),
            ),
        ),
{
    let g = fixed_array::grid_of(dims, chunk, size);
    let p = h.index_block_address as int;
    let tag = seq![0x45u8, 0x41, 0x49, 0x42];
    let all = index_slots::slots_bytes(ss, h.client_id != 0, 0, os, sw);
    places::lemma_parts(d, p, tag, kind + all);
    places::lemma_tag(d, p, tag);
    assert(tag == extensible_array::eaib());
    places::lemma_parts(d, p + 4, kind, all);
    index_slots::law_extensible_elements_are_read_back(d, p + 6 + os, h, ss, g, 0, os, sw);
}

/// A larger array lists, in their order, the chunks of the elements in the index block, then those of
/// the data blocks whose addresses stand behind these elements, then those of the super blocks whose
/// addresses stand behind the others. The elements are numbered through all of them.
#[verifier::spinoff_prover]
#[verifier::rlimit(60)]
pub proof fn law_large_array_is_read_back(
    d: Seq<u8>,
    h: ExtensibleArrayHeader,
    kind: Seq<u8>,
    ss: Seq<Slot>,
    blocks: Seq<u64>,
    supers: Seq<u64>,
    in_blocks: Seq<Seq<ChunkInfoModel>>,
    in_supers: Seq<Seq<ChunkInfoModel>>,
    dims: Seq<u64>,
    chunk: Seq<u32>,
    size: u32,
    os: u8,
    sw: int,
)
    requires
        os == 2 || os == 4 || os == 8,
        0 <= sw <= 8,
        h.index_block_address <= usize::MAX,
        ss.len() == h.idx_blk_elmts < h.num_elements <= usize::MAX,
        h.client_id != 0 ==> h.element_size == os + sw + 4,
        h.client_id == 0 ==> fixed_array::grid_of(dims, chunk, size).bytes <= u32::MAX,
        forall|i: int|
            0 <= i < ss.len() ==> index_slots::is_slot(#[trigger] ss[i], h.client_id != 0, os, sw),
        kind.len() == 2 + os,
        group_tree::are_fields(blocks, os),
        group_tree::are_fields(supers, os),
        places::stands(
            d,
            h.index_block_address as int,
            seq![0x45u8, 0x41, 0x49, 0x42] + (kind + (index_slots::slots_bytes(
                ss,
                h.client_id != 0,
                0,
                os,
                sw,
            ) + (chunk_tree::offsets_bytes(blocks, 0, os) + chunk_tree::offsets_bytes(
                supers,
                0,
                os,
            )))),
        ),
        blocks.len() == extensible_array::listed_sizes(h).len(),
        index_slots::are_blocks(
            d,
            blocks,
            extensible_array::listed_sizes(h),
            h,
            os,
            fixed_array::grid_of(dims, chunk, size),
            ss.len() as int,
            in_blocks,
        ),
        supers.len() == if h.num_elements <= ss.len() + index_slots::block_start(
            extensible_array::listed_sizes(h),
            blocks.len() as int,
        ) {
            0
        } else {
            extensible_array::listed_supers(h).len()
        },
        are_supers(
            d,
            supers,
            extensible_array::listed_supers(h),
            h,
            os,
            fixed_array::grid_of(dims, chunk, size),
            ss.len() + index_slots::block_start(
                extensible_array::listed_sizes(h),
                blocks.len() as int,
            ),
            in_supers,
        ),
    ensures
        extensible_array::extensible_chunks(d, h, dims, chunk, size, os) == Ok::<
            Seq<ChunkInfoModel>,
            ErrorModel,
        >(
            listings::present(
                index_slots::chunks_in(
                    ss,
                    h.client_id != 0,
                    fixed_array::grid_of(dims, chunk, size),
                    0,
                ),
            ) + in_blocks.flatten() + in_supers.flatten(),
        ),
{
    let g = fixed_array::grid_of(dims, chunk, size);
    let filtered = h.client_id != 0;
    let sizes = extensible_array::listed_sizes(h);
    let p = h.index_block_address as int;
    let tag = seq![0x45u8, 0x41, 0x49, 0x42];
    let all = index_slots::slots_bytes(ss, filtered, 0, os, sw);
    let a = chunk_tree::offsets_bytes(blocks, 0, os);
    let b = chunk_tree::offsets_bytes(supers, 0, os);
    places::lemma_parts(d, p, tag, kind + (all + (a + b)));
    places::lemma_tag(d, p, tag);
    assert(tag == extensible_array::eaib());
    places::lemma_parts(d, p + 4, kind, all + (a + b));
    let q = p + 6 + os;
    places::lemma_parts(d, q, all, a + b);
    index_slots::law_extensible_elements_are_read_back(d, q, h, ss, g, 0, os, sw);
    lemma_slots_len(ss, filtered, 0, os, sw);
    let at = q + all.len() as int;
    assert(at == extensible_array::direct_position(h, os));
    places::lemma_parts(d, at, a, b);
    lemma_addresses(d, at, blocks, os);
    chunk_tree::lemma_offsets_len(blocks, 0, os);
    assert((blocks.len() - 0) * os == blocks.len() * os);
    let found = listings::present(index_slots::chunks_in(ss, filtered, g, 0));
    index_slots::law_blocks_are_listed_in_order(
        d,
        blocks,
        sizes,
        h,
        os,
        g,
        ss.len() as int,
        in_blocks,
        found,
    );
    lemma_sums(sizes, blocks.len() as int);
    let more = found + in_blocks.flatten();
    if h.num_elements <= extensible_array::listed_total(h) {
        assert(in_supers =~= Seq::empty());
        assert(more + in_supers.flatten() =~= more);
    } else {
        lemma_addresses(d, at + a.len(), supers, os);
        law_super_blocks_are_listed_in_order(
            d,
            supers,
            extensible_array::listed_supers(h),
            h,
            os,
            g,
            ss.len() + index_slots::block_start(sizes, blocks.len() as int),
            in_supers,
            more,
        );
    }
}

/// The chunks of a data set whose layout names a fixed array are those that the array lists, and
/// those of one whose layout names an extensible array are those that it lists: the header of the
/// array stands at the address of the layout.
pub proof fn law_layout_names_the_array(
    d: Seq<u8>,
    m: ChunkedModel,
    fixed: FixedArrayHeader,
    extensible: ExtensibleArrayHeader,
    counts: Seq<u8>,
    last: Seq<u8>,
    checksum: Seq<u8>,
)
    requires
        m.version == 4,
        m.address <= usize::MAX,
        crate::utils::is_width(m.os),
        crate::utils::is_width(m.ls),
        counts.len() == 4 * m.ls,
        last.len() == m.ls,
        checksum.len() == 4,
        fixed.num_elements < bytes::pow256(m.ls as nat),
        fixed.data_block_address < bytes::pow256(m.os as nat),
        extensible.num_elements < bytes::pow256(m.ls as nat),
        extensible.index_block_address < bytes::pow256(m.os as nat),
    ensures
        m.index_type == Some(3u8) && places::stands(
            d,
            m.address as int,
            index_slots::fixed_header_bytes(fixed, checksum, m.os, m.ls),
        ) ==> m.chunks(d) == fixed_array::fixed_chunks(d, fixed, m.dims, m.chunk(), m.size, m.os),
        m.index_type == Some(4u8) && places::stands(
            d,
            m.address as int,
            index_slots::extensible_header_bytes(extensible, counts, last, checksum, m.os, m.ls),
        ) ==> m.chunks(d) == extensible_array::extensible_chunks(
            d,
            extensible,
            m.dims,
            m.chunk(),
            m.size,
            m.os,
        ),
{
    let p = m.address as int;
    if m.index_type == Some(3u8) && places::stands(
        d,
        p,
        index_slots::fixed_header_bytes(fixed, checksum, m.os, m.ls),
    ) {
        index_slots::law_fixed_array_header_is_read_back(d, p, fixed, checksum, m.os, m.ls);
    }
    if m.index_type == Some(4u8) && places::stands(
        d,
        p,
        index_slots::extensible_header_bytes(extensible, counts, last, checksum, m.os, m.ls),
    ) {
        index_slots::law_extensible_array_header_is_read_back(
            d,
            p,
            extensible,
            counts,
            last,
            checksum,
            m.os,
            m.ls,
        );
    }
}

/// A data set with a single chunk has it at the address of its layout, and from the first element
/// on. A filtered chunk has the size and the mask of the layout, another one the size of its
/// elements.
pub proof fn law_single_chunk_is_at_the_address(d: Seq<u8>, m: ChunkedModel, words: Seq<usize>)
    requires
        m.version == 4,
        m.index_type == Some(1u8),
        m.chunk_dimensions.len() > 0,
        words.len() == m.chunk_dimensions.len() - 1,
        forall|i: int| 0 <= i < words.len() ==> #[trigger] words[i] == m.chunk_dimensions[i],
        m.filtered_size matches Some(n) ==> n <= u32::MAX,
        m.filtered_size is None ==> crate::grid::tail(words, 0) * m.size <= u32::MAX,
    ensures
        m.chunks(d) matches Ok(all) && {
            &&& all.len() == 1
            &&& all[0].address == m.address
            &&& all[0].offsets.len() == m.chunk_dimensions.len() - 1
            &&& forall|i: int| 0 <= i < all[0].offsets.len() ==> #[trigger] all[0].offsets[i] == 0
            &&& all[0].chunk_size == match m.filtered_size {
                Some(n) => n as int,
                None => crate::grid::tail(words, 0) * m.size,
            }
            &&& all[0].filter_mask == if m.filtered_size is Some && m.filter_mask is Some {
                m.filter_mask->0
            } else {
                0
            }
        },
{
    assert(words =~= m.chunk_words());
    assert(0 <= crate::grid::tail(words, 0) * m.size) by (nonlinear_arith)
        requires
            0 <= crate::grid::tail(words, 0),
            0 <= m.size,
    ;
}

} // verus!
