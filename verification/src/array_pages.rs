//! Which elements the pages of a data block of an extensible array list.

use vstd::prelude::*;
use vstd::arithmetic::power2::pow2;
use crate::chunk_cache::ChunkInfoModel;
use crate::error::ErrorModel;
use crate::extensible_array::{self, ExtensibleArrayHeader};
use crate::fixed_array::ChunkGrid;
use crate::grid;

verus! {

/// Whether `n` is the least number of parts of `b` that make up at least `a`.
pub open spec fn is_cover(n: int, a: int, b: int) -> bool {
    &&& a <= n * b
    &&& (n - 1) * b < a
}

pub proof fn lemma_cover(n: int, a: int, b: int)
    requires
        b > 0,
        is_cover(n, a, b),
    ensures
        grid::ceil_div(a, b) == n,
{
    let q = a / b;
    let r = a % b;
    vstd::arithmetic::div_mod::lemma_fundamental_div_mod(a, b);
    vstd::arithmetic::div_mod::lemma_mod_bound(a, b);
    assert(n * b - b == (n - 1) * b) by (nonlinear_arith);
    if r == 0 {
        assert(q == n) by (nonlinear_arith)
            requires
                a == b * q,
                a <= n * b,
                n * b - b < a,
                b > 0,
        ;
    } else {
        assert(q + 1 == n) by (nonlinear_arith)
            requires
                a == b * q + r,
                0 < r < b,
                a <= n * b,
                n * b - b < a,
                b > 0,
        ;
    }
}

proof fn lemma_done(
    d: Seq<u8>,
    p: int,
    h: ExtensibleArrayHeader,
    os: u8,
    g: ChunkGrid,
    index: int,
    count: int,
    done: Seq<ChunkInfoModel>,
    more: Seq<ChunkInfoModel>,
)
    requires
        extensible_array::ea_elements_at(d, p, h, os, g, index, count, more) is Ok,
    ensures
        extensible_array::ea_elements_at(d, p, h, os, g, index, count, done + more) == Ok::<
            Seq<ChunkInfoModel>,
            ErrorModel,
        >(
            done + extensible_array::ea_elements_at(
                d,
                p,
                h,
                os,
                g,
                index,
                count,
                more,
            )->Ok_0,
        ),
    decreases count,
{
    if count > 0 {
        let next = p + extensible_array::ea_width(h.client_id, h.element_size, os);
        match extensible_array::ea_element_at(d, p, h.client_id, h.element_size, os, g, index) {
            Ok(Some(info)) => {
                lemma_done(d, next, h, os, g, index + 1, count - 1, done, more.push(info));
                assert((done + more).push(info) =~= done + more.push(info));
            },
            Ok(None) => {
                lemma_done(d, next, h, os, g, index + 1, count - 1, done, more);
            },
            Err(e) => {},
        }
    }
}

/// The number of elements in page `i` of `n`: a full page, or what is left for the last one.
pub open spec fn elements_in(i: int, n: int, nelmts: int, size: int) -> int {
    if i < n - 1 {
        size
    } else {
        nelmts - (n - 1) * size
    }
}

/// Whether page `i` of the block is marked in the bitmap.
pub open spec fn is_marked(d: Seq<u8>, bitmap: int, i: int) -> bool {
    d[bitmap + i / 8] as nat / pow2((i % 8) as nat) % 2 == 1
}

/// What each page lists: nothing if it is not marked, and the elements that stand in it otherwise.
/// A page stands behind those before it, marked or not, each of which takes the room of its elements
/// and of a checksum.
pub open spec fn are_pages(
    d: Seq<u8>,
    bitmap: int,
    start: int,
    n: int,
    nelmts: int,
    h: ExtensibleArrayHeader,
    os: u8,
    g: ChunkGrid,
    index: int,
    found: Seq<Seq<ChunkInfoModel>>,
) -> bool {
    let size = pow2(h.max_nelmts_bits as nat) as int;
    let width = extensible_array::ea_width(h.client_id, h.element_size, os);
    &&& found.len() == n
    &&& forall|i: int|
        0 <= i < n ==> if is_marked(d, bitmap, i) {
            extensible_array::ea_elements_at(
                d,
                start + i * (size * width + 4),
                h,
                os,
                g,
                index + i * size,
                elements_in(i, n, nelmts, size),
                Seq::empty(),
            ) == Ok::<Seq<ChunkInfoModel>, ErrorModel>(#[trigger] found[i])
        } else {
            found[i].len() == 0
        }
}

proof fn lemma_page_count(i: int, n: int, nelmts: int, size: int)
    requires
        0 <= i < n,
        size > 0,
        is_cover(n, nelmts, size),
    ensures
        extensible_array::page_count(i, n, nelmts, size) == elements_in(i, n, nelmts, size),
{
    if i == n - 1 {
        let rest = nelmts - (n - 1) * size;
        assert(n * size == (n - 1) * size + size) by (nonlinear_arith);
        if rest == size {
            vstd::arithmetic::div_mod::lemma_mod_multiples_basic(n, size);
        } else {
            vstd::arithmetic::div_mod::lemma_fundamental_div_mod_converse(
                nelmts,
                size,
                n - 1,
                rest,
            );
        }
    }
}

#[verifier::spinoff_prover]
#[verifier::rlimit(40)]
proof fn lemma_pages(
    d: Seq<u8>,
    bitmap: int,
    start: int,
    page: int,
    n: int,
    nelmts: int,
    h: ExtensibleArrayHeader,
    os: u8,
    g: ChunkGrid,
    index: int,
    found: Seq<Seq<ChunkInfoModel>>,
    p: int,
    done: Seq<ChunkInfoModel>,
)
    requires
        0 <= page < n,
        is_cover(n, nelmts, pow2(h.max_nelmts_bits as nat) as int),
        are_pages(d, bitmap, start, n, nelmts, h, os, g, index, found),
        p == start + page * (pow2(h.max_nelmts_bits as nat)
            * extensible_array::ea_width(h.client_id, h.element_size, os) + 4),
    ensures
        extensible_array::ea_pages_at(
            d,
            bitmap,
            p,
            page,
            nelmts,
            h,
            os,
            g,
            index + page * pow2(h.max_nelmts_bits as nat),
            done,
        ) == Ok::<Seq<ChunkInfoModel>, ErrorModel>(
            done + found.subrange(page, n).flatten(),
        ),
    decreases n - page,
{
    let size = pow2(h.max_nelmts_bits as nat) as int;
    let width = extensible_array::ea_width(h.client_id, h.element_size, os);
    vstd::arithmetic::power2::lemma_pow2_pos(h.max_nelmts_bits as nat);
    lemma_cover(n, nelmts, size);
    lemma_page_count(page, n, nelmts, size);
    let count = elements_in(page, n, nelmts, size);
    let next = p + count * width + 4;
    let tail = found.subrange(page, n);
    let rest = found.subrange(page + 1, n);
    assert(tail.first() == found[page]);
    assert(tail.drop_first() =~= rest);
    let none = Seq::<ChunkInfoModel>::empty();
    let all = done + found[page];
    if is_marked(d, bitmap, page) {
        lemma_done(d, p, h, os, g, index + page * size, count, done, none);
        assert(done + none =~= done);
    } else {
        assert(all =~= done);
    }
    if page < n - 1 {
        assert(next == start + (page + 1) * (size * width + 4)) by (nonlinear_arith)
            requires
                next == p + size * width + 4,
                p == start + page * (size * width + 4),
        ;
        assert(index + page * size + count == index + (page + 1) * size) by (nonlinear_arith)
            requires
                count == size,
        ;
        lemma_pages(
            d,
            bitmap,
            start,
            page + 1,
            n,
            nelmts,
            h,
            os,
            g,
            index,
            found,
            next,
            all,
        );
    } else {
        reveal_with_fuel(extensible_array::ea_pages_at, 2);
        assert(rest =~= Seq::empty());
        assert(rest.flatten() =~= Seq::<ChunkInfoModel>::empty());
    }
    assert(all + rest.flatten() =~= done + (found[page] + rest.flatten()));
}

/// A data block that is too large for one page lists what its pages list, one after the other.
#[verifier::rlimit(30)]
pub proof fn law_paged_block_lists_its_pages(
    d: Seq<u8>,
    at: int,
    n: int,
    bitmap_bytes: int,
    offset_bytes: int,
    nelmts: int,
    h: ExtensibleArrayHeader,
    os: u8,
    g: ChunkGrid,
    index: int,
    found: Seq<Seq<ChunkInfoModel>>,
)
    requires
        nelmts > pow2(h.max_nelmts_bits as nat),
        is_cover(n, nelmts, pow2(h.max_nelmts_bits as nat) as int),
        is_cover(bitmap_bytes, n, 8),
        is_cover(offset_bytes, h.max_nelmts_bits as int, 8),
        crate::places::stands(d, at, seq![0x45u8, 0x41, 0x44, 0x42]),
        at + 6 + os + offset_bytes + bitmap_bytes <= d.len(),
        are_pages(
            d,
            at + 6 + os + offset_bytes,
            at + 6 + os + offset_bytes + bitmap_bytes,
            n,
            nelmts,
            h,
            os,
            g,
            index,
            found,
        ),
    ensures
        extensible_array::ea_block_at(d, at, nelmts, h, os, g, index) == Ok::<
            Seq<ChunkInfoModel>,
            ErrorModel,
        >(found.flatten()),
{
    let size = pow2(h.max_nelmts_bits as nat) as int;
    vstd::arithmetic::power2::lemma_pow2_pos(h.max_nelmts_bits as nat);
    crate::places::lemma_tag(d, at, seq![0x45u8, 0x41, 0x44, 0x42]);
    lemma_cover(n, nelmts, size);
    lemma_cover(bitmap_bytes, n, 8);
    lemma_cover(offset_bytes, h.max_nelmts_bits as int, 8);
    let bitmap = at + 6 + os + offset_bytes;
    let none = Seq::<ChunkInfoModel>::empty();
    let start = bitmap + bitmap_bytes;
    let width = extensible_array::ea_width(h.client_id, h.element_size, os);
    assert(n > 0) by (nonlinear_arith)
        requires
            nelmts <= n * size,
            nelmts > size,
            size > 0,
    ;
    assert(offset_bytes >= 0) by (nonlinear_arith)
        requires
            h.max_nelmts_bits <= offset_bytes * 8,
    ;
    assert(0 * (size * width + 4) == 0) by (nonlinear_arith);
    assert(0 * size == 0) by (nonlinear_arith);
    lemma_pages(d, bitmap, start, 0, n, nelmts, h, os, g, index, found, start, none);
    assert(found.subrange(0, n) =~= found);
    assert(none + found.flatten() =~= found.flatten());
}

} // verus!
