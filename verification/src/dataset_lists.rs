//! Which datasets an index of several blocks has, and in which order.

use vstd::prelude::*;
use crate::metadata_index::{self, BlockModel};

verus! {

proof fn lemma_before(p: Seq<u8>, k: int, a: Seq<u8>, b: Seq<u8>)
    requires
        0 <= k <= p.len(),
        p.len() <= a.len(),
        p.len() <= b.len(),
        a.take(p.len() as int) == p,
        b.take(p.len() as int) == p,
    ensures
        metadata_index::bytes_before(a, b, k) == metadata_index::bytes_before(
            a,
            b,
            p.len() as int,
        ),
    decreases p.len() - k,
{
    if k < p.len() {
        assert(a.take(p.len() as int)[k] == p[k]);
        assert(b.take(p.len() as int)[k] == p[k]);
        lemma_before(p, k + 1, a, b);
    }
}

/// Bytes are ordered like words: where they differ first the smaller byte decides, and bytes come
/// before those that they are the front of.
pub proof fn law_bytes_are_ordered_like_words(
    p: Seq<u8>,
    x: u8,
    s: Seq<u8>,
    y: u8,
    t: Seq<u8>,
)
    ensures
        metadata_index::bytes_before(p + (seq![x] + s), p + (seq![y] + t), 0) == (x < y || x == y
            && metadata_index::bytes_before(
            p + (seq![x] + s),
            p + (seq![y] + t),
            p.len() as int + 1,
        )),
        metadata_index::bytes_before(p, p + (seq![y] + t), 0),
        !metadata_index::bytes_before(p + (seq![y] + t), p, 0),
        !metadata_index::bytes_before(p, p, 0),
{
    let a = p + (seq![x] + s);
    let b = p + (seq![y] + t);
    let n = p.len() as int;
    assert(a.take(n) =~= p);
    assert(b.take(n) =~= p);
    assert(p.take(n) =~= p);
    assert(a[n] == x && b[n] == y);
    lemma_before(p, 0, a, b);
    lemma_before(p, 0, p, b);
    lemma_before(p, 0, b, p);
    lemma_before(p, 0, p, p);
}

/// The number of datasets of the first `n` blocks.
pub open spec fn datasets_in(blocks: Seq<BlockModel>, n: int) -> int
    decreases n,
{
    if n <= 0 {
        0
    } else {
        datasets_in(blocks, n - 1) + blocks[n - 1].datasets.len()
    }
}

/// Each dataset of each block is listed with the creator of its block, behind all datasets of the
/// blocks before it and in the order of its block, and nothing else is listed.
pub proof fn law_all_datasets_are_listed(blocks: Seq<BlockModel>, n: int, b: int, k: int)
    requires
        0 <= b < n <= blocks.len(),
        0 <= k < blocks[b].datasets.len(),
    ensures
        metadata_index::all_items(blocks, n).len() == datasets_in(blocks, n),
        0 <= datasets_in(blocks, b) + k < datasets_in(blocks, n),
        metadata_index::all_items(blocks, n)[datasets_in(blocks, b) + k] == (
            blocks[b].creator_id,
            blocks[b].datasets[k],
        ),
    decreases n,
{
    lemma_listed(blocks, n - 1);
    if b < n - 1 {
        law_all_datasets_are_listed(blocks, n - 1, b, k);
    }
}

proof fn lemma_listed(blocks: Seq<BlockModel>, n: int)
    requires
        0 <= n <= blocks.len(),
    ensures
        metadata_index::all_items(blocks, n).len() == datasets_in(blocks, n),
    decreases n,
{
    if n > 0 {
        lemma_listed(blocks, n - 1);
    }
}

} // verus!
