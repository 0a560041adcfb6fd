//! The signature of an HDF5 file.

use vstd::prelude::*;
use vstd::slice::slice_subrange;
use crate::bytes::{byte_len, same_bytes};
use crate::error::{ErrorModel, FormatError};

verus! {

/// The eight bytes that start an HDF5 superblock.
pub const HDF5_SIGNATURE: [u8; 8] = [0x89, 0x48, 0x44, 0x46, 0x0D, 0x0A, 0x1A, 0x0A];

/// Whether the signature stands at `p`.
pub open spec fn is_signed_at(d: Seq<u8>, p: int) -> bool {
    0 <= p && p + 8 <= d.len() && d.subrange(p, p + 8) == HDF5_SIGNATURE@
}

/// The valid offset behind `p`: the superblock stands at the start of the file, or at 512 or one of
/// its doubles.
pub open spec fn next_offset(p: int) -> int {
    if p <= 0 {
        512
    } else {
        2 * p
    }
}

/// The number of bytes from `p` on.
pub open spec fn bytes_from(d: Seq<u8>, p: int) -> nat {
    if p < d.len() {
        (d.len() - p) as nat
    } else {
        0
    }
}

/// The first valid offset from `p` on at which the signature stands.
pub open spec fn signature_from(d: Seq<u8>, p: int) -> Option<int>
    decreases bytes_from(d, p),
{
    if p + 8 > d.len() {
        None
    } else if is_signed_at(d, p) {
        Some(p)
    } else if next_offset(p) > p {
        signature_from(d, next_offset(p))
    } else {
        None
    }
}

/// Find the HDF5 signature: at the start of the data, or at 512 or one of its doubles.
///
/// # Errors
///
/// Returns `SignatureNotFound` if it stands at no valid offset.
pub fn find_signature(data: &[u8]) -> (r: Result<usize, FormatError>)
    ensures
        match r {
            Ok(p) => signature_from(data@, 0) == Some(p as int),
            Err(e) => signature_from(data@, 0) is None && e.deep_view() == ErrorModel::Plain(
                FormatError::SignatureNotFound,
            ),
        },
{
    let len: usize = byte_len(data);
    let mut p: usize = 0;
    while p < len && len - p >= 8
        invariant
            len == data@.len(),
            len <= isize::MAX,
            p <= 2 * len + 512,
            signature_from(data@, 0) == signature_from(data@, p as int),
        decreases 2 * len + 512 - p,
    {
        if same_bytes(slice_subrange(data, p, p + 8), &HDF5_SIGNATURE) {
            assert(is_signed_at(data@, p as int));
            return Ok(p);
        }
        p = if p == 0 {
            512
        } else {
            2 * p
        };
    }
    Err(FormatError::SignatureNotFound)
}

/// Whether a superblock may stand at `p`: at the start of the file, at 512, or at one of its
/// doubles.
pub open spec fn is_valid_offset(p: int) -> bool
    decreases p,
{
    p == 0 || p == 512 || p > 512 && p % 2 == 0 && is_valid_offset(p / 2)
}

/// The signature is found at the first valid offset at which it stands, and at none only if it
/// stands at none.
pub proof fn law_signature_is_found(d: Seq<u8>)
    ensures
        match signature_from(d, 0) {
            Some(p) => {
                &&& is_valid_offset(p)
                &&& is_signed_at(d, p)
                &&& forall|q: int| #[trigger] is_valid_offset(q) && q < p ==> !is_signed_at(d, q)
            },
            None => forall|q: int| #[trigger] is_valid_offset(q) ==> !is_signed_at(d, q),
        },
{
    lemma_found_from(d, 0);
}

proof fn lemma_found_from(d: Seq<u8>, from: int)
    requires
        is_valid_offset(from),
    ensures
        match signature_from(d, from) {
            Some(p) => {
                &&& is_valid_offset(p)
                &&& is_signed_at(d, p)
                &&& forall|q: int|
                    #[trigger] is_valid_offset(q) && from <= q < p ==> !is_signed_at(d, q)
            },
            None => forall|q: int|
                #[trigger] is_valid_offset(q) && from <= q ==> !is_signed_at(d, q),
        },
    decreases bytes_from(d, from),
{
    lemma_offset_bound(from);
    if from + 8 <= d.len() && !is_signed_at(d, from) {
        let next = next_offset(from);
        assert(is_valid_offset(next));
        lemma_found_from(d, next);
        assert forall|q: int| #[trigger] is_valid_offset(q) && from < q implies next <= q by {
            lemma_gap(from, q);
        }
    }
}

proof fn lemma_offset_bound(p: int)
    requires
        is_valid_offset(p),
    ensures
        p == 0 || p >= 512,
{
}

/// No valid offset lies between a valid offset and the next one.
proof fn lemma_gap(p: int, q: int)
    requires
        is_valid_offset(p),
        is_valid_offset(q),
        p < q,
    ensures
        next_offset(p) <= q,
    decreases p,
{
    lemma_offset_bound(p);
    lemma_offset_bound(q);
    if p > 0 {
        assert(is_valid_offset(q / 2));
        lemma_offset_bound(q / 2);
        if p > 512 {
            lemma_gap(p / 2, q / 2);
        }
    }
}

} // verus!
