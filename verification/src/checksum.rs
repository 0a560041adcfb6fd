//! Bob Jenkins' lookup3 hash, the checksum of HDF5 metadata.

use vstd::prelude::*;

verus! {

/// The three words of the hash state.
#[derive(Clone, Copy)]
pub struct HashState {
    pub a: u32,
    pub b: u32,
    pub c: u32,
}

/// `x` rotated left by `k` bits, for `0 < k < 32`.
pub open spec fn rotated(x: u32, k: u32) -> u32 {
    (x << k) | (x >> ((32 - k) as u32))
}

/// The byte at `i`, or zero past the end.
pub open spec fn byte_or_zero(d: Seq<u8>, i: int) -> int {
    if i < d.len() {
        d[i] as int
    } else {
        0
    }
}

/// The little-endian word at `p`, zero-padded past the end.
pub open spec fn word(d: Seq<u8>, p: int) -> u32 {
    (byte_or_zero(d, p) + 0x100 * byte_or_zero(d, p + 1) + 0x1_0000 * byte_or_zero(d, p + 2)
        + 0x100_0000 * byte_or_zero(d, p + 3)) as u32
}

/// The state after adding the twelve bytes at `p`.
pub open spec fn absorbed(d: Seq<u8>, p: int, s: HashState) -> HashState {
    HashState {
        a: s.a.wrapping_add(word(d, p)),
        b: s.b.wrapping_add(word(d, p + 4)),
        c: s.c.wrapping_add(word(d, p + 8)),
    }
}

/// The reversible mixing step between blocks.
pub open spec fn mixed(s: HashState) -> HashState {
    let a = s.a.wrapping_sub(s.c) ^ rotated(s.c, 4);
    let c = s.c.wrapping_add(s.b);
    let b = s.b.wrapping_sub(a) ^ rotated(a, 6);
    let a = a.wrapping_add(c);
    let c = c.wrapping_sub(b) ^ rotated(b, 8);
    let b = b.wrapping_add(a);
    let a = a.wrapping_sub(c) ^ rotated(c, 16);
    let c = c.wrapping_add(b);
    let b = b.wrapping_sub(a) ^ rotated(a, 19);
    let a = a.wrapping_add(c);
    let c = c.wrapping_sub(b) ^ rotated(b, 4);
    let b = b.wrapping_add(a);
    HashState { a, b, c }
}

/// The final word of the hash.
pub open spec fn finished(s: HashState) -> u32 {
    let c = (s.c ^ s.b).wrapping_sub(rotated(s.b, 14));
    let a = (s.a ^ c).wrapping_sub(rotated(c, 11));
    let b = (s.b ^ a).wrapping_sub(rotated(a, 25));
    let c = (c ^ b).wrapping_sub(rotated(b, 16));
    let a = (a ^ c).wrapping_sub(rotated(c, 4));
    let b = (b ^ a).wrapping_sub(rotated(a, 14));
    (c ^ b).wrapping_sub(rotated(b, 24))
}

/// The hash of the bytes from `p` on, from state `s`: whole blocks are mixed in, the last block
/// of at most twelve bytes is finished.
pub open spec fn lookup3_from(d: Seq<u8>, p: int, s: HashState) -> u32
    decreases d.len() - p,
{
    if d.len() - p > 12 {
        lookup3_from(d, p + 12, mixed(absorbed(d, p, s)))
    } else if d.len() - p == 0 {
        s.c
    } else {
        finished(absorbed(d, p, s))
    }
}

/// The lookup3 hash of `d` with initial value zero.
pub open spec fn lookup3(d: Seq<u8>) -> u32 {
    let seed = 0xdead_beef_u32.wrapping_add(d.len() as u32);
    lookup3_from(d, 0, HashState { a: seed, b: seed, c: seed })
}

fn rot(x: u32, k: u32) -> (r: u32)
    requires
        0 < k < 32,
    ensures
        r == rotated(x, k),
{
    (x << k) | (x >> (32 - k))
}

fn padded_byte(d: &[u8], i: usize) -> (b: u32)
    ensures
        b == byte_or_zero(d@, i as int),
        b < 256,
{
    if i < d.len() {
        d[i] as u32
    } else {
        0
    }
}

fn padded_word(d: &[u8], p: usize) -> (w: u32)
    requires
        p + 3 <= usize::MAX,
    ensures
        w == word(d@, p as int),
{
    padded_byte(d, p) + 0x100 * padded_byte(d, p + 1) + 0x1_0000 * padded_byte(d, p + 2)
        + 0x100_0000 * padded_byte(d, p + 3)
}

fn absorb(d: &[u8], p: usize, s: HashState) -> (r: HashState)
    requires
        p + 11 <= usize::MAX,
    ensures
        r == absorbed(d@, p as int, s),
{
    HashState {
        a: s.a.wrapping_add(padded_word(d, p)),
        b: s.b.wrapping_add(padded_word(d, p + 4)),
        c: s.c.wrapping_add(padded_word(d, p + 8)),
    }
}

fn mix(s: HashState) -> (r: HashState)
    ensures
        r == mixed(s),
{
    let a = s.a.wrapping_sub(s.c) ^ rot(s.c, 4);
    let c = s.c.wrapping_add(s.b);
    let b = s.b.wrapping_sub(a) ^ rot(a, 6);
    let a = a.wrapping_add(c);
    let c = c.wrapping_sub(b) ^ rot(b, 8);
    let b = b.wrapping_add(a);
    let a = a.wrapping_sub(c) ^ rot(c, 16);
    let c = c.wrapping_add(b);
    let b = b.wrapping_sub(a) ^ rot(a, 19);
    let a = a.wrapping_add(c);
    let c = c.wrapping_sub(b) ^ rot(b, 4);
    let b = b.wrapping_add(a);
    HashState { a, b, c }
}

fn finish(s: HashState) -> (r: u32)
    ensures
        r == finished(s),
{
    let c = (s.c ^ s.b).wrapping_sub(rot(s.b, 14));
    let a = (s.a ^ c).wrapping_sub(rot(c, 11));
    let b = (s.b ^ a).wrapping_sub(rot(a, 25));
    let c = (c ^ b).wrapping_sub(rot(b, 16));
    let a = (a ^ c).wrapping_sub(rot(c, 4));
    let b = (b ^ a).wrapping_sub(rot(a, 14));
    (c ^ b).wrapping_sub(rot(b, 24))
}

/// Compute the lookup3 checksum of `data`.
pub fn jenkins_lookup3(data: &[u8]) -> (hash: u32)
    ensures
        hash == lookup3(data@),
{
    let n: usize = crate::bytes::byte_len(data);
    let seed = 0xdead_beef_u32.wrapping_add(n as u32);
    let mut s = HashState { a: seed, b: seed, c: seed };
    let mut p: usize = 0;
    while n - p > 12
        invariant
            p <= n == data@.len(),
            n <= isize::MAX,
            lookup3_from(data@, p as int, s) == lookup3(data@),
        decreases n - p,
    {
        s = mix(absorb(data, p, s));
        p += 12;
    }
    if n - p == 0 {
        s.c
    } else {
        finish(absorb(data, p, s))
    }
}

} // verus!
