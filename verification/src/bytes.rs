//! Little-endian integers in byte sequences.

use vstd::prelude::*;

verus! {

/// The unsigned integer that `s` encodes, least significant byte first.
pub open spec fn le_value(s: Seq<u8>) -> nat
    decreases s.len(),
{
    if s.len() == 0 {
        0
    } else {
        s[0] as nat + 256 * le_value(s.subrange(1, s.len() as int))
    }
}

/// The `n` low bytes of `v`, least significant byte first.
pub open spec fn le_bytes(v: nat, n: nat) -> Seq<u8>
    decreases n,
{
    if n == 0 {
        Seq::empty()
    } else {
        seq![(v % 256) as u8] + le_bytes(v / 256, (n - 1) as nat)
    }
}

/// `256` to the power `n`.
pub open spec fn pow256(n: nat) -> nat
    decreases n,
{
    if n == 0 {
        1
    } else {
        256 * pow256((n - 1) as nat)
    }
}

/// The two-byte integer at `p`.
pub open spec fn u16_at(d: Seq<u8>, p: int) -> u16 {
    (d[p] as int + 0x100 * d[p + 1] as int) as u16
}

/// The four-byte integer at `p`.
pub open spec fn u32_at(d: Seq<u8>, p: int) -> u32 {
    (d[p] as int + 0x100 * d[p + 1] as int + 0x1_0000 * d[p + 2] as int + 0x100_0000 * d[p
        + 3] as int) as u32
}

/// The eight-byte integer at `p`.
pub open spec fn u64_at(d: Seq<u8>, p: int) -> u64 {
    (u32_at(d, p) as int + 0x1_0000_0000 * u32_at(d, p + 4) as int) as u64
}

pub proof fn lemma_le_bytes_len(v: nat, n: nat)
    ensures
        le_bytes(v, n).len() == n,
    decreases n,
{
    if n > 0 {
        lemma_le_bytes_len(v / 256, (n - 1) as nat);
    }
}

/// Decoding the `n` low bytes of `v` gives `v` back, reduced to `n` bytes.
pub proof fn lemma_le_round_trip(v: nat, n: nat)
    ensures
        le_value(le_bytes(v, n)) == v % pow256(n),
        pow256(n) > 0,
    decreases n,
{
    if n == 0 {
        assert(v % 1 == 0) by (nonlinear_arith);
    } else {
        let m = (n - 1) as nat;
        lemma_le_round_trip(v / 256, m);
        lemma_le_bytes_len(v, n);
        lemma_le_bytes_len(v / 256, m);
        assert(le_bytes(v, n).subrange(1, n as int) =~= le_bytes(v / 256, m));
        let p = pow256(m) as int;
        let q = v as int;
        assert(q % (256 * p) == q % 256 + 256 * ((q / 256) % p)) by {
            vstd::arithmetic::div_mod::lemma_mod_breakdown(q, 256, p);
        }
    }
}

/// Encoding a decoded byte sequence gives the bytes back.
pub proof fn lemma_le_value_bytes(s: Seq<u8>)
    ensures
        le_bytes(le_value(s), s.len()) == s,
        le_value(s) < pow256(s.len()),
    decreases s.len(),
{
    if s.len() > 0 {
        let rest = s.subrange(1, s.len() as int);
        lemma_le_value_bytes(rest);
        let v = le_value(s);
        assert(v % 256 == s[0] as nat);
        assert(v / 256 == le_value(rest));
        assert(le_bytes(v, s.len()) =~= s);
    }
}

pub proof fn lemma_pow256_values()
    ensures
        pow256(1) == 0x100,
        pow256(2) == 0x1_0000,
        pow256(4) == 0x1_0000_0000,
        pow256(8) == 0x1_0000_0000_0000_0000,
{
    reveal_with_fuel(pow256, 9);
}

pub proof fn lemma_le_value_2(s: Seq<u8>)
    requires
        s.len() == 2,
    ensures
        le_value(s) == s[0] as nat + 0x100 * s[1] as nat,
        le_value(s) == u16_at(s, 0),
{
    reveal_with_fuel(le_value, 3);
}

pub proof fn lemma_le_value_4(s: Seq<u8>)
    requires
        s.len() == 4,
    ensures
        le_value(s) == s[0] as nat + 0x100 * s[1] as nat + 0x1_0000 * s[2] as nat + 0x100_0000
            * s[3] as nat,
        le_value(s) == u32_at(s, 0),
{
    reveal_with_fuel(le_value, 5);
}

pub proof fn lemma_le_value_8(s: Seq<u8>)
    requires
        s.len() == 8,
    ensures
        le_value(s) == u64_at(s, 0),
{
    reveal_with_fuel(le_value, 5);
    let t = s.subrange(1, 8).subrange(1, 7).subrange(1, 6).subrange(1, 5);
    assert(t =~= s.subrange(4, 8));
    lemma_le_value_4(t);
    assert(u32_at(t, 0) == u32_at(s, 4));
}

/// The integer read where the two bytes of `v` stand is `v`.
pub proof fn lemma_u16_round_trip(d: Seq<u8>, p: int, v: u16)
    requires
        0 <= p,
        p + 2 <= d.len(),
        d.subrange(p, p + 2) == le_bytes(v as nat, 2),
    ensures
        u16_at(d, p) == v,
{
    lemma_le_round_trip(v as nat, 2);
    lemma_pow256_values();
    lemma_le_value_2(d.subrange(p, p + 2));
    assert(u16_at(d, p) == u16_at(d.subrange(p, p + 2), 0));
}

/// The integer read where the four bytes of `v` stand is `v`.
pub proof fn lemma_u32_round_trip(d: Seq<u8>, p: int, v: u32)
    requires
        0 <= p,
        p + 4 <= d.len(),
        d.subrange(p, p + 4) == le_bytes(v as nat, 4),
    ensures
        u32_at(d, p) == v,
{
    lemma_le_round_trip(v as nat, 4);
    lemma_pow256_values();
    lemma_le_value_4(d.subrange(p, p + 4));
    assert(u32_at(d, p) == u32_at(d.subrange(p, p + 4), 0));
}

/// The integer read where the eight bytes of `v` stand is `v`.
pub proof fn lemma_u64_round_trip(d: Seq<u8>, p: int, v: u64)
    requires
        0 <= p,
        p + 8 <= d.len(),
        d.subrange(p, p + 8) == le_bytes(v as nat, 8),
    ensures
        u64_at(d, p) == v,
{
    lemma_le_round_trip(v as nat, 8);
    lemma_pow256_values();
    let s = d.subrange(p, p + 8);
    lemma_le_value_8(s);
    assert(u32_at(d, p) == u32_at(s, 0));
    assert(u32_at(d, p + 4) == u32_at(s, 4));
}

/// Where the bytes from `pos` on are `a` and then `b`, `a` stands at `pos` and `b` follows it.
pub proof fn lemma_peel(d: Seq<u8>, pos: int, a: Seq<u8>, b: Seq<u8>)
    requires
        0 <= pos <= d.len(),
        d.subrange(pos, d.len() as int) == a + b,
    ensures
        pos + a.len() <= d.len(),
        d.subrange(pos, pos + a.len()) == a,
        d.subrange(pos + a.len(), d.len() as int) == b,
{
    let s = d.subrange(pos, d.len() as int);
    assert(s.len() == a.len() + b.len());
    assert forall|i: int| 0 <= i < a.len() implies d[pos + i] == a[i] by {
        assert(s[i] == d[pos + i]);
        assert((a + b)[i] == a[i]);
    }
    assert forall|i: int| 0 <= i < b.len() implies d[pos + a.len() + i] == b[i] by {
        assert(s[a.len() + i] == d[pos + a.len() + i]);
        assert((a + b)[a.len() + i] == b[i]);
    }
    assert(d.subrange(pos, pos + a.len()) =~= a);
    assert(d.subrange(pos + a.len(), d.len() as int) =~= b);
}

pub proof fn lemma_concat_4(a: Seq<u8>, b: Seq<u8>, c: Seq<u8>, d: Seq<u8>, e: Seq<u8>)
    ensures
        a + b + c + d + e == a + (b + (c + (d + e))),
{
    assert(a + b + c + d + e =~= a + (b + (c + (d + e))));
}

/// The length of `data`.
///
/// Trusted: `<[u8]>::len`. The bound holds of every slice: the size of an object in memory never
/// exceeds `isize::MAX` bytes.
#[verifier::external_body]
pub(crate) fn byte_len(data: &[u8]) -> (n: usize)
    ensures
        n == data@.len(),
        n <= isize::MAX,
{
    data.len()
}

/// Reads a little-endian `u16` from the front of `buf`.
///
/// Trusted: `byteorder::LittleEndian::read_u16`, which decodes the first two bytes and panics
/// where there are fewer.
#[verifier::external_body]
pub(crate) fn order_u16(buf: &[u8]) -> (v: u16)
    requires
        buf@.len() >= 2,
    ensures
        v == u16_at(buf@, 0),
{
    <byteorder::LittleEndian as byteorder::ByteOrder>::read_u16(buf)
}

/// Reads a little-endian `u32` from the front of `buf`.
///
/// Trusted: `byteorder::LittleEndian::read_u32`, which decodes the first four bytes and panics
/// where there are fewer.
#[verifier::external_body]
pub(crate) fn order_u32(buf: &[u8]) -> (v: u32)
    requires
        buf@.len() >= 4,
    ensures
        v == u32_at(buf@, 0),
{
    <byteorder::LittleEndian as byteorder::ByteOrder>::read_u32(buf)
}

/// Reads a little-endian `u64` from the front of `buf`.
///
/// Trusted: `byteorder::LittleEndian::read_u64`, which decodes the first eight bytes and panics
/// where there are fewer.
#[verifier::external_body]
pub(crate) fn order_u64(buf: &[u8]) -> (v: u64)
    requires
        buf@.len() >= 8,
    ensures
        v == u64_at(buf@, 0),
{
    <byteorder::LittleEndian as byteorder::ByteOrder>::read_u64(buf)
}

/// Reads the two-byte integer at `p`.
pub fn get_u16(d: &[u8], p: usize) -> (v: u16)
    requires
        p + 2 <= d@.len(),
    ensures
        v == u16_at(d@, p as int),
{
    d[p] as u16 + 0x100 * (d[p + 1] as u16)
}

/// Reads the four-byte integer at `p`.
pub fn get_u32(d: &[u8], p: usize) -> (v: u32)
    requires
        p + 4 <= d@.len(),
    ensures
        v == u32_at(d@, p as int),
{
    d[p] as u32 + 0x100 * (d[p + 1] as u32) + 0x1_0000 * (d[p + 2] as u32) + 0x100_0000 * (d[p
        + 3] as u32)
}

/// Reads the eight-byte integer at `p`.
pub fn get_u64(d: &[u8], p: usize) -> (v: u64)
    requires
        p + 8 <= d@.len(),
    ensures
        v == u64_at(d@, p as int),
{
    assert(d.len() == d@.len());
    get_u32(d, p) as u64 + 0x1_0000_0000 * (get_u32(d, p + 4) as u64)
}

/// Appends the bytes of `s`.
pub fn put_slice(buf: &mut Vec<u8>, s: &[u8])
    ensures
        final(buf)@ == old(buf)@ + s@,
{
    buf.extend_from_slice(s);
    assert(buf@ =~= old(buf)@ + s@);
}

/// Appends the `n` low bytes of `v`.
pub fn put_le(buf: &mut Vec<u8>, v: u64, n: usize)
    ensures
        final(buf)@ == old(buf)@ + le_bytes(v as nat, n as nat),
{
    let ghost start = buf@;
    let mut rest: u64 = v;
    let mut k: usize = 0;
    assert(buf@ + le_bytes(v as nat, n as nat) =~= start + le_bytes(v as nat, n as nat));
    while k < n
        invariant
            k <= n,
            buf@ + le_bytes(rest as nat, (n - k) as nat) == start + le_bytes(v as nat, n as nat),
        decreases n - k,
    {
        let ghost before = buf@;
        let b: u8 = (rest % 256) as u8;
        buf.push(b);
        proof {
            let tail = le_bytes(rest as nat / 256, (n - k - 1) as nat);
            assert(before.push(b) + tail =~= before + (seq![b] + tail));
        }
        rest = rest / 256;
        k += 1;
    }
    assert(buf@ + le_bytes(rest as nat, 0) =~= buf@);
}

/// Appends the two bytes of `v`.
pub fn put_u16(buf: &mut Vec<u8>, v: u16)
    ensures
        final(buf)@ == old(buf)@ + le_bytes(v as nat, 2),
{
    put_le(buf, v as u64, 2);
}

/// Appends the four bytes of `v`.
pub fn put_u32(buf: &mut Vec<u8>, v: u32)
    ensures
        final(buf)@ == old(buf)@ + le_bytes(v as nat, 4),
{
    put_le(buf, v as u64, 4);
}

/// Appends the eight bytes of `v`.
pub fn put_u64(buf: &mut Vec<u8>, v: u64)
    ensures
        final(buf)@ == old(buf)@ + le_bytes(v as nat, 8),
{
    put_le(buf, v, 8);
}

/// Appends `n` copies of `b`.
pub fn put_fill(buf: &mut Vec<u8>, b: u8, n: usize)
    ensures
        final(buf)@ == old(buf)@ + Seq::new(n as nat, |i: int| b),
{
    let mut k: usize = 0;
    assert(buf@ =~= old(buf)@ + Seq::new(0, |i: int| b));
    while k < n
        invariant
            k <= n,
            buf@ == old(buf)@ + Seq::new(k as nat, |i: int| b),
        decreases n - k,
    {
        buf.push(b);
        k += 1;
        assert(buf@ =~= old(buf)@ + Seq::new(k as nat, |i: int| b));
    }
}

/// Whether `a` and `b` hold the same bytes.
pub fn same_bytes(a: &[u8], b: &[u8]) -> (same: bool)
    ensures
        same == (a@ == b@),
{
    if a.len() != b.len() {
        return false;
    }
    let mut k: usize = 0;
    while k < a.len()
        invariant
            k <= a@.len(),
            a@.len() == b@.len(),
            forall|j: int| 0 <= j < k ==> a@[j] == b@[j],
        decreases a@.len() - k,
    {
        if a[k] != b[k] {
            return false;
        }
        k += 1;
    }
    assert(a@ =~= b@);
    true
}

/// Whether the four bytes of `d` at `p` are `tag`.
pub open spec fn has_tag(d: Seq<u8>, p: int, tag: Seq<u8>) -> bool {
    d.subrange(p, p + 4) == tag
}

/// Whether the four bytes of `d` at `p` are `b0`, `b1`, `b2`, `b3`.
pub fn tag_at(d: &[u8], p: usize, b0: u8, b1: u8, b2: u8, b3: u8) -> (found: bool)
    requires
        p + 4 <= d@.len(),
    ensures
        found == has_tag(d@, p as int, seq![b0, b1, b2, b3]),
{
    let found = d[p] == b0 && d[p + 1] == b1 && d[p + 2] == b2 && d[p + 3] == b3;
    proof {
        let s = d@.subrange(p as int, p + 4);
        let t = seq![b0, b1, b2, b3];
        assert(s[0] == d@[p as int] && s[1] == d@[p + 1] && s[2] == d@[p + 2] && s[3] == d@[p + 3]);
        if found {
            assert(s =~= t);
        } else {
            assert(t[0] == b0 && t[1] == b1 && t[2] == b2 && t[3] == b3);
        }
    }
    found
}

/// The bytes of an address of `size` bytes; none for a size that is not allowed.
pub open spec fn address_bytes(v: u64, size: u8) -> Seq<u8> {
    if crate::superblock::is_size(size) {
        le_bytes(v as nat, size as nat)
    } else {
        Seq::empty()
    }
}

/// Appends an address of `size` bytes; nothing for a size that is not allowed.
pub fn put_address(buf: &mut Vec<u8>, v: u64, size: u8)
    ensures
        final(buf)@ == old(buf)@ + address_bytes(v, size),
{
    match size {
        2 | 4 | 8 => put_le(buf, v, size as usize),
        _ => {
            assert(buf@ + address_bytes(v, size) =~= buf@);
        },
    }
}

/// The number of bytes that `n` needs.
pub open spec fn byte_width(n: nat) -> nat
    decreases n,
{
    if n < 256 {
        1
    } else {
        1 + byte_width(n / 256)
    }
}

/// The number of bytes that `n` takes.
pub fn width_of(n: u64) -> (w: usize)
    ensures
        w == byte_width(n as nat),
        1 <= w <= 8,
{
    let mut rest: u64 = n;
    let mut w: usize = 1;
    proof {
        reveal_with_fuel(pow256, 9);
        lemma_byte_width_bound(n as nat, 8);
    }
    while rest >= 256
        invariant
            byte_width(n as nat) == (w - 1) + byte_width(rest as nat),
            byte_width(n as nat) <= 8,
            1 <= w,
        decreases rest,
    {
        rest = rest / 256;
        w += 1;
        assert(byte_width(rest as nat) >= 1);
    }
    w
}

proof fn lemma_byte_width_bound(n: nat, k: nat)
    requires
        n < pow256(k),
        k >= 1,
    ensures
        byte_width(n) <= k,
    decreases k,
{
    if k == 1 {
        assert(pow256(0) == 1);
    } else if n >= 256 {
        lemma_byte_width_bound(n / 256, (k - 1) as nat);
    }
}

} // verus!
