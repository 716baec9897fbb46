//! Fixed-width integers in byte buffers, and copying between buffers.

use vstd::prelude::*;
use vstd::slice::{slice_subrange, slice_to_vec};

verus! {

/// The little-endian 16-bit number at `off`.
pub open spec fn le16(s: Seq<u8>, off: int) -> int {
    s[off] + 0x100 * s[off + 1]
}

/// The little-endian 32-bit number at `off`.
pub open spec fn le32(s: Seq<u8>, off: int) -> int {
    s[off] + 0x100 * s[off + 1] + 0x1_0000 * s[off + 2] + 0x100_0000 * s[off + 3]
}

/// The little-endian 64-bit number at `off`.
pub open spec fn le64(s: Seq<u8>, off: int) -> int {
    le32(s, off) + 0x1_0000_0000 * le32(s, off + 4)
}

/// The big-endian 32-bit number at `off`.
pub open spec fn be32(s: Seq<u8>, off: int) -> int {
    s[off + 3] + 0x100 * s[off + 2] + 0x1_0000 * s[off + 1] + 0x100_0000 * s[off]
}

/// The big-endian 64-bit number at `off`.
pub open spec fn be64(s: Seq<u8>, off: int) -> int {
    be32(s, off + 4) + 0x1_0000_0000 * be32(s, off)
}

/// `s` with `data` written over it from `off` on.
pub open spec fn splice(s: Seq<u8>, off: int, data: Seq<u8>) -> Seq<u8> {
    Seq::new(
        s.len(),
        |i: int|
            if off <= i < off + data.len() {
                data[i - off]
            } else {
                s[i]
            },
    )
}

/// The two bytes of a 16-bit number, low byte first.
pub open spec fn le16_bytes(v: int) -> Seq<u8> {
    seq![(v % 0x100) as u8, (v / 0x100 % 0x100) as u8]
}

/// The four bytes of a 32-bit number, low byte first.
pub open spec fn le32_bytes(v: int) -> Seq<u8> {
    seq![
        (v % 0x100) as u8,
        (v / 0x100 % 0x100) as u8,
        (v / 0x1_0000 % 0x100) as u8,
        (v / 0x100_0000 % 0x100) as u8,
    ]
}

/// A 16-bit number spliced in at `off` reads back from `off`.
pub proof fn lemma_le16_round_trip(s: Seq<u8>, off: int, v: int)
    requires
        0 <= off,
        off + 2 <= s.len(),
        0 <= v < 0x1_0000,
    ensures
        le16(splice(s, off, le16_bytes(v)), off) == v,
{
}

/// A 32-bit number is made up of its four bytes.
proof fn lemma_four_bytes(v: int)
    requires
        0 <= v < 0x1_0000_0000,
    ensures
        v == v % 0x100 + 0x100 * (v / 0x100 % 0x100) + 0x1_0000 * (v / 0x1_0000 % 0x100)
            + 0x100_0000 * (v / 0x100_0000 % 0x100),
{
    let a = v / 0x100;
    let b = a / 0x100;
    let c = b / 0x100;
    assert(v == 0x100 * a + v % 0x100);
    assert(a == 0x100 * b + a % 0x100);
    assert(b == 0x100 * c + b % 0x100);
    assert(b == v / 0x1_0000);
    assert(c == v / 0x100_0000);
    assert(c % 0x100 == c);
}

/// A 32-bit number spliced in at `off` reads back from `off`.
pub proof fn lemma_le32_round_trip(s: Seq<u8>, off: int, v: int)
    requires
        0 <= off,
        off + 4 <= s.len(),
        0 <= v < 0x1_0000_0000,
    ensures
        le32(splice(s, off, le32_bytes(v)), off) == v,
{
    let t = splice(s, off, le32_bytes(v));
    let b0 = v % 0x100;
    let b1 = v / 0x100 % 0x100;
    let b2 = v / 0x1_0000 % 0x100;
    let b3 = v / 0x100_0000 % 0x100;
    assert(t[off] == b0);
    assert(t[off + 1] == b1);
    assert(t[off + 2] == b2);
    assert(t[off + 3] == b3);
    lemma_four_bytes(v);
}

/// Reads the little-endian 16-bit number at `off`.
pub fn read_le_u16(buf: &[u8], off: usize) -> (r: u16)
    requires
        off + 2 <= buf@.len(),
    ensures
        r == le16(buf@, off as int),
{
    buf[off] as u16 + 0x100 * (buf[off + 1] as u16)
}

/// Reads the little-endian 32-bit number at `off`.
pub fn read_le_u32(buf: &[u8], off: usize) -> (r: u32)
    requires
        off + 4 <= buf@.len(),
    ensures
        r == le32(buf@, off as int),
{
    buf[off] as u32 + 0x100 * (buf[off + 1] as u32) + 0x1_0000 * (buf[off + 2] as u32)
        + 0x100_0000 * (buf[off + 3] as u32)
}

/// Reads the little-endian 64-bit number at `off`.
pub fn read_le_u64(buf: &[u8], off: usize) -> (r: u64)
    requires
        off + 8 <= buf@.len(),
    ensures
        r == le64(buf@, off as int),
{
    assert(buf@.len() == buf.len());
    read_le_u32(buf, off) as u64 + 0x1_0000_0000 * (read_le_u32(buf, off + 4) as u64)
}

/// Reads the big-endian 32-bit number at `off`.
pub fn read_be_u32(buf: &[u8], off: usize) -> (r: u32)
    requires
        off + 4 <= buf@.len(),
    ensures
        r == be32(buf@, off as int),
{
    assert(buf@.len() == buf.len());
    buf[off + 3] as u32 + 0x100 * (buf[off + 2] as u32) + 0x1_0000 * (buf[off + 1] as u32)
        + 0x100_0000 * (buf[off] as u32)
}

/// Reads the big-endian 64-bit number at `off`.
pub fn read_be_u64(buf: &[u8], off: usize) -> (r: u64)
    requires
        off + 8 <= buf@.len(),
    ensures
        r == be64(buf@, off as int),
{
    assert(buf@.len() == buf.len());
    read_be_u32(buf, off + 4) as u64 + 0x1_0000_0000 * (read_be_u32(buf, off) as u64)
}

/// Writes the little-endian 16-bit number `v` at `off`.
pub fn put_le_u16(buf: &mut [u8], off: usize, v: u16)
    requires
        off + 2 <= old(buf)@.len(),
    ensures
        final(buf)@ == splice(old(buf)@, off as int, le16_bytes(v as int)),
{
    buf[off] = (v % 0x100) as u8;
    buf[off + 1] = (v / 0x100) as u8;
}

/// Writes the little-endian 32-bit number `v` at `off`.
pub fn put_le_u32(buf: &mut [u8], off: usize, v: u32)
    requires
        off + 4 <= old(buf)@.len(),
    ensures
        final(buf)@ == splice(old(buf)@, off as int, le32_bytes(v as int)),
{
    buf[off] = (v % 0x100) as u8;
    buf[off + 1] = (v / 0x100 % 0x100) as u8;
    buf[off + 2] = (v / 0x1_0000 % 0x100) as u8;
    buf[off + 3] = (v / 0x100_0000) as u8;
}

/// Copies all of `src` into `dst` from `off` on.
pub fn copy_at(dst: &mut [u8], off: usize, src: &[u8])
    requires
        off + src@.len() <= old(dst)@.len(),
    ensures
        final(dst)@ == splice(old(dst)@, off as int, src@),
{
    let mut i: usize = 0;
    while i < src.len()
        invariant
            i <= src@.len(),
            off + src@.len() <= old(dst)@.len(),
            dst@ == splice(old(dst)@, off as int, src@.subrange(0, i as int)),
        decreases src@.len() - i,
    {
        assert(dst@.len() == dst.len());
        dst[off + i] = src[i];
        i = i + 1;
    }
    assert(src@.subrange(0, i as int) =~= src@);
}

/// The bytes `from..to` of `buf` in a vector of their own.
pub fn sub_vec(buf: &[u8], from: usize, to: usize) -> (r: Vec<u8>)
    requires
        from <= to <= buf@.len(),
    ensures
        r@ == buf@.subrange(from as int, to as int),
{
    slice_to_vec(slice_subrange(buf, from, to))
}

} // verus!
