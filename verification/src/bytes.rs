//! Bytes at fixed offsets: little-endian integers and runs of raw bytes.

use vstd::prelude::*;
use vstd::slice::*;

verus! {

/// `v` as two bytes, low byte first.
pub open spec fn le16(v: u16) -> Seq<u8> {
    seq![(v % 256) as u8, (v / 256) as u8]
}

/// `v` as four bytes, low byte first.
pub open spec fn le32(v: u32) -> Seq<u8> {
    seq![
        (v % 256) as u8,
        (v / 256 % 256) as u8,
        (v / 65536 % 256) as u8,
        (v / 16777216) as u8,
    ]
}

/// `v` as eight bytes, low byte first.
pub open spec fn le64(v: u64) -> Seq<u8> {
    le32((v % 4294967296) as u32) + le32((v / 4294967296) as u32)
}

/// The two-byte integer at `off`.
pub open spec fn at16(b: Seq<u8>, off: int) -> u16 {
    (b[off] + 256 * b[off + 1]) as u16
}

/// The four-byte integer at `off`.
pub open spec fn at32(b: Seq<u8>, off: int) -> u32 {
    (b[off] + 256 * b[off + 1] + 65536 * b[off + 2] + 16777216 * b[off + 3]) as u32
}

/// The eight-byte integer at `off`.
pub open spec fn at64(b: Seq<u8>, off: int) -> u64 {
    (at32(b, off) + 4294967296 * at32(b, off + 4)) as u64
}

/// Whether `part` stands in `b` from `off` on.
pub open spec fn stands_at(b: Seq<u8>, off: int, part: Seq<u8>) -> bool {
    &&& 0 <= off
    &&& off + part.len() <= b.len()
    &&& b.subrange(off, off + part.len()) == part
}

/// Reading two bytes gives back the integer that was written there.
pub proof fn lemma_at16(b: Seq<u8>, off: int, v: u16)
    requires
        stands_at(b, off, le16(v)),
    ensures
        at16(b, off) == v,
{
    let part = b.subrange(off, off + 2);
    assert(part[0] == b[off] && part[1] == b[off + 1]);
}

/// Reading four bytes gives back the integer that was written there.
pub proof fn lemma_at32(b: Seq<u8>, off: int, v: u32)
    requires
        stands_at(b, off, le32(v)),
    ensures
        at32(b, off) == v,
{
    let part = b.subrange(off, off + 4);
    assert(part[0] == b[off] && part[1] == b[off + 1] && part[2] == b[off + 2] && part[3] == b[off
        + 3]);
}

/// Reading eight bytes gives back the integer that was written there.
pub proof fn lemma_at64(b: Seq<u8>, off: int, v: u64)
    requires
        stands_at(b, off, le64(v)),
    ensures
        at64(b, off) == v,
{
    let part = b.subrange(off, off + 8);
    let lo = (v % 4294967296) as u32;
    let hi = (v / 4294967296) as u32;
    assert(b.subrange(off, off + 4) == part.take(4));
    assert(part.take(4) == le32(lo));
    assert(b.subrange(off + 4, off + 8) == part.skip(4));
    assert(part.skip(4) == le32(hi));
    lemma_at32(b, off, lo);
    lemma_at32(b, off + 4, hi);
}

/// Append raw bytes.
pub fn put_bytes(buf: &mut Vec<u8>, more: &[u8])
    ensures
        final(buf)@ == old(buf)@ + more@,
{
    buf.extend_from_slice(more);
    assert(buf@ == old(buf)@ + more@);
}

/// Append a two-byte integer.
pub fn put_u16(buf: &mut Vec<u8>, v: u16)
    ensures
        final(buf)@ == old(buf)@ + le16(v),
{
    buf.push((v % 256) as u8);
    buf.push((v / 256) as u8);
    assert(buf@ == old(buf)@ + le16(v));
}

/// Append a four-byte integer.
pub fn put_u32(buf: &mut Vec<u8>, v: u32)
    ensures
        final(buf)@ == old(buf)@ + le32(v),
{
    buf.push((v % 256) as u8);
    buf.push((v / 256 % 256) as u8);
    buf.push((v / 65536 % 256) as u8);
    buf.push((v / 16777216) as u8);
    assert(buf@ == old(buf)@ + le32(v));
}

/// Append an eight-byte integer.
pub fn put_u64(buf: &mut Vec<u8>, v: u64)
    ensures
        final(buf)@ == old(buf)@ + le64(v),
{
    put_u32(buf, (v % 4294967296) as u32);
    put_u32(buf, (v / 4294967296) as u32);
    assert(buf@ == old(buf)@ + le64(v));
}

/// The two-byte integer at `off`.
pub fn get_u16(buf: &[u8], off: usize) -> (r: u16)
    requires
        off + 2 <= buf@.len(),
    ensures
        r == at16(buf@, off as int),
{
    buf[off] as u16 + 256 * (buf[off + 1] as u16)
}

/// The four-byte integer at `off`.
pub fn get_u32(buf: &[u8], off: usize) -> (r: u32)
    requires
        off + 4 <= buf@.len(),
    ensures
        r == at32(buf@, off as int),
{
    buf[off] as u32 + 256 * (buf[off + 1] as u32) + 65536 * (buf[off + 2] as u32) + 16777216 * (
    buf[off + 3] as u32)
}

/// The eight-byte integer at `off`.
pub fn get_u64(buf: &[u8], off: usize) -> (r: u64)
    requires
        off + 8 <= buf@.len(),
    ensures
        r == at64(buf@, off as int),
{
    assert(off + 8 <= buf.len());
    get_u32(buf, off) as u64 + 4294967296 * (get_u32(buf, off + 4) as u64)
}

/// A copy of `buf[from..to]`.
pub fn copy_of(buf: &[u8], from: usize, to: usize) -> (r: Vec<u8>)
    requires
        from <= to <= buf@.len(),
    ensures
        r@ == buf@.subrange(from as int, to as int),
{
    slice_to_vec(slice_subrange(buf, from, to))
}

/// Integers stand with their low byte first: each byte counts 256 times as much
/// as the one before it.
pub proof fn law_integers_stand_low_byte_first(a: u16, b: u32, c: u64)
    ensures
        le16(a).len() == 2,
        a == le16(a)[0] + 0x100 * le16(a)[1],
        le32(b).len() == 4,
        b == le32(b)[0] + 0x100 * le32(b)[1] + 0x1_0000 * le32(b)[2] + 0x100_0000 * le32(b)[3],
        le64(c).len() == 8,
        c == le64(c)[0] + 0x100 * le64(c)[1] + 0x1_0000 * le64(c)[2] + 0x100_0000 * le64(c)[3]
            + 0x1_0000_0000 * le64(c)[4] + 0x100_0000_0000 * le64(c)[5] + 0x1_0000_0000_0000
            * le64(c)[6] + 0x100_0000_0000_0000 * le64(c)[7],
{
    assert(le32(b).subrange(0, 4) == le32(b));
    lemma_at32(le32(b), 0, b);
    let lo = (c % 4294967296) as u32;
    let hi = (c / 4294967296) as u32;
    assert(le32(lo).subrange(0, 4) == le32(lo));
    assert(le32(hi).subrange(0, 4) == le32(hi));
    lemma_at32(le32(lo), 0, lo);
    lemma_at32(le32(hi), 0, hi);
}

/// What is read is what stands there, low byte first, and nothing else.
pub proof fn law_integers_are_read_low_byte_first(b: Seq<u8>, off: int)
    ensures
        at16(b, off) == b[off] + 0x100 * b[off + 1],
        at32(b, off) == b[off] + 0x100 * b[off + 1] + 0x1_0000 * b[off + 2] + 0x100_0000 * b[off
            + 3],
        at64(b, off) == b[off] + 0x100 * b[off + 1] + 0x1_0000 * b[off + 2] + 0x100_0000 * b[off
            + 3] + 0x1_0000_0000 * b[off + 4] + 0x100_0000_0000 * b[off + 5] + 0x1_0000_0000_0000
            * b[off + 6] + 0x100_0000_0000_0000 * b[off + 7],
{
}

} // verus!
