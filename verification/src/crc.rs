//! CRC-32 (IEEE, the one gzip and zip use).

use vstd::prelude::*;

verus! {

/// One step of dividing by the reversed polynomial: the low bit is shifted
/// out, and the polynomial is subtracted if it was set.
pub open spec fn crc_bit(c: u32) -> u32 {
    if c & 1 != 0 {
        0xEDB8_8320u32 ^ (c >> 1)
    } else {
        c >> 1
    }
}

/// Eight steps.
pub open spec fn crc_octet(c: u32) -> u32 {
    crc_bit(crc_bit(crc_bit(crc_bit(crc_bit(crc_bit(crc_bit(crc_bit(c))))))))
}

/// The remainder after `data` has been fed in, byte by byte, behind `c`.
pub open spec fn crc_register(c: u32, data: Seq<u8>) -> u32
    decreases data.len(),
{
    if data.len() == 0 {
        c
    } else {
        crc_octet(crc_register(c, data.drop_last()) ^ (data.last() as u32))
    }
}

/// The CRC-32 of `data`.
pub open spec fn crc_of(data: Seq<u8>) -> u32 {
    !crc_register(!0u32, data)
}

/// Eight steps depend on the low byte and merely shift the rest.
proof fn lemma_octet_by_table(x: u32)
    ensures
        crc_octet(x) == (x >> 8) ^ crc_octet(x & 0xff),
{
    assert(crc_octet(x) == (x >> 8) ^ crc_octet(x & 0xff)) by (bit_vector);
}

/// What eight steps make of each byte.
fn octet_table() -> (t: Vec<u32>)
    ensures
        t@.len() == 256,
        forall|i: int| 0 <= i < 256 ==> #[trigger] t@[i] == crc_octet(i as u32),
{
    let mut t: Vec<u32> = Vec::with_capacity(256);
    let mut i: u32 = 0;
    while i < 256
        invariant
            i <= 256,
            t@.len() == i,
            forall|k: int| 0 <= k < i ==> #[trigger] t@[k] == crc_octet(k as u32),
        decreases 256 - i,
    {
        let a: u32 = step(step(step(step(i))));
        let b: u32 = step(step(step(step(a))));
        t.push(b);
        i = i + 1;
    }
    t
}

/// One step.
fn step(c: u32) -> (r: u32)
    ensures
        r == crc_bit(c),
{
    if c & 1 != 0 {
        0xEDB8_8320u32 ^ (c >> 1)
    } else {
        c >> 1
    }
}

/// CRC-32, so a received file can be checked against what was actually read off
/// the sender's disk. A wrong chunk that somehow passed length validation shows
/// up here.
pub fn crc32(data: &[u8]) -> (r: u32)
    ensures
        r == crc_of(data@),
{
    let table = octet_table();
    let mut crc: u32 = !0u32;
    let mut i: usize = 0;
    while i < data.len()
        invariant
            i <= data@.len(),
            table@.len() == 256,
            forall|k: int| 0 <= k < 256 ==> #[trigger] table@[k] == crc_octet(k as u32),
            crc == crc_register(!0u32, data@.take(i as int)),
        decreases data@.len() - i,
    {
        let b: u32 = data[i] as u32;
        let slot: u32 = (crc ^ b) & 0xff;
        proof {
            let x = crc ^ b;
            assert(slot == x & 0xff && slot < 256) by (bit_vector)
                requires
                    slot == x & 0xff,
            ;
            lemma_octet_by_table(x);
            assert((x >> 8) == (crc >> 8)) by (bit_vector)
                requires
                    x == crc ^ b,
                    b < 256,
            ;
            assert(data@.take(i + 1).drop_last() == data@.take(i as int));
            assert(data@.take(i + 1).last() == data@[i as int]);
        }
        crc = (crc >> 8) ^ table[slot as usize];
        i = i + 1;
    }
    assert(data@.take(data@.len() as int) == data@);
    !crc
}

// ---------------------------------------------------------------------------
// laws
// ---------------------------------------------------------------------------

/// No two registers become one.
proof fn lemma_octet_is_one_to_one(a: u32, b: u32)
    ensures
        crc_octet(a) == crc_octet(b) ==> a == b,
{
    assert forall|x: u32, y: u32| #[trigger] crc_bit(x) == #[trigger] crc_bit(y) implies x == y by {
        assert(crc_bit(x) == crc_bit(y) ==> x == y) by (bit_vector);
    }
}

/// The same bytes behind two different registers leave two different registers.
proof fn lemma_register_is_one_to_one(a: u32, b: u32, data: Seq<u8>)
    requires
        a != b,
    ensures
        crc_register(a, data) != crc_register(b, data),
    decreases data.len(),
{
    if data.len() > 0 {
        lemma_register_is_one_to_one(a, b, data.drop_last());
        let x = crc_register(a, data.drop_last());
        let y = crc_register(b, data.drop_last());
        let v = data.last() as u32;
        assert(x != y ==> x ^ v != y ^ v) by (bit_vector);
        lemma_octet_is_one_to_one(x ^ v, y ^ v);
    }
}

/// Feeding in two runs of bytes is feeding in the first and then the second.
proof fn lemma_register_splits(c: u32, front: Seq<u8>, back: Seq<u8>)
    ensures
        crc_register(c, front + back) == crc_register(crc_register(c, front), back),
    decreases back.len(),
{
    if back.len() == 0 {
        assert(front + back == front);
    } else {
        assert((front + back).drop_last() == front + back.drop_last());
        assert((front + back).last() == back.last());
        lemma_register_splits(c, front, back.drop_last());
    }
}

/// Changing any one byte of a file changes its CRC-32.
pub proof fn law_one_wrong_byte_shows(data: Seq<u8>, at: int, wrong: u8)
    requires
        0 <= at < data.len(),
        wrong != data[at],
    ensures
        crc_of(data.update(at, wrong)) != crc_of(data),
{
    let front = data.take(at);
    let back = data.skip(at + 1);
    let good = data[at];
    let c = crc_register(!0u32, front);
    assert(data == front.push(good) + back);
    assert(data.update(at, wrong) == front.push(wrong) + back);
    lemma_register_splits(!0u32, front.push(good), back);
    lemma_register_splits(!0u32, front.push(wrong), back);
    assert(front.push(good).drop_last() == front);
    assert(front.push(wrong).drop_last() == front);
    assert(good != wrong ==> c ^ (good as u32) != c ^ (wrong as u32)) by (bit_vector);
    lemma_octet_is_one_to_one(c ^ (good as u32), c ^ (wrong as u32));
    let x = crc_register(!0u32, front.push(good));
    let y = crc_register(!0u32, front.push(wrong));
    lemma_register_is_one_to_one(x, y, back);
    let p = crc_register(x, back);
    let q = crc_register(y, back);
    assert(p != q ==> !p != !q) by (bit_vector);
}

} // verus!
