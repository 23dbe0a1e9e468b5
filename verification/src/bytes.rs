//! Little-endian encoding of 32-bit words.
use vstd::prelude::*;

verus! {

/// The value of the four bytes `b[off..off + 4]`, read little-endian.
pub open spec fn le_u32_at(b: Seq<u8>, off: int) -> u32 {
    (b[off] + 256 * b[off + 1] + 65536 * b[off + 2] + 16777216 * b[off + 3]) as u32
}

/// The four little-endian bytes of `x`.
pub open spec fn u32_le(x: u32) -> Seq<u8> {
    seq![
        (x % 256) as u8,
        ((x / 256) % 256) as u8,
        ((x / 65536) % 256) as u8,
        (x / 16777216) as u8,
    ]
}

/// Encoding a word and reading it back gives the word.
pub proof fn lemma_u32_le_roundtrip(x: u32)
    ensures
        u32_le(x).len() == 4,
        le_u32_at(u32_le(x), 0) == x,
{
    assert((x % 256) + 256 * ((x / 256) % 256) + 65536 * ((x / 65536) % 256) + 16777216 * (x / 16777216)
        == x) by (bit_vector);
    assert(((x / 256) % 256) < 256 && ((x / 65536) % 256) < 256 && (x / 16777216) < 256) by (bit_vector);
}

/// Reading four bytes as a word and encoding the word gives the bytes back.
pub proof fn lemma_le_u32_bytes(b0: u8, b1: u8, b2: u8, b3: u8)
    ensures
        u32_le(le_u32_at(seq![b0, b1, b2, b3], 0)) == seq![b0, b1, b2, b3],
{
    let c0 = b0 as u32;
    let c1 = b1 as u32;
    let c2 = b2 as u32;
    let c3 = b3 as u32;
    let x = le_u32_at(seq![b0, b1, b2, b3], 0);
    assert(x == c0 + 256 * c1 + 65536 * c2 + 16777216 * c3);
    assert(x % 256 == c0 && (x / 256) % 256 == c1 && (x / 65536) % 256 == c2 && x / 16777216 == c3)
        by (bit_vector)
        requires
            x == c0 + 256 * c1 + 65536 * c2 + 16777216 * c3,
            c0 < 256,
            c1 < 256,
            c2 < 256,
            c3 < 256,
    ;
    assert(u32_le(x) =~= seq![b0, b1, b2, b3]);
}

/// The little-endian bytes of `x`.
pub fn u32_to_le(x: u32) -> (r: [u8; 4])
    ensures
        r@ == u32_le(x),
{
    let r = [(x % 256) as u8, ((x / 256) % 256) as u8, ((x / 65536) % 256) as u8, (x / 16777216) as u8];
    assert(r@ =~= u32_le(x));
    r
}

/// The word stored little-endian at `b[off..off + 4]`.
pub fn u32_from_le(b: &[u8], off: usize) -> (x: u32)
    requires
        off + 4 <= b@.len(),
    ensures
        x == le_u32_at(b@, off as int),
{
    let b0 = b[off] as u32;
    let b1 = b[off + 1] as u32;
    let b2 = b[off + 2] as u32;
    let b3 = b[off + 3] as u32;
    b0 + 256 * b1 + 65536 * b2 + 16777216 * b3
}

} // verus!
