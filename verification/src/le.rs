//! Little-endian integers in byte sequences, as the Ogg page header stores them.

use vstd::prelude::*;

verus! {

/// The value of the little-endian number that the bytes `s` encode.
pub open spec fn le_value(s: Seq<u8>) -> int
    decreases s.len(),
{
    if s.len() == 0 {
        0
    } else {
        s[0] + 256 * le_value(s.drop_first())
    }
}

/// The four bytes of `v`, least significant byte first.
pub open spec fn u32_le_seq(v: u32) -> Seq<u8> {
    seq![
        (v & 0xff) as u8,
        ((v >> 8u32) & 0xff) as u8,
        ((v >> 16u32) & 0xff) as u8,
        ((v >> 24u32) & 0xff) as u8,
    ]
}

/// The eight bytes of `v`, least significant byte first.
pub open spec fn u64_le_seq(v: u64) -> Seq<u8> {
    seq![
        (v & 0xff) as u8,
        ((v >> 8u64) & 0xff) as u8,
        ((v >> 16u64) & 0xff) as u8,
        ((v >> 24u64) & 0xff) as u8,
        ((v >> 32u64) & 0xff) as u8,
        ((v >> 40u64) & 0xff) as u8,
        ((v >> 48u64) & 0xff) as u8,
        ((v >> 56u64) & 0xff) as u8,
    ]
}

/// The little-endian value of four explicit bytes.
pub proof fn lemma_le_value4(s: Seq<u8>)
    requires
        s.len() == 4,
    ensures
        le_value(s) == s[0] + 256 * (s[1] + 256 * (s[2] + 256 * s[3] as int)),
{
    reveal_with_fuel(le_value, 5);
    assert(s.drop_first().drop_first().drop_first().drop_first().len() == 0);
}

/// The little-endian value of eight explicit bytes.
pub proof fn lemma_le_value8(s: Seq<u8>)
    requires
        s.len() == 8,
    ensures
        le_value(s) == s[0] + 256 * (s[1] + 256 * (s[2] + 256 * (s[3] + 256 * (s[4] + 256 * (s[5]
            + 256 * (s[6] + 256 * s[7] as int)))))),
{
    reveal_with_fuel(le_value, 9);
    assert(s.drop_first().drop_first().drop_first().drop_first().drop_first().drop_first().drop_first().drop_first().len() == 0);
}

/// Encoding a `u32` in four little-endian bytes and decoding them gives the number back.
pub proof fn lemma_u32_le_roundtrip(v: u32)
    ensures
        u32_le_seq(v).len() == 4,
        le_value(u32_le_seq(v)) == v,
{
    let s = u32_le_seq(v);
    lemma_le_value4(s);
    let b0 = v & 0xff;
    let b1 = (v >> 8u32) & 0xff;
    let b2 = (v >> 16u32) & 0xff;
    let b3 = (v >> 24u32) & 0xff;
    assert(b0 < 256 && b1 < 256 && b2 < 256 && b3 < 256) by (bit_vector)
        requires
            b0 == v & 0xff,
            b1 == (v >> 8u32) & 0xff,
            b2 == (v >> 16u32) & 0xff,
            b3 == (v >> 24u32) & 0xff,
    ;
    assert(v as int == b0 + 256 * (b1 + 256 * (b2 + 256 * b3 as int))) by (bit_vector)
        requires
            b0 == v & 0xff,
            b1 == (v >> 8u32) & 0xff,
            b2 == (v >> 16u32) & 0xff,
            b3 == (v >> 24u32) & 0xff,
    ;
    assert(s[0] as int == b0 && s[1] as int == b1 && s[2] as int == b2 && s[3] as int == b3);
}

/// Encoding a `u64` in eight little-endian bytes and decoding them gives the number back.
pub proof fn lemma_u64_le_roundtrip(v: u64)
    ensures
        u64_le_seq(v).len() == 8,
        le_value(u64_le_seq(v)) == v,
{
    let s = u64_le_seq(v);
    lemma_le_value8(s);
    let b0 = v & 0xff;
    let b1 = (v >> 8u64) & 0xff;
    let b2 = (v >> 16u64) & 0xff;
    let b3 = (v >> 24u64) & 0xff;
    let b4 = (v >> 32u64) & 0xff;
    let b5 = (v >> 40u64) & 0xff;
    let b6 = (v >> 48u64) & 0xff;
    let b7 = (v >> 56u64) & 0xff;
    assert(b0 < 256 && b1 < 256 && b2 < 256 && b3 < 256 && b4 < 256 && b5 < 256 && b6 < 256 && b7
        < 256) by (bit_vector)
        requires
            b0 == v & 0xff,
            b1 == (v >> 8u64) & 0xff,
            b2 == (v >> 16u64) & 0xff,
            b3 == (v >> 24u64) & 0xff,
            b4 == (v >> 32u64) & 0xff,
            b5 == (v >> 40u64) & 0xff,
            b6 == (v >> 48u64) & 0xff,
            b7 == (v >> 56u64) & 0xff,
    ;
    assert(v as int == b0 + 256 * (b1 + 256 * (b2 + 256 * (b3 + 256 * (b4 + 256 * (b5 + 256 * (b6
        + 256 * b7 as int))))))) by (bit_vector)
        requires
            b0 == v & 0xff,
            b1 == (v >> 8u64) & 0xff,
            b2 == (v >> 16u64) & 0xff,
            b3 == (v >> 24u64) & 0xff,
            b4 == (v >> 32u64) & 0xff,
            b5 == (v >> 40u64) & 0xff,
            b6 == (v >> 48u64) & 0xff,
            b7 == (v >> 56u64) & 0xff,
    ;
    assert(s[0] as int == b0 && s[1] as int == b1 && s[2] as int == b2 && s[3] as int == b3);
    assert(s[4] as int == b4 && s[5] as int == b5 && s[6] as int == b6 && s[7] as int == b7);
}

/// Encodes `v` as eight little-endian bytes.
pub fn u64_to_le_bytes(v: u64) -> (res: [u8; 8])
    ensures
        res@ == u64_le_seq(v),
{
    let res: [u8; 8] = [
        (v & 0xff) as u8,
        ((v >> 8u64) & 0xff) as u8,
        ((v >> 16u64) & 0xff) as u8,
        ((v >> 24u64) & 0xff) as u8,
        ((v >> 32u64) & 0xff) as u8,
        ((v >> 40u64) & 0xff) as u8,
        ((v >> 48u64) & 0xff) as u8,
        ((v >> 56u64) & 0xff) as u8,
    ];
    assert(res@ =~= u64_le_seq(v));
    res
}

} // verus!
