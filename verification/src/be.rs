//! Big-endian framing of the fixed-width integers, as specification
//! functions over byte sequences, with the round-trip facts the codec needs.

use vstd::prelude::*;

verus! {

/// The two big-endian bytes of a 16-bit value.
pub open spec fn be16(x: u16) -> Seq<u8> {
    seq![(x >> 8) as u8, x as u8]
}

/// The 16-bit value framed by two big-endian bytes.
pub open spec fn u16_be(b0: u8, b1: u8) -> u16 {
    ((b0 as u16) << 8) | (b1 as u16)
}

/// The four big-endian bytes of a 32-bit value.
pub open spec fn be32(x: u32) -> Seq<u8> {
    seq![(x >> 24) as u8, (x >> 16) as u8, (x >> 8) as u8, x as u8]
}

/// The 32-bit value framed by four big-endian bytes.
pub open spec fn u32_be(b0: u8, b1: u8, b2: u8, b3: u8) -> u32 {
    ((b0 as u32) << 24) | ((b1 as u32) << 16) | ((b2 as u32) << 8) | (b3 as u32)
}

/// The eight big-endian bytes of a 64-bit value.
pub open spec fn be64(x: u64) -> Seq<u8> {
    seq![
        (x >> 56) as u8,
        (x >> 48) as u8,
        (x >> 40) as u8,
        (x >> 32) as u8,
        (x >> 24) as u8,
        (x >> 16) as u8,
        (x >> 8) as u8,
        x as u8,
    ]
}

/// The 64-bit value framed by eight big-endian bytes.
pub open spec fn u64_be(
    b0: u8,
    b1: u8,
    b2: u8,
    b3: u8,
    b4: u8,
    b5: u8,
    b6: u8,
    b7: u8,
) -> u64 {
    ((b0 as u64) << 56) | ((b1 as u64) << 48) | ((b2 as u64) << 40) | ((b3 as u64) << 32)
        | ((b4 as u64) << 24) | ((b5 as u64) << 16) | ((b6 as u64) << 8) | (b7 as u64)
}

/// Reading back the two bytes of a 16-bit value gives the value, and
/// framing the value read from two bytes gives the bytes.
pub proof fn lemma_be16_roundtrip(x: u16, b0: u8, b1: u8)
    ensures
        u16_be((x >> 8) as u8, x as u8) == x,
        (u16_be(b0, b1) >> 8) as u8 == b0,
        u16_be(b0, b1) as u8 == b1,
{
    assert((((x >> 8) as u8 as u16) << 8) | (x as u8 as u16) == x) by (bit_vector);
    assert(((((b0 as u16) << 8) | (b1 as u16)) >> 8) as u8 == b0) by (bit_vector);
    assert((((b0 as u16) << 8) | (b1 as u16)) as u8 == b1) by (bit_vector);
}

/// The same two facts for 32-bit values and four bytes.
pub proof fn lemma_be32_roundtrip(x: u32, b0: u8, b1: u8, b2: u8, b3: u8)
    ensures
        u32_be((x >> 24) as u8, (x >> 16) as u8, (x >> 8) as u8, x as u8) == x,
        (u32_be(b0, b1, b2, b3) >> 24) as u8 == b0,
        (u32_be(b0, b1, b2, b3) >> 16) as u8 == b1,
        (u32_be(b0, b1, b2, b3) >> 8) as u8 == b2,
        u32_be(b0, b1, b2, b3) as u8 == b3,
{
    assert((((x >> 24) as u8 as u32) << 24) | (((x >> 16) as u8 as u32) << 16) | (((x >> 8) as u8
        as u32) << 8) | (x as u8 as u32) == x) by (bit_vector);
    let y = ((b0 as u32) << 24) | ((b1 as u32) << 16) | ((b2 as u32) << 8) | (b3 as u32);
    assert({
        &&& ((((b0 as u32) << 24) | ((b1 as u32) << 16) | ((b2 as u32) << 8) | (b3 as u32)) >> 24)
            as u8 == b0
        &&& ((((b0 as u32) << 24) | ((b1 as u32) << 16) | ((b2 as u32) << 8) | (b3 as u32)) >> 16)
            as u8 == b1
        &&& ((((b0 as u32) << 24) | ((b1 as u32) << 16) | ((b2 as u32) << 8) | (b3 as u32)) >> 8)
            as u8 == b2
        &&& (((b0 as u32) << 24) | ((b1 as u32) << 16) | ((b2 as u32) << 8) | (b3 as u32)) as u8
            == b3
    }) by (bit_vector);
}

/// The same two facts for 64-bit values and eight bytes.
pub proof fn lemma_be64_roundtrip(x: u64, b0: u8, b1: u8, b2: u8, b3: u8, b4: u8, b5: u8, b6: u8, b7: u8)
    ensures
        u64_be(
            (x >> 56) as u8,
            (x >> 48) as u8,
            (x >> 40) as u8,
            (x >> 32) as u8,
            (x >> 24) as u8,
            (x >> 16) as u8,
            (x >> 8) as u8,
            x as u8,
        ) == x,
        (u64_be(b0, b1, b2, b3, b4, b5, b6, b7) >> 56) as u8 == b0,
        (u64_be(b0, b1, b2, b3, b4, b5, b6, b7) >> 48) as u8 == b1,
        (u64_be(b0, b1, b2, b3, b4, b5, b6, b7) >> 40) as u8 == b2,
        (u64_be(b0, b1, b2, b3, b4, b5, b6, b7) >> 32) as u8 == b3,
        (u64_be(b0, b1, b2, b3, b4, b5, b6, b7) >> 24) as u8 == b4,
        (u64_be(b0, b1, b2, b3, b4, b5, b6, b7) >> 16) as u8 == b5,
        (u64_be(b0, b1, b2, b3, b4, b5, b6, b7) >> 8) as u8 == b6,
        u64_be(b0, b1, b2, b3, b4, b5, b6, b7) as u8 == b7,
{
    assert((((x >> 56) as u8 as u64) << 56) | (((x >> 48) as u8 as u64) << 48) | (((x >> 40) as u8
        as u64) << 40) | (((x >> 32) as u8 as u64) << 32) | (((x >> 24) as u8 as u64) << 24) | (((x
        >> 16) as u8 as u64) << 16) | (((x >> 8) as u8 as u64) << 8) | (x as u8 as u64) == x)
        by (bit_vector);
    let y = ((b0 as u64) << 56) | ((b1 as u64) << 48) | ((b2 as u64) << 40) | ((b3 as u64) << 32)
        | ((b4 as u64) << 24) | ((b5 as u64) << 16) | ((b6 as u64) << 8) | (b7 as u64);
    assert({
        let y = ((b0 as u64) << 56) | ((b1 as u64) << 48) | ((b2 as u64) << 40) | ((b3 as u64)
            << 32) | ((b4 as u64) << 24) | ((b5 as u64) << 16) | ((b6 as u64) << 8) | (b7 as u64);
        &&& (y >> 56) as u8 == b0
        &&& (y >> 48) as u8 == b1
        &&& (y >> 40) as u8 == b2
        &&& (y >> 32) as u8 == b3
        &&& (y >> 24) as u8 == b4
        &&& (y >> 16) as u8 == b5
        &&& (y >> 8) as u8 == b6
        &&& y as u8 == b7
    }) by (bit_vector);
}

/// A signed 16-bit value survives the trip through its unsigned framing.
pub proof fn lemma_i16_u16(x: i16, u: u16)
    ensures
        x as u16 as i16 == x,
        u as i16 as u16 == u,
{
    assert(x as u16 as i16 == x) by (bit_vector);
    assert(u as i16 as u16 == u) by (bit_vector);
}

/// A signed 32-bit value survives the trip through its unsigned framing.
pub proof fn lemma_i32_u32(x: i32, u: u32)
    ensures
        x as u32 as i32 == x,
        u as i32 as u32 == u,
{
    assert(x as u32 as i32 == x) by (bit_vector);
    assert(u as i32 as u32 == u) by (bit_vector);
}

/// A signed 64-bit value survives the trip through its unsigned framing.
pub proof fn lemma_i64_u64(x: i64, u: u64)
    ensures
        x as u64 as i64 == x,
        u as i64 as u64 == u,
{
    assert(x as u64 as i64 == x) by (bit_vector);
    assert(u as i64 as u64 == u) by (bit_vector);
}

} // verus!
