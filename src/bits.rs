//! Bits of a byte, least significant first.
use vstd::prelude::*;

verus! {

/// Bit `k` of `b`, where bit 0 is the least significant; false outside 0..8.
pub open spec fn bit_at(b: u8, k: int) -> bool {
    0 <= k < 8 && (b >> (k as u8)) & 1u8 == 1u8
}

/// The eight bits of `b`, least significant first.
pub open spec fn byte_bits(b: u8) -> Seq<bool> {
    Seq::new(8, |k: int| bit_at(b, k))
}

/// The byte whose bit `k` is `bk`.
pub open spec fn pack_bits(
    b0: bool,
    b1: bool,
    b2: bool,
    b3: bool,
    b4: bool,
    b5: bool,
    b6: bool,
    b7: bool,
) -> u8 {
    (if b0 { 1u8 } else { 0u8 }) | (if b1 { 2u8 } else { 0u8 }) | (if b2 { 4u8 } else { 0u8 }) | (
    if b3 { 8u8 } else { 0u8 }) | (if b4 { 16u8 } else { 0u8 }) | (if b5 { 32u8 } else { 0u8 }) | (
    if b6 { 64u8 } else { 0u8 }) | (if b7 { 128u8 } else { 0u8 })
}

/// The byte whose bits, least significant first, are the first eight of `s`.
pub open spec fn pack8(s: Seq<bool>) -> u8 {
    pack_bits(s[0], s[1], s[2], s[3], s[4], s[5], s[6], s[7])
}

/// Packing the bits of a byte gives the byte back.
pub proof fn lemma_pack_of_bits(u: u8)
    ensures
        pack_bits(
            bit_at(u, 0),
            bit_at(u, 1),
            bit_at(u, 2),
            bit_at(u, 3),
            bit_at(u, 4),
            bit_at(u, 5),
            bit_at(u, 6),
            bit_at(u, 7),
        ) == u,
{
    assert(pack_bits(
        (u >> 0u8) & 1u8 == 1u8,
        (u >> 1u8) & 1u8 == 1u8,
        (u >> 2u8) & 1u8 == 1u8,
        (u >> 3u8) & 1u8 == 1u8,
        (u >> 4u8) & 1u8 == 1u8,
        (u >> 5u8) & 1u8 == 1u8,
        (u >> 6u8) & 1u8 == 1u8,
        (u >> 7u8) & 1u8 == 1u8,
    ) == u) by (bit_vector);
}

/// The bits of a packed byte are the bits it was packed from.
pub proof fn lemma_bits_of_pack(
    b0: bool,
    b1: bool,
    b2: bool,
    b3: bool,
    b4: bool,
    b5: bool,
    b6: bool,
    b7: bool,
)
    ensures
        byte_bits(pack_bits(b0, b1, b2, b3, b4, b5, b6, b7)) == seq![b0, b1, b2, b3, b4, b5, b6, b7],
{
    let p = pack_bits(b0, b1, b2, b3, b4, b5, b6, b7);
    assert((p >> 0u8) & 1u8 == 1u8 <==> b0) by (bit_vector)
        requires p == pack_bits(b0, b1, b2, b3, b4, b5, b6, b7);
    assert((p >> 1u8) & 1u8 == 1u8 <==> b1) by (bit_vector)
        requires p == pack_bits(b0, b1, b2, b3, b4, b5, b6, b7);
    assert((p >> 2u8) & 1u8 == 1u8 <==> b2) by (bit_vector)
        requires p == pack_bits(b0, b1, b2, b3, b4, b5, b6, b7);
    assert((p >> 3u8) & 1u8 == 1u8 <==> b3) by (bit_vector)
        requires p == pack_bits(b0, b1, b2, b3, b4, b5, b6, b7);
    assert((p >> 4u8) & 1u8 == 1u8 <==> b4) by (bit_vector)
        requires p == pack_bits(b0, b1, b2, b3, b4, b5, b6, b7);
    assert((p >> 5u8) & 1u8 == 1u8 <==> b5) by (bit_vector)
        requires p == pack_bits(b0, b1, b2, b3, b4, b5, b6, b7);
    assert((p >> 6u8) & 1u8 == 1u8 <==> b6) by (bit_vector)
        requires p == pack_bits(b0, b1, b2, b3, b4, b5, b6, b7);
    assert((p >> 7u8) & 1u8 == 1u8 <==> b7) by (bit_vector)
        requires p == pack_bits(b0, b1, b2, b3, b4, b5, b6, b7);
    assert(byte_bits(p) =~= seq![b0, b1, b2, b3, b4, b5, b6, b7]);
}

/// Reading single bits of a byte.
pub trait GetBitAt {
    /// Bit `n`, least significant first; false for `n >= 8`.
    fn get_bit_at(self, n: u8) -> bool;

    /// All eight bits, least significant first.
    fn to_bools(self) -> [bool; 8];
}

impl GetBitAt for u8 {
    fn get_bit_at(self, n: u8) -> (r: bool)
        ensures
            r == bit_at(self, n as int),
    {
        if n < 8 {
            let r = self & (1u8 << n) != 0;
            assert(r == ((self >> n) & 1u8 == 1u8)) by (bit_vector)
                requires
                    n < 8,
                    r == (self & (1u8 << n) != 0),
            ;
            r
        } else {
            false
        }
    }

    fn to_bools(self) -> (r: [bool; 8])
        ensures
            r@ == byte_bits(self),
    {
        let r = [
            (self >> 0u8) & 1u8 == 1u8,
            (self >> 1u8) & 1u8 == 1u8,
            (self >> 2u8) & 1u8 == 1u8,
            (self >> 3u8) & 1u8 == 1u8,
            (self >> 4u8) & 1u8 == 1u8,
            (self >> 5u8) & 1u8 == 1u8,
            (self >> 6u8) & 1u8 == 1u8,
            (self >> 7u8) & 1u8 == 1u8,
        ];
        assert(r@ =~= byte_bits(self));
        r
    }
}

/// Packs eight bits, least significant first, into a byte.
pub fn bools_to_u8(bools: [bool; 8]) -> (r: u8)
    ensures
        r == pack8(bools@),
        byte_bits(r) == bools@,
{
    let r = (if bools[0] { 1u8 } else { 0u8 }) | (if bools[1] { 2u8 } else { 0u8 }) | (if bools[2] {
        4u8
    } else {
        0u8
    }) | (if bools[3] { 8u8 } else { 0u8 }) | (if bools[4] { 16u8 } else { 0u8 }) | (if bools[5] {
        32u8
    } else {
        0u8
    }) | (if bools[6] { 64u8 } else { 0u8 }) | (if bools[7] { 128u8 } else { 0u8 });
    proof {
        lemma_bits_of_pack(bools[0], bools[1], bools[2], bools[3], bools[4], bools[5], bools[6], bools[7]);
        assert(bools@ =~= seq![bools[0], bools[1], bools[2], bools[3], bools[4], bools[5], bools[6], bools[7]]);
    }
    r
}

/// Packing the bits of any byte gives the byte back.
pub proof fn lemma_bools_round_trip(u: u8)
    ensures
        pack8(byte_bits(u)) == u,
{
    lemma_pack_of_bits(u);
}

} // verus!
