//! Bit-level facts about `u32` masks used as 25-square boards.
use vstd::prelude::*;

verus! {

/// Whether bit `i` of `x` is set.
pub open spec fn bit(x: u32, i: u32) -> bool {
    i < 32 && (x >> i) & 1u32 == 1u32
}

/// The mask of the 25 board squares.
pub open spec fn board_mask() -> u32 {
    0x1ff_ffffu32
}

pub proof fn lemma_bit_and(a: u32, b: u32, i: u32)
    ensures
        bit(a & b, i) == (bit(a, i) && bit(b, i)),
{
    assert(bit(a & b, i) == (bit(a, i) && bit(b, i))) by (bit_vector);
}

pub proof fn lemma_bit_or(a: u32, b: u32, i: u32)
    ensures
        bit(a | b, i) == (bit(a, i) || bit(b, i)),
{
    assert(bit(a | b, i) == (bit(a, i) || bit(b, i))) by (bit_vector);
}

pub proof fn lemma_bit_xor(a: u32, b: u32, i: u32)
    ensures
        bit(a ^ b, i) == (bit(a, i) != bit(b, i)),
{
    assert(bit(a ^ b, i) == (bit(a, i) != bit(b, i))) by (bit_vector);
}

pub proof fn lemma_bit_not(a: u32, i: u32)
    requires
        i < 32,
    ensures
        bit(!a, i) == !bit(a, i),
{
    assert(i < 32 ==> bit(!a, i) == !bit(a, i)) by (bit_vector);
}

pub proof fn lemma_bit_single(k: u32, i: u32)
    requires
        k < 32,
    ensures
        bit(1u32 << k, i) == (i == k),
{
    assert(k < 32 ==> bit(1u32 << k, i) == (i == k)) by (bit_vector);
}

pub proof fn lemma_bit_zero(i: u32)
    ensures
        !bit(0u32, i),
{
    assert(!bit(0u32, i)) by (bit_vector);
}

/// A mask below `1 << 25` has no bit at or above 25.
pub proof fn lemma_bit_small(x: u32, i: u32)
    requires
        x < 0x200_0000u32,
        i >= 25,
    ensures
        !bit(x, i),
{
    assert(x < 0x200_0000u32 && i >= 25 ==> !bit(x, i)) by (bit_vector);
}

/// A mask with no bit at or above 25 is below `1 << 25`.
pub proof fn lemma_small_from_bits(x: u32)
    requires
        forall|i: u32| 25 <= i < 32 ==> !#[trigger] bit(x, i),
    ensures
        x < 0x200_0000u32,
{
    assert(!bit(x, 25) && !bit(x, 26) && !bit(x, 27) && !bit(x, 28));
    assert(!bit(x, 29) && !bit(x, 30) && !bit(x, 31));
    assert(!bit(x, 25) && !bit(x, 26) && !bit(x, 27) && !bit(x, 28) && !bit(x, 29) && !bit(x, 30)
        && !bit(x, 31) ==> x < 0x200_0000u32) by (bit_vector);
}

/// Two masks with the same bits are equal.
pub proof fn lemma_bits_ext(a: u32, b: u32)
    requires
        forall|i: u32| i < 32 ==> #[trigger] bit(a, i) == bit(b, i),
    ensures
        a == b,
{
    assert forall|i: u32| i < 32 implies !bit(a ^ b, i) by {
        lemma_bit_xor(a, b, i);
    }
    assert(!bit(a ^ b, 0) && !bit(a ^ b, 1) && !bit(a ^ b, 2) && !bit(a ^ b, 3));
    assert(!bit(a ^ b, 4) && !bit(a ^ b, 5) && !bit(a ^ b, 6) && !bit(a ^ b, 7));
    assert(!bit(a ^ b, 8) && !bit(a ^ b, 9) && !bit(a ^ b, 10) && !bit(a ^ b, 11));
    assert(!bit(a ^ b, 12) && !bit(a ^ b, 13) && !bit(a ^ b, 14) && !bit(a ^ b, 15));
    assert(!bit(a ^ b, 16) && !bit(a ^ b, 17) && !bit(a ^ b, 18) && !bit(a ^ b, 19));
    assert(!bit(a ^ b, 20) && !bit(a ^ b, 21) && !bit(a ^ b, 22) && !bit(a ^ b, 23));
    assert(!bit(a ^ b, 24) && !bit(a ^ b, 25) && !bit(a ^ b, 26) && !bit(a ^ b, 27));
    assert(!bit(a ^ b, 28) && !bit(a ^ b, 29) && !bit(a ^ b, 30) && !bit(a ^ b, 31));
    let c = a ^ b;
    assert(!bit(c, 0) && !bit(c, 1) && !bit(c, 2) && !bit(c, 3) && !bit(c, 4) && !bit(c, 5)
        && !bit(c, 6) && !bit(c, 7) && !bit(c, 8) && !bit(c, 9) && !bit(c, 10) && !bit(c, 11)
        && !bit(c, 12) && !bit(c, 13) && !bit(c, 14) && !bit(c, 15) && !bit(c, 16) && !bit(c, 17)
        && !bit(c, 18) && !bit(c, 19) && !bit(c, 20) && !bit(c, 21) && !bit(c, 22) && !bit(c, 23)
        && !bit(c, 24) && !bit(c, 25) && !bit(c, 26) && !bit(c, 27) && !bit(c, 28) && !bit(c, 29)
        && !bit(c, 30) && !bit(c, 31) && c == a ^ b ==> a == b) by (bit_vector);
}

/// Bits of a right shift.
pub proof fn lemma_bit_shr(x: u32, i: u32, j: u32)
    requires
        i < 32,
    ensures
        bit(x >> i, j) == (i + j < 32 && bit(x, (i + j) as u32)),
{
    assert(i < 32 ==> bit(x >> i, j) == (i + j < 32 && bit(x, (i + j) as u32))) by (bit_vector);
}

/// Bit of a one-bit-wide read.
pub proof fn lemma_bit_read(x: u32, i: u32)
    requires
        i < 32,
    ensures
        (x >> i) & 1u32 == (if bit(x, i) { 1u32 } else { 0u32 }),
{
    assert(i < 32 ==> (x >> i) & 1u32 == (if bit(x, i) { 1u32 } else { 0u32 })) by (bit_vector);
}

} // verus!
