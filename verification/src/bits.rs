use vstd::prelude::*;
use crate::fs_structs::BLOCK_SIZE;

verus! {

/// Number of bits in a bitmap block.
pub open spec fn bitmap_bits() -> int {
    8 * BLOCK_SIZE as int
}

/// Whether bit `k` (0 = least significant) of byte `b` is set.
pub open spec fn byte_bit(b: u8, k: u8) -> bool {
    b & (1u8 << k) != 0u8
}

/// Whether bit `i` of a bitmap is set: bit `i % 8` of byte `i / 8`.
pub open spec fn bit_set(bitmap: Seq<u8>, i: int) -> bool {
    byte_bit(bitmap[i / 8], (i % 8) as u8)
}

/// Setting bit `k` of a byte sets it and leaves the other bits alone.
pub proof fn lemma_byte_set_bit(b: u8, k: u8, j: u8)
    requires
        k < 8,
        j < 8,
    ensures
        byte_bit(b | (1u8 << k), k),
        j != k ==> byte_bit(b | (1u8 << k), j) == byte_bit(b, j),
{
    assert((b | (1u8 << k)) & (1u8 << k) != 0u8) by (bit_vector)
        requires k < 8u8;
    assert(j != k ==> ((b | (1u8 << k)) & (1u8 << j) != 0u8) == (b & (1u8 << j) != 0u8))
        by (bit_vector)
        requires k < 8u8, j < 8u8;
}

/// Clearing bit `k` of a byte clears it and leaves the other bits alone.
pub proof fn lemma_byte_clear_bit(b: u8, k: u8, j: u8)
    requires
        k < 8,
        j < 8,
    ensures
        !byte_bit(b & !(1u8 << k), k),
        j != k ==> byte_bit(b & !(1u8 << k), j) == byte_bit(b, j),
{
    assert((b & !(1u8 << k)) & (1u8 << k) == 0u8) by (bit_vector)
        requires k < 8u8;
    assert(j != k ==> ((b & !(1u8 << k)) & (1u8 << j) != 0u8) == (b & (1u8 << j) != 0u8))
        by (bit_vector)
        requires k < 8u8, j < 8u8;
}

/// Every bit of the byte 0xFF is set.
pub proof fn lemma_full_byte(b: u8, k: u8)
    requires
        b == 0xFFu8,
        k < 8,
    ensures
        byte_bit(b, k),
{
    assert(b & (1u8 << k) != 0u8) by (bit_vector)
        requires b == 0xFFu8, k < 8u8;
}

} // verus!
