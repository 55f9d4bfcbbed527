//! Per-byte bit and nibble permutations shared by the two codecs.

use vstd::prelude::*;

verus! {

/// Bit `k` (0 = least significant) of byte `b`, as 0 or 1.
pub open spec fn bit(b: u8, k: u8) -> u8 {
    (b >> k) & 1
}

/// `b` with the order of its eight bits reversed: bit 0 swaps with
/// bit 7, bit 1 with bit 6, and so on.
pub open spec fn rev_bits(b: u8) -> u8 {
    (bit(b, 0) << 7) | (bit(b, 1) << 6) | (bit(b, 2) << 5) | (bit(b, 3) << 4) | (bit(b, 4) << 3)
        | (bit(b, 5) << 2) | (bit(b, 6) << 1) | bit(b, 7)
}

/// `b` with its high nibble (bits 7-4) and low nibble (bits 3-0) swapped.
pub open spec fn swap_nibbles(b: u8) -> u8 {
    ((b & 0x0f) << 4) | (b >> 4)
}

/// The per-byte permutation of the binary codec: reverse the bit order
/// when `reversed` is set, else leave the byte unchanged.
pub open spec fn bit_mode(b: u8, reversed: bool) -> u8 {
    if reversed {
        rev_bits(b)
    } else {
        b
    }
}

/// The per-byte permutation of the hex codec: swap the nibbles when
/// `reversed` is set, else leave the byte unchanged.
pub open spec fn nibble_mode(b: u8, reversed: bool) -> u8 {
    if reversed {
        swap_nibbles(b)
    } else {
        b
    }
}

/// Reversing the bit order twice restores the byte.
pub proof fn lemma_rev_bits_involution(b: u8)
    ensures
        rev_bits(rev_bits(b)) == b,
{
    assert(rev_bits(rev_bits(b)) == b) by (bit_vector);
}

/// Swapping the nibbles twice restores the byte.
pub proof fn lemma_swap_nibbles_involution(b: u8)
    ensures
        swap_nibbles(swap_nibbles(b)) == b,
{
    assert(swap_nibbles(swap_nibbles(b)) == b) by (bit_vector);
}

/// Either per-byte permutation, applied twice, restores the byte.
pub proof fn lemma_modes_involution(b: u8, reversed: bool)
    ensures
        bit_mode(bit_mode(b, reversed), reversed) == b,
        nibble_mode(nibble_mode(b, reversed), reversed) == b,
{
    if reversed {
        lemma_rev_bits_involution(b);
        lemma_swap_nibbles_involution(b);
    }
}

/// Executable bit-order reversal of one byte.
pub fn reversed_bits(b: u8) -> (r: u8)
    ensures
        r == rev_bits(b),
{
    let r = (((b >> 0) & 1) << 7) | (((b >> 1) & 1) << 6) | (((b >> 2) & 1) << 5) | (((b >> 3)
        & 1) << 4) | (((b >> 4) & 1) << 3) | (((b >> 5) & 1) << 2) | (((b >> 6) & 1) << 1) | ((b
        >> 7) & 1);
    proof {
        assert(r == ((bit(b, 0) << 7) | (bit(b, 1) << 6) | (bit(b, 2) << 5) | (bit(b, 3) << 4) | (
        bit(b, 4) << 3) | (bit(b, 5) << 2) | (bit(b, 6) << 1) | bit(b, 7)));
    }
    r
}

/// Executable nibble swap of one byte.
pub fn swapped_nibbles(b: u8) -> (r: u8)
    ensures
        r == swap_nibbles(b),
{
    ((b & 0x0f) << 4) | (b >> 4)
}

} // verus!
