//! Ranks of `f32` distances, computed from their bit patterns: a rank is a
//! `u32` whose order is the order of the distances, with every NaN ranked
//! last.
use vstd::prelude::*;

verus! {

/// The bit pattern is that of a NaN: all exponent bits set and a mantissa
/// that is not zero.
pub open spec fn is_nan_bits(bits: u32) -> bool {
    bits & 0x7F80_0000u32 == 0x7F80_0000u32 && bits & 0x007F_FFFFu32 != 0
}

/// The sign bit is set.
pub open spec fn is_negative_bits(bits: u32) -> bool {
    bits & 0x8000_0000u32 != 0
}

/// Exponent and mantissa bits: the order of the absolute values.
pub open spec fn magnitude_bits(bits: u32) -> u32 {
    bits & 0x7FFF_FFFFu32
}

/// `<` on the values of two bit patterns that are not NaN: the two zeros
/// are equal, every negative value is below every positive one, positive
/// values grow with their magnitude and negative values shrink with it.
pub open spec fn float_bits_less(a: u32, b: u32) -> bool {
    if magnitude_bits(a) == 0 && magnitude_bits(b) == 0 {
        false
    } else if is_negative_bits(a) != is_negative_bits(b) {
        is_negative_bits(a)
    } else if is_negative_bits(a) {
        magnitude_bits(a) > magnitude_bits(b)
    } else {
        magnitude_bits(a) < magnitude_bits(b)
    }
}

/// Rank of the distance with bit pattern `bits`.
pub open spec fn spec_distance_rank(bits: u32) -> u32 {
    if is_nan_bits(bits) {
        0xFFFF_FFFFu32
    } else if magnitude_bits(bits) == 0 {
        0x8000_0000u32
    } else if is_negative_bits(bits) {
        !bits
    } else {
        bits | 0x8000_0000u32
    }
}

/// Rank of the distance whose bit pattern (`f32::to_bits`) is `bits`.
pub fn distance_rank(bits: u32) -> (rank: u32)
    ensures
        rank == spec_distance_rank(bits),
{
    if bits & 0x7F80_0000u32 == 0x7F80_0000u32 && bits & 0x007F_FFFFu32 != 0 {
        0xFFFF_FFFFu32
    } else if bits & 0x7FFF_FFFFu32 == 0 {
        0x8000_0000u32
    } else if bits & 0x8000_0000u32 != 0 {
        !bits
    } else {
        bits | 0x8000_0000u32
    }
}

/// Ranks order distances as `<` does: of two values that are not NaN, one
/// is below the other exactly when its rank is, and equal values (the two
/// zeros among them) have equal ranks.
pub proof fn lemma_distance_rank_order(a: u32, b: u32)
    requires
        !is_nan_bits(a),
        !is_nan_bits(b),
    ensures
        float_bits_less(a, b) <==> spec_distance_rank(a) < spec_distance_rank(b),
        !float_bits_less(a, b) && !float_bits_less(b, a) <==> spec_distance_rank(a)
            == spec_distance_rank(b),
{
    assert(float_bits_less(a, b) <==> spec_distance_rank(a) < spec_distance_rank(b)) by (bit_vector)
        requires
            !is_nan_bits(a),
            !is_nan_bits(b),
    ;
    assert(!float_bits_less(a, b) && !float_bits_less(b, a) <==> spec_distance_rank(a)
        == spec_distance_rank(b)) by (bit_vector)
        requires
            !is_nan_bits(a),
            !is_nan_bits(b),
    ;
}

/// A NaN ranks last: no rank is above it, so it is never preferred to any
/// other distance.
pub proof fn lemma_distance_rank_nan_last(a: u32, b: u32)
    requires
        is_nan_bits(a),
    ensures
        spec_distance_rank(b) <= spec_distance_rank(a),
{
}

} // verus!
