use vstd::prelude::*;

verus! {

// IEEE 754 single-precision numbers, held as their bit patterns.

/// The bit pattern is a NaN: all exponent bits set, a non-zero fraction.
pub open spec fn is_nan_bits(bits: u32) -> bool {
    bits & 0x7fff_ffffu32 > 0x7f80_0000u32
}

/// The number is `>= 0.0` in IEEE 754 comparison: not a NaN, and either
/// positive or negative zero.
pub open spec fn is_non_negative_bits(bits: u32) -> bool {
    !is_nan_bits(bits) && (bits < 0x8000_0000u32 || bits == 0x8000_0000u32)
}

/// Rank of a number in the IEEE 754 total order (the order of std's
/// `f32::total_cmp`): the bits read as a signed integer, with the
/// magnitude bits of negative numbers flipped.
pub open spec fn order_key(bits: u32) -> int {
    if bits < 0x8000_0000u32 {
        bits as int
    } else {
        0x7fff_ffff - bits as int
    }
}

/// Every bit of the magnitude is clear: positive or negative zero.
pub open spec fn is_zero_bits(bits: u32) -> bool {
    bits & 0x7fff_ffffu32 == 0
}

/// `a < b` in IEEE 754 comparison. Apart from the two zeros, which compare
/// equal, numbers that are not NaN compare as their total-order ranks do.
pub open spec fn float_lt(a: u32, b: u32) -> bool {
    !is_nan_bits(a) && !is_nan_bits(b) && !(is_zero_bits(a) && is_zero_bits(b)) && order_key(a)
        < order_key(b)
}

/// `a <= b` in IEEE 754 comparison.
pub open spec fn float_le(a: u32, b: u32) -> bool {
    !is_nan_bits(a) && !is_nan_bits(b) && (order_key(a) <= order_key(b) || (is_zero_bits(a)
        && is_zero_bits(b)))
}

/// Bits of negative infinity.
pub const NEG_INFINITY_BITS: u32 = 0xff80_0000;

/// Bits of positive infinity.
pub const INFINITY_BITS: u32 = 0x7f80_0000;

/// `order_key` of `bits`.
pub fn total_order_key(bits: u32) -> (r: i64)
    ensures
        r == order_key(bits),
{
    if bits < 0x8000_0000u32 {
        bits as i64
    } else {
        0x7fff_ffffi64 - bits as i64
    }
}

/// Whether the parameter `bits` stands for is `>= 0.0`.
pub fn is_non_negative(bits: u32) -> (r: bool)
    ensures
        r == is_non_negative_bits(bits),
{
    let magnitude = bits & 0x7fff_ffffu32;
    magnitude <= 0x7f80_0000u32 && bits <= 0x8000_0000u32
}

/// Whether `a < b` for the numbers the bit patterns stand for.
pub fn less_than(a: u32, b: u32) -> (r: bool)
    ensures
        r == float_lt(a, b),
{
    let a_nan = a & 0x7fff_ffffu32 > 0x7f80_0000u32;
    let b_nan = b & 0x7fff_ffffu32 > 0x7f80_0000u32;
    let both_zero = a & 0x7fff_ffffu32 == 0 && b & 0x7fff_ffffu32 == 0;
    !a_nan && !b_nan && !both_zero && total_order_key(a) < total_order_key(b)
}

/// Whether `a <= b` for the numbers the bit patterns stand for.
pub fn less_or_equal(a: u32, b: u32) -> (r: bool)
    ensures
        r == float_le(a, b),
{
    let a_nan = a & 0x7fff_ffffu32 > 0x7f80_0000u32;
    let b_nan = b & 0x7fff_ffffu32 > 0x7f80_0000u32;
    let both_zero = a & 0x7fff_ffffu32 == 0 && b & 0x7fff_ffffu32 == 0;
    !a_nan && !b_nan && (total_order_key(a) <= total_order_key(b) || both_zero)
}

} // verus!
