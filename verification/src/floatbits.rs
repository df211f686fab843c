//! `f32` values held as their IEEE-754 bit patterns, with the comparisons and
//! the clamp that the memory layers apply to importance and relevance values.
//! A pattern is NaN when its exponent bits are all ones and its fraction is not
//! zero; NaN compares false with everything, and `-0.0` equals `0.0`.

use vstd::prelude::*;

verus! {

/// Bit pattern of `0.0f32`.
pub const F32_ZERO: u32 = 0;
/// Bit pattern of `0.5f32`.
pub const F32_HALF: u32 = 0x3F00_0000;
/// Bit pattern of `0.8f32`.
pub const F32_POINT_EIGHT: u32 = 0x3F4C_CCCD;
/// Bit pattern of `0.9f32`.
pub const F32_POINT_NINE: u32 = 0x3F66_6666;
/// Bit pattern of `1.0f32`.
pub const F32_ONE: u32 = 0x3F80_0000;

/// The magnitude bits (all but the sign).
pub open spec fn magnitude(b: u32) -> u32 {
    (b % 0x8000_0000) as u32
}

/// Whether the sign bit is set.
pub open spec fn negative_sign(b: u32) -> bool {
    b >= 0x8000_0000
}

/// Whether a pattern is NaN.
pub open spec fn is_nan(b: u32) -> bool {
    magnitude(b) > 0x7F80_0000
}

/// Float `<` on bit patterns.
pub open spec fn f32_lt(a: u32, b: u32) -> bool {
    &&& !is_nan(a)
    &&& !is_nan(b)
    &&& !(magnitude(a) == 0 && magnitude(b) == 0)
    &&& if negative_sign(a) && !negative_sign(b) {
        true
    } else if !negative_sign(a) && negative_sign(b) {
        false
    } else if !negative_sign(a) {
        magnitude(a) < magnitude(b)
    } else {
        magnitude(a) > magnitude(b)
    }
}

/// Float `<`.
pub fn lt(a: u32, b: u32) -> (r: bool)
    ensures
        r == f32_lt(a, b),
{
    let ma = a % 0x8000_0000;
    let mb = b % 0x8000_0000;
    if ma > 0x7F80_0000 || mb > 0x7F80_0000 {
        return false;
    }
    if ma == 0 && mb == 0 {
        return false;
    }
    let na = a >= 0x8000_0000;
    let nb = b >= 0x8000_0000;
    if na && !nb {
        true
    } else if !na && nb {
        false
    } else if !na {
        ma < mb
    } else {
        ma > mb
    }
}

/// Float `>=` on bit patterns: false when either is NaN.
pub open spec fn f32_ge(a: u32, b: u32) -> bool {
    !is_nan(a) && !is_nan(b) && !f32_lt(a, b)
}

/// Float `>=`.
pub fn ge(a: u32, b: u32) -> (r: bool)
    ensures
        r == f32_ge(a, b),
{
    let ma = a % 0x8000_0000;
    let mb = b % 0x8000_0000;
    !(ma > 0x7F80_0000) && !(mb > 0x7F80_0000) && !lt(a, b)
}

/// `x.clamp(0.0, 1.0)` on bit patterns: NaN and `-0.0` are kept, other negatives
/// become `0.0`, values above one become `1.0`.
pub open spec fn clamp_unit_spec(x: u32) -> u32 {
    if is_nan(x) {
        x
    } else if f32_lt(x, F32_ZERO) {
        F32_ZERO
    } else if f32_lt(F32_ONE, x) {
        F32_ONE
    } else {
        x
    }
}

/// `x.clamp(0.0, 1.0)`.
pub fn clamp_unit(x: u32) -> (r: u32)
    ensures
        r == clamp_unit_spec(x),
{
    if lt(x, F32_ZERO) {
        F32_ZERO
    } else if lt(F32_ONE, x) {
        F32_ONE
    } else {
        x
    }
}

/// An integer key that orders non-NaN patterns as the floats order (`-0.0` and
/// `0.0` share a key).
pub open spec fn rank_of(b: u32) -> u32 {
    if negative_sign(b) && magnitude(b) > 0 {
        (0x8000_0000 - magnitude(b)) as u32
    } else {
        (0x8000_0000 + magnitude(b)) as u32
    }
}

/// The rank key of a pattern.
pub fn rank_key(b: u32) -> (r: u32)
    ensures
        r == rank_of(b),
{
    let m = b % 0x8000_0000;
    if b >= 0x8000_0000 && m > 0 {
        0x8000_0000 - m
    } else {
        0x8000_0000 + m
    }
}

/// Rank keys order non-NaN values exactly as float `<` does.
pub proof fn lemma_rank_orders_as_floats(a: u32, b: u32)
    requires
        !is_nan(a),
        !is_nan(b),
    ensures
        f32_lt(a, b) <==> rank_of(a) < rank_of(b),
        !f32_lt(a, b) && !f32_lt(b, a) <==> rank_of(a) == rank_of(b),
{
}

} // verus!
