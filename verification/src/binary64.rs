//! IEEE-754 binary64 values handled by their bit patterns.
//!
//! The library carries every real number as the `u64` bit pattern of a
//! binary64 value, so that decoding, classification and ordering are plain
//! integer logic.  This module states what the standard says about those bit
//! patterns: which ones are finite, which are NaN or zero, the total order of
//! `total_cmp`, and the partial order of `<`/`>` on the numbers themselves.
use vstd::prelude::*;

verus! {

/// Bit pattern of `+0.0`.
pub const ZERO_BITS: u64 = 0;

/// Bit pattern of `1.0`.
pub const ONE_BITS: u64 = 0x3FF0_0000_0000_0000;

/// Bit pattern of negative infinity.
pub const NEG_INFINITY_BITS: u64 = 0xFFF0_0000_0000_0000;

/// The sign bit.
pub const SIGN_BIT: u64 = 0x8000_0000_0000_0000;

/// The 11-bit biased exponent field.
pub open spec fn exponent_field(b: u64) -> int {
    (b as int / 0x10_0000_0000_0000) % 0x800
}

/// The 52-bit fraction field.
pub open spec fn fraction_field(b: u64) -> int {
    b as int % 0x10_0000_0000_0000
}

/// A value is finite unless its exponent field is all ones (infinity or NaN).
pub open spec fn spec_is_finite(b: u64) -> bool {
    exponent_field(b) != 0x7FF
}

/// NaN: exponent all ones and a non-zero fraction.
pub open spec fn spec_is_nan(b: u64) -> bool {
    exponent_field(b) == 0x7FF && fraction_field(b) != 0
}

/// `+0.0` or `-0.0`.
pub open spec fn spec_is_zero(b: u64) -> bool {
    b as int % 0x8000_0000_0000_0000 == 0
}

/// The key under which `f64::total_cmp` orders values: negative patterns
/// have all bits flipped, non-negative ones have the sign bit set; the keys
/// then compare as unsigned integers.
pub open spec fn spec_order_key(b: u64) -> u64 {
    if b >= SIGN_BIT {
        (0xFFFF_FFFF_FFFF_FFFFu64 - b) as u64
    } else {
        (b + SIGN_BIT) as u64
    }
}

/// The numeric comparison `a > b` of two binary64 values: false when either
/// is NaN, false between the two zeros, otherwise the total order.
pub open spec fn spec_gt(a: u64, b: u64) -> bool {
    &&& !spec_is_nan(a)
    &&& !spec_is_nan(b)
    &&& !(spec_is_zero(a) && spec_is_zero(b))
    &&& spec_order_key(a) > spec_order_key(b)
}

/// The numeric comparison `a >= b` of two binary64 values.
pub open spec fn spec_ge(a: u64, b: u64) -> bool {
    &&& !spec_is_nan(a)
    &&& !spec_is_nan(b)
    &&& (spec_order_key(a) >= spec_order_key(b) || (spec_is_zero(a) && spec_is_zero(b)))
}

/// Whether the bit pattern encodes a finite number (`f64::is_finite`).
pub fn is_finite(b: u64) -> (r: bool)
    ensures
        r == spec_is_finite(b),
{
    (b / 0x10_0000_0000_0000) % 0x800 != 0x7FF
}

/// Whether the bit pattern encodes NaN (`f64::is_nan`).
pub fn is_nan(b: u64) -> (r: bool)
    ensures
        r == spec_is_nan(b),
{
    (b / 0x10_0000_0000_0000) % 0x800 == 0x7FF && b % 0x10_0000_0000_0000 != 0
}

/// Whether the bit pattern encodes `+0.0` or `-0.0`.
pub fn is_zero(b: u64) -> (r: bool)
    ensures
        r == spec_is_zero(b),
{
    b % 0x8000_0000_0000_0000 == 0
}

/// The `total_cmp` key of a bit pattern.
pub fn order_key(b: u64) -> (r: u64)
    ensures
        r == spec_order_key(b),
{
    if b >= SIGN_BIT {
        0xFFFF_FFFF_FFFF_FFFFu64 - b
    } else {
        b + SIGN_BIT
    }
}

/// `a > b` on the numbers the bit patterns encode.
pub fn gt(a: u64, b: u64) -> (r: bool)
    ensures
        r == spec_gt(a, b),
{
    !is_nan(a) && !is_nan(b) && !(is_zero(a) && is_zero(b)) && order_key(a) > order_key(b)
}

/// `a >= b` on the numbers the bit patterns encode.
pub fn ge(a: u64, b: u64) -> (r: bool)
    ensures
        r == spec_ge(a, b),
{
    !is_nan(a) && !is_nan(b) && (order_key(a) >= order_key(b) || (is_zero(a) && is_zero(b)))
}

/// `>` on binary64 values is transitive.
pub proof fn lemma_gt_transitive(a: u64, b: u64, c: u64)
    requires
        spec_gt(a, b),
        spec_gt(b, c),
    ensures
        spec_gt(a, c),
{
}

/// `>` on binary64 values is irreflexive and asymmetric.
pub proof fn lemma_gt_asymmetric(a: u64, b: u64)
    ensures
        !spec_gt(a, a),
        spec_gt(a, b) ==> !spec_gt(b, a),
{
}

/// Negative infinity is below every other non-NaN value.
pub proof fn lemma_neg_infinity_least(a: u64)
    requires
        !spec_is_nan(a),
        a != NEG_INFINITY_BITS,
    ensures
        spec_gt(a, NEG_INFINITY_BITS),
{
}

/// Scan `vals` left to right keeping the value strictly greater than the
/// best so far, starting from negative infinity.  Returns the best value and
/// its index (`-1` when nothing beat negative infinity).
pub open spec fn scan_best(vals: Seq<u64>) -> (u64, int)
    decreases vals.len(),
{
    if vals.len() == 0 {
        (NEG_INFINITY_BITS, -1)
    } else {
        let prev = scan_best(vals.drop_last());
        if spec_gt(vals.last(), prev.0) {
            (vals.last(), vals.len() - 1)
        } else {
            prev
        }
    }
}

/// No value of `vals` is greater than the result of the scan, and the index
/// it reports holds that value.
pub proof fn lemma_scan_best(vals: Seq<u64>)
    ensures
        forall|m: int| 0 <= m < vals.len() ==> !spec_gt(#[trigger] vals[m], scan_best(vals).0),
        -1 <= scan_best(vals).1 < vals.len(),
        scan_best(vals).1 >= 0 ==> vals[scan_best(vals).1] == scan_best(vals).0,
        scan_best(vals).1 < 0 ==> scan_best(vals).0 == NEG_INFINITY_BITS,
        !spec_is_nan(scan_best(vals).0),
    decreases vals.len(),
{
    if vals.len() > 0 {
        let init = vals.drop_last();
        lemma_scan_best(init);
        let prev = scan_best(init);
        if spec_gt(vals.last(), prev.0) {
            assert forall|m: int| 0 <= m < vals.len() implies !spec_gt(
                #[trigger] vals[m],
                scan_best(vals).0,
            ) by {
                lemma_gt_asymmetric(vals[m], vals.last());
                if m < vals.len() - 1 {
                    assert(init[m] == vals[m]);
                    if spec_gt(vals[m], vals.last()) {
                        lemma_gt_transitive(vals[m], vals.last(), prev.0);
                    }
                }
            }
        } else {
            assert forall|m: int| 0 <= m < vals.len() implies !spec_gt(
                #[trigger] vals[m],
                scan_best(vals).0,
            ) by {
                if m < vals.len() - 1 {
                    assert(init[m] == vals[m]);
                }
            }
        }
    }
}

} // verus!
