use vstd::prelude::*;

use crate::components::{
    components_of, double_of, is_double_of, is_hash_key_of, lemma_decode_double_injective,
    lemma_decode_single_injective, lemma_magnitude_nonneg, narrow_nan, negate_double, single_of,
    values_compared, values_equal, widen_nan, FloatingPointComponents,
};
use crate::encoding::{
    decode_double, decode_single, double_is_nan, single_biased_exponent, single_fraction,
    single_is_nan, single_is_negative, FloatEncoding, FloatWrap,
};
use crate::magnitude::lemma_scaled_unique;
use crate::rounding::{is_single_of, lemma_single_rounded_exact};

verus! {

/// Every non-NaN double comes back unchanged from its components as a
/// double.
pub proof fn lemma_double_round_trip(b: u64)
    requires
        !double_is_nan(b),
    ensures
        components_of(FloatWrap::Double(b)).as_f64_spec() == b,
{
    let enc = decode_double(b);
    assert(is_double_of(b, enc));
    let r = double_of(enc);
    lemma_decode_double_injective(r, b);
}

/// Every non-NaN single comes back unchanged from its components as a
/// single.
pub proof fn lemma_single_round_trip(c: u32)
    requires
        !single_is_nan(c),
    ensures
        components_of(FloatWrap::Single(c)).as_f32_spec() == c,
{
    let enc = decode_single(c);
    lemma_single_rounded_exact(c);
    assert(is_single_of(c, enc));
    let r = single_of(enc);
    lemma_decode_single_injective(r, c);
}

/// A single infinity widens to the double infinity of the same sign, and
/// equals it.
pub proof fn lemma_single_infinity_widens(c: u32)
    requires
        single_biased_exponent(c) == 0xff,
        single_fraction(c) == 0,
    ensures
        ({
            let d: u64 = if single_is_negative(c) {
                0xfff0_0000_0000_0000
            } else {
                0x7ff0_0000_0000_0000
            };
            &&& components_of(FloatWrap::Single(c)).as_f64_spec() == d
            &&& values_equal(components_of(FloatWrap::Single(c)), components_of(FloatWrap::Double(d)))
        }),
{
    let d: u64 = if single_is_negative(c) {
        0xfff0_0000_0000_0000
    } else {
        0x7ff0_0000_0000_0000
    };
    let enc = decode_single(c);
    assert(decode_double(d) == FloatEncoding(0x10_0000_0000_0000u64, 972i16, enc.2));
    assert(is_double_of(d, enc));
    let r = double_of(enc);
    lemma_decode_double_injective(r, d);
}

proof fn lemma_widen_nan_is_nan(c: u32)
    by (bit_vector)
    ensures
        (widen_nan(c) / 0x10_0000_0000_0000) % 0x800 == 0x7ffu64,
        widen_nan(c) % 0x10_0000_0000_0000 != 0u64,
{
}

proof fn lemma_narrow_widen_nan(c: u32)
    by (bit_vector)
    requires
        (c / 0x80_0000) % 0x100 == 0xffu32,
    ensures
        narrow_nan(widen_nan(c)) == c | 0x40_0000u32,
{
}

/// Widening a single NaN gives a double NaN; encoding that double keeps the
/// ordering key of the single, and narrowing it back gives the single with
/// its quiet bit set (the same single when it was quiet).
pub proof fn lemma_nan_widen_keeps_key(c: u32)
    requires
        single_is_nan(c),
    ensures
        ({
            let d = components_of(FloatWrap::Single(c)).as_f64_spec();
            &&& double_is_nan(d)
            &&& components_of(FloatWrap::Double(d)) == FloatingPointComponents::NaN(
                FloatWrap::Double(d),
            )
            &&& negate_double(components_of(FloatWrap::Double(d)).as_f64_spec()) == negate_double(
                components_of(FloatWrap::Single(c)).as_f64_spec(),
            )
            &&& components_of(FloatWrap::Double(d)).as_f32_spec() == c | 0x40_0000u32
        }),
{
    lemma_widen_nan_is_nan(c);
    lemma_narrow_widen_nan(c);
}

proof fn lemma_narrow_nan_is_nan(b: u64)
    by (bit_vector)
    ensures
        (narrow_nan(b) / 0x80_0000) % 0x100 == 0xffu32,
        narrow_nan(b) % 0x80_0000 != 0u32,
{
}

proof fn lemma_widen_narrow_nan(b: u64)
    by (bit_vector)
    requires
        (b / 0x10_0000_0000_0000) % 0x800 == 0x7ffu64,
        (b / 0x8_0000_0000_0000) % 2 == 1u64,
        b % 0x2000_0000 == 0u64,
    ensures
        widen_nan(narrow_nan(b)) == b,
{
}

/// Narrowing a quiet double NaN whose payload fits a single gives a single
/// NaN that widens back to the same double, so both encode to the same
/// ordering key.
pub proof fn lemma_nan_narrow_keeps_key(b: u64)
    requires
        double_is_nan(b),
        (b / 0x8_0000_0000_0000) % 2 == 1,
        b % 0x2000_0000 == 0,
    ensures
        ({
            let c = components_of(FloatWrap::Double(b)).as_f32_spec();
            &&& single_is_nan(c)
            &&& components_of(FloatWrap::Single(c)) == FloatingPointComponents::NaN(
                FloatWrap::Single(c),
            )
            &&& negate_double(components_of(FloatWrap::Single(c)).as_f64_spec()) == negate_double(b)
        }),
{
    lemma_narrow_nan_is_nan(b);
    lemma_widen_narrow_nan(b);
}

/// A comparison that involves a NaN has no ordering.
pub proof fn lemma_nan_unordered(a: FloatingPointComponents, b: FloatingPointComponents)
    requires
        a is NaN || b is NaN,
    ensures
        values_compared(a, b) is None,
{
}

/// A NaN equals itself, and never equals a number.
pub proof fn lemma_nan_equality(w: FloatWrap, x: FloatingPointComponents)
    requires
        w.is_nan_spec(),
        x is Float,
    ensures
        values_equal(components_of(w), components_of(w)),
        !values_equal(components_of(w), x),
        !values_equal(x, components_of(w)),
{
}

/// Between two numbers, the ordering says `Equal` exactly when they are
/// equal.
pub proof fn lemma_order_agrees_with_equality(a: FloatingPointComponents, b: FloatingPointComponents)
    requires
        a is Float,
        b is Float,
    ensures
        values_compared(a, b) == Some(core::cmp::Ordering::Equal) <==> values_equal(a, b),
{
}

/// Components that compare equal have the same hash key.
pub proof fn lemma_equal_means_same_hash_key(
    a: FloatingPointComponents,
    b: FloatingPointComponents,
    ka: (u64, i32, u8),
    kb: (u64, i32, u8),
)
    requires
        values_equal(a, b),
        is_hash_key_of(a, ka),
        is_hash_key_of(b, kb),
    ensures
        ka == kb,
{
    if let (FloatingPointComponents::Float(x), FloatingPointComponents::Float(y)) = (a, b) {
        lemma_magnitude_nonneg(x);
        lemma_magnitude_nonneg(y);
        if x.0 != 0 && y.0 != 0 {
            crate::magnitude::lemma_top_bit();
            lemma_scaled_unique(63, ka.0 as int, ka.1 as int, kb.0 as int, kb.1 as int);
        }
    }
}

} // verus!
