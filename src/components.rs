use vstd::arithmetic::mul::{lemma_mul_strict_inequality, lemma_mul_is_associative};
use vstd::arithmetic::power2::{lemma_pow2_adds, lemma_pow2_pos, lemma_pow2_strictly_increases, pow2};
use vstd::prelude::*;

use crate::encoding::{
    decode_double, decode_double_bits, decode_single, decode_single_bits, double_biased_exponent,
    double_is_nan, lemma_decode_double_wf, lemma_decode_single_wf, single_biased_exponent,
    single_is_nan, FloatEncoding, FloatWrap, DOUBLE_HIDDEN, SINGLE_HIDDEN,
};
use crate::rounding::{compose_single, is_single_of};
use crate::magnitude::{
    compare_magnitudes, lemma_pow2_le, lemma_scaled_shift, lemma_scaled_unique, lemma_top_bit, normalize, offset,
    ordering_of, scaled, TOP_BIT,
};

verus! {

impl FloatEncoding {
    /// `mantissa * 2^exponent`, in units of `2^-offset()`; a single
    /// infinity has the magnitude of a double infinity, `2^1024`.
    pub open spec fn magnitude(self) -> int {
        if self.is_single_infinity() {
            infinity_magnitude()
        } else {
            scaled(self.0 as int, self.1 as int)
        }
    }

    /// The signed value, in units of `2^-offset()`; both zeros are `0`.
    pub open spec fn value(self) -> int {
        if self.2 < 0 {
            -self.magnitude()
        } else {
            self.magnitude()
        }
    }
}

/// The magnitude of an infinity, in units of `2^-offset()`: that of the
/// double infinity's triple, `2^52 * 2^972`.
pub open spec fn infinity_magnitude() -> int {
    scaled(DOUBLE_HIDDEN as int, 972)
}

/// `r` is the bit pattern of the non-NaN double that has exactly the value
/// and the sign of `enc`.
pub open spec fn is_double_of(r: u64, enc: FloatEncoding) -> bool {
    &&& !double_is_nan(r)
    &&& decode_double(r).value() == enc.value()
    &&& decode_double(r).2 == enc.2
}

/// The double that has exactly the value and the sign of `enc`.
pub open spec fn double_of(enc: FloatEncoding) -> u64 {
    choose|r: u64| is_double_of(r, enc)
}

/// A single NaN widened to a quiet double NaN: the sign is kept and the
/// fraction moves to the top of the wider fraction.
pub open spec fn widen_nan(c: u32) -> u64 {
    (((c >> 31u32) as u64) << 63u64) | 0x7ff8_0000_0000_0000u64 | (((c & 0x7f_ffffu32) as u64) << 29u64)
}

/// A double NaN narrowed to a quiet single NaN: the sign is kept and the
/// top of the fraction is kept.
pub open spec fn narrow_nan(b: u64) -> u32 {
    (((b >> 63u64) as u32) << 31u32) | 0x7fc0_0000u32 | (((b & 0xf_ffff_ffff_ffffu64) >> 29u64) as u32)
}

/// The single nearest to `enc`, with its sign.
pub open spec fn single_of(enc: FloatEncoding) -> u32 {
    choose|r: u32| is_single_of(r, enc)
}

/// The single bit pattern of a NaN wrapped in either precision.
pub open spec fn nan_as_single(w: FloatWrap) -> u32 {
    match w {
        FloatWrap::Single(c) => c,
        FloatWrap::Double(b) => narrow_nan(b),
    }
}

/// The double bit pattern of a NaN wrapped in either precision.
pub open spec fn nan_as_double(w: FloatWrap) -> u64 {
    match w {
        FloatWrap::Single(c) => widen_nan(c),
        FloatWrap::Double(b) => b,
    }
}

/// A value decomposed into an exact `(mantissa, exponent, sign)` triple,
/// or a NaN kept as it came.
#[derive(Clone, Copy, Debug)]
pub enum FloatingPointComponents {
    Float(FloatEncoding),
    NaN(FloatWrap),
}

/// The components of `w`.
pub open spec fn components_of(w: FloatWrap) -> FloatingPointComponents {
    if w.is_nan_spec() {
        FloatingPointComponents::NaN(w)
    } else {
        match w {
            FloatWrap::Single(c) => FloatingPointComponents::Float(decode_single(c)),
            FloatWrap::Double(b) => FloatingPointComponents::Float(decode_double(b)),
        }
    }
}

/// Equality of components: numbers by exact value (the two zeros are
/// equal), NaNs by their double bit pattern; a number never equals a NaN.
pub open spec fn values_equal(a: FloatingPointComponents, b: FloatingPointComponents) -> bool {
    match (a, b) {
        (FloatingPointComponents::Float(x), FloatingPointComponents::Float(y)) => x.value()
            == y.value(),
        (FloatingPointComponents::NaN(v), FloatingPointComponents::NaN(w)) => nan_as_double(v)
            == nan_as_double(w),
        _ => false,
    }
}

/// Ordering of components: numbers by exact value; nothing when a NaN is
/// involved.
pub open spec fn values_compared(a: FloatingPointComponents, b: FloatingPointComponents) -> Option<core::cmp::Ordering> {
    match (a, b) {
        (FloatingPointComponents::Float(x), FloatingPointComponents::Float(y)) => Some(
            ordering_of(x.value(), y.value()),
        ),
        _ => None,
    }
}

proof fn lemma_double_fields(s: u64, biased: u64, frac: u64)
    by (bit_vector)
    requires
        s == 0 || s == 0x8000_0000_0000_0000u64,
        biased < 0x800,
        frac < 0x10_0000_0000_0000,
    ensures
        ({
            let r = s | (biased << 52u64) | frac;
            &&& (r / 0x10_0000_0000_0000) % 0x800 == biased
            &&& r % 0x10_0000_0000_0000 == frac
            &&& (r >= 0x8000_0000_0000_0000 <==> s != 0)
        }),
{
}

proof fn lemma_double_from_fields(b: u64)
    by (bit_vector)
    ensures
        b == (b / 0x8000_0000_0000_0000) * 0x8000_0000_0000_0000 + ((b / 0x10_0000_0000_0000)
            % 0x800) * 0x10_0000_0000_0000 + b % 0x10_0000_0000_0000,
        b / 0x8000_0000_0000_0000 <= 1,
{
}

/// The infinity magnitude is `2^1024`, far above where singles overflow.
pub proof fn lemma_infinity_magnitude()
    ensures
        infinity_magnitude() == pow2((1024 + offset()) as nat),
        pow2((128 + offset()) as nat) < pow2((1024 + offset()) as nat),
{
    lemma_top_bit();
    lemma_pow2_adds(52, (972 + offset()) as nat);
    lemma_pow2_strictly_increases((128 + offset()) as nat, (1024 + offset()) as nat);
}

/// A finite single lies below `2^128`.
pub proof fn lemma_finite_single_below_overflow(c: u32)
    requires
        !single_is_nan(c),
        single_biased_exponent(c) != 0xff,
    ensures
        decode_single(c).magnitude() < pow2((128 + offset()) as nat),
{
    let d = decode_single(c);
    lemma_top_bit();
    let p = (d.1 + offset()) as nat;
    let top = (104 + offset()) as nat;
    lemma_pow2_le(p, top);
    lemma_pow2_pos(p);
    lemma_pow2_adds(24, top);
    lemma_mul_strict_inequality(d.0 as int, 0x100_0000, pow2(p) as int);
    vstd::arithmetic::mul::lemma_mul_inequality(pow2(p) as int, pow2(top) as int, 0x100_0000);
    assert(!d.is_single_infinity());
    assert(d.0 * pow2(p) == pow2(p) * d.0) by (nonlinear_arith);
}

/// The same encoding with a single infinity written as the double
/// infinity's triple, so that its magnitude is `mantissa * 2^exponent`.
pub(crate) fn canonical(enc: &FloatEncoding) -> (r: FloatEncoding)
    ensures
        !r.is_single_infinity(),
        r.magnitude() == enc.magnitude(),
        r.magnitude() == scaled(r.0 as int, r.1 as int),
        r.2 == enc.2,
        r.0 == 0 <==> enc.0 == 0,
        enc.wf() ==> r.wf(),
{
    if enc.0 == SINGLE_HIDDEN && enc.1 == 105 {
        FloatEncoding(DOUBLE_HIDDEN, 972, enc.2)
    } else {
        *enc
    }
}

pub proof fn lemma_magnitude_nonneg(enc: FloatEncoding)
    ensures
        enc.magnitude() >= 0,
        enc.magnitude() == 0 <==> enc.0 == 0,
{
    lemma_infinity_magnitude();
    let p = (enc.1 + offset()) as nat;
    lemma_pow2_pos(p);
    assert(enc.0 * pow2(p) >= 0) by (nonlinear_arith)
        requires
            pow2(p) > 0,
    ;
    assert(enc.0 > 0 ==> enc.0 * pow2(p) > 0) by (nonlinear_arith)
        requires
            pow2(p) > 0,
    ;
}

/// Two non-NaN doubles with the same value and sign are the same bits.
pub proof fn lemma_decode_double_injective(b1: u64, b2: u64)
    requires
        !double_is_nan(b1),
        !double_is_nan(b2),
        decode_double(b1).value() == decode_double(b2).value(),
        decode_double(b1).2 == decode_double(b2).2,
    ensures
        b1 == b2,
{
    let d1 = decode_double(b1);
    let d2 = decode_double(b2);
    lemma_decode_double_wf(b1);
    lemma_decode_double_wf(b2);
    assert(d1.magnitude() == d2.magnitude());
    lemma_top_bit();
    let s1 = double_biased_exponent(b1);
    let s2 = double_biased_exponent(b2);
    if s1 == 0 && s2 == 0 {
        let p = (-1075 + offset()) as nat;
        lemma_pow2_pos(p);
        if d1.0 < d2.0 {
            lemma_mul_strict_inequality(d1.0 as int, d2.0 as int, pow2(p) as int);
        } else if d2.0 < d1.0 {
            lemma_mul_strict_inequality(d2.0 as int, d1.0 as int, pow2(p) as int);
        }
    } else if s1 != 0 && s2 != 0 {
        lemma_scaled_unique(52, d1.0 as int, d1.1 as int, d2.0 as int, d2.1 as int);
    } else {
        let (sub, nor) = if s1 == 0 {
            (d1, d2)
        } else {
            (d2, d1)
        };
        // a subnormal lies below every normal
        let p = (-1075 + offset()) as nat;
        let q = (nor.1 + offset()) as nat;
        lemma_pow2_pos(p);
        lemma_pow2_pos(q);
        lemma_mul_strict_inequality(sub.0 as int, pow2(53) as int, pow2(p) as int);
        lemma_pow2_adds(53, p);
        lemma_pow2_adds(52, q);
        if 52 + q > 53 + p {
            lemma_pow2_strictly_increases(53 + p, 52 + q);
        }
        vstd::arithmetic::mul::lemma_mul_inequality(pow2(52) as int, nor.0 as int, pow2(q) as int);
        assert(sub.0 * pow2(p) == pow2(p) * sub.0) by (nonlinear_arith);
        assert(pow2(53) * pow2(p) == pow2(p) * pow2(53)) by (nonlinear_arith);
    }
    lemma_double_from_fields(b1);
    lemma_double_from_fields(b2);
}

proof fn lemma_single_from_fields(c: u32)
    by (bit_vector)
    ensures
        c == (c / 0x8000_0000) * 0x8000_0000 + ((c / 0x80_0000) % 0x100) * 0x80_0000 + c % 0x80_0000,
        c / 0x8000_0000 <= 1,
{
}

/// Two non-NaN singles with the same magnitude and sign are the same bits.
pub proof fn lemma_decode_single_injective(c1: u32, c2: u32)
    requires
        !single_is_nan(c1),
        !single_is_nan(c2),
        decode_single(c1).magnitude() == decode_single(c2).magnitude(),
        decode_single(c1).2 == decode_single(c2).2,
    ensures
        c1 == c2,
{
    let d1 = decode_single(c1);
    let d2 = decode_single(c2);
    lemma_decode_single_wf(c1);
    lemma_decode_single_wf(c2);
    lemma_top_bit();
    let s1 = single_biased_exponent(c1);
    let s2 = single_biased_exponent(c2);
    if s1 == 0xff || s2 == 0xff {
        lemma_infinity_magnitude();
        if s1 != 0xff {
            lemma_finite_single_below_overflow(c1);
        }
        if s2 != 0xff {
            lemma_finite_single_below_overflow(c2);
        }
    } else if s1 == 0 && s2 == 0 {
        let p = (-150 + offset()) as nat;
        lemma_pow2_pos(p);
        if d1.0 < d2.0 {
            lemma_mul_strict_inequality(d1.0 as int, d2.0 as int, pow2(p) as int);
        } else if d2.0 < d1.0 {
            lemma_mul_strict_inequality(d2.0 as int, d1.0 as int, pow2(p) as int);
        }
    } else if s1 != 0 && s2 != 0 {
        lemma_scaled_unique(23, d1.0 as int, d1.1 as int, d2.0 as int, d2.1 as int);
    } else {
        let (sub, nor) = if s1 == 0 {
            (d1, d2)
        } else {
            (d2, d1)
        };
        // a subnormal lies below every normal
        let p = (-150 + offset()) as nat;
        let q = (nor.1 + offset()) as nat;
        lemma_pow2_pos(p);
        lemma_pow2_pos(q);
        lemma_mul_strict_inequality(sub.0 as int, pow2(24) as int, pow2(p) as int);
        lemma_pow2_adds(24, p);
        lemma_pow2_adds(23, q);
        if 23 + q > 24 + p {
            lemma_pow2_strictly_increases(24 + p, 23 + q);
        }
        vstd::arithmetic::mul::lemma_mul_inequality(pow2(23) as int, nor.0 as int, pow2(q) as int);
        assert(sub.0 * pow2(p) == pow2(p) * sub.0) by (nonlinear_arith);
        assert(pow2(24) * pow2(p) == pow2(p) * pow2(24)) by (nonlinear_arith);
    }
    lemma_single_from_fields(c1);
    lemma_single_from_fields(c2);
}

/// Builds the double with exactly the value and sign of a well-formed
/// encoding.
fn compose_double(enc: &FloatEncoding) -> (r: u64)
    requires
        enc.wf(),
    ensures
        is_double_of(r, *enc),
{
    let enc = &canonical(enc);
    let m = enc.0;
    let e = enc.1;
    let s: u64 = if enc.2 < 0 {
        TOP_BIT
    } else {
        0
    };
    proof {
        lemma_top_bit();
        lemma_magnitude_nonneg(*enc);
    }
    if m == 0 {
        proof {
            lemma_double_fields(s, 0, 0);
            assert(s | (0u64 << 52u64) | 0u64 == s) by (bit_vector);
            lemma_magnitude_nonneg(decode_double(s));
            assert(!double_is_nan(s));
            assert(decode_double(s).value() == enc.value());
            assert(decode_double(s).2 == enc.2);
        }
        s
    } else if e == -1075 {
        let frac = m / 2;
        proof {
            lemma_double_fields(s, 0, frac);
            assert(s | (0u64 << 52u64) | frac == s | frac) by (bit_vector);
            assert(decode_double(s | frac) == *enc);
        }
        s | frac
    } else {
        let (n, x) = normalize(m, e);
        let ghost k = (e - x) as nat;
        proof {
            vstd::arithmetic::power2::lemma2_to64();
            // the mantissa has at most 53 bits, so at least 11 shifts were made
            if k < 11 {
                lemma_pow2_strictly_increases(k, 11);
                vstd::arithmetic::mul::lemma_mul_inequality(pow2(k) as int, 1024, m as int);
                assert(false);
            }
            if m >= DOUBLE_HIDDEN && k > 11 {
                lemma_pow2_le(12, k);
                vstd::arithmetic::mul::lemma_mul_inequality(DOUBLE_HIDDEN as int, m as int, pow2(k) as int);
                vstd::arithmetic::mul::lemma_mul_inequality(4096, pow2(k) as int, DOUBLE_HIDDEN as int);
                assert(false);
            }
            if m < 0x100_0000 && k < 40 {
                lemma_pow2_le(k, 39);
                vstd::arithmetic::power2::lemma2_to64_rest();
                vstd::arithmetic::mul::lemma_mul_inequality(pow2(k) as int, pow2(39) as int, m as int);
                lemma_mul_strict_inequality(m as int, 0x100_0000, pow2(39) as int);
                assert(m * pow2(k) == pow2(k) * m) by (nonlinear_arith);
                assert(m * pow2(39) == pow2(39) * m) by (nonlinear_arith);
                assert(false);
            }
            lemma_pow2_adds((k - 11) as nat, 11);
            lemma_mul_is_associative(m as int, pow2((k - 11) as nat) as int, pow2(11) as int);
            vstd::bits::lemma_u64_shr_is_div(n, 11);
            vstd::arithmetic::div_mod::lemma_div_by_multiple(
                m * pow2((k - 11) as nat),
                pow2(11) as int,
            );
        }
        let full = n >> 11;
        let frac = full - DOUBLE_HIDDEN;
        let biased = (x + 1086) as u64;
        proof {
            assert(full * pow2(11) == n);
            lemma_scaled_shift(full as int, x + 11, 11);
            lemma_double_fields(s, biased, frac);
            let r = s | (biased << 52) | frac;
            assert(decode_double(r).0 == full);
            assert(decode_double(r).1 == x + 11);
            assert(decode_double(r).magnitude() == enc.magnitude());
            assert(decode_double(r).2 == enc.2);
            if m >= DOUBLE_HIDDEN {
                assert(k == 11);
                assert(pow2(0) == 1);
                assert(full == m * pow2(0));
                assert(full == m);
            }
            assert(!double_is_nan(r));
        }
        s | (biased << 52) | frac
    }
}

/// The bit pattern of the negated double: only the sign bit flips.
pub open spec fn negate_double(b: u64) -> u64 {
    b ^ 0x8000_0000_0000_0000u64
}

/// What `hash_key` returns for `c`: a zero gives `(0, 0, 0)`; another
/// number its mantissa normalized to leading bit 63, the matching exponent
/// and `1` when negative (else `0`); a NaN its double bits and `2`.
pub open spec fn is_hash_key_of(c: FloatingPointComponents, r: (u64, i32, u8)) -> bool {
    match c {
        FloatingPointComponents::Float(enc) => if enc.0 == 0 {
            r == (0u64, 0i32, 0u8)
        } else {
            &&& TOP_BIT <= r.0
            &&& r.1 >= -offset()
            &&& scaled(r.0 as int, r.1 as int) == enc.magnitude()
            &&& r.2 == if enc.2 < 0 {
                1u8
            } else {
                0u8
            }
        },
        FloatingPointComponents::NaN(w) => r == (nan_as_double(w), 0i32, 2u8),
    }
}

fn widen_nan_bits(c: u32) -> (r: u64)
    ensures
        r == widen_nan(c),
{
    (((c >> 31) as u64) << 63) | 0x7ff8_0000_0000_0000 | (((c & 0x7f_ffff) as u64) << 29)
}

fn narrow_nan_bits(b: u64) -> (r: u32)
    ensures
        r == narrow_nan(b),
{
    (((b >> 63) as u32) << 31) | 0x7fc0_0000 | (((b & 0xf_ffff_ffff_ffff) >> 29) as u32)
}

fn nan_double_bits(w: &FloatWrap) -> (r: u64)
    ensures
        r == nan_as_double(*w),
{
    match *w {
        FloatWrap::Single(c) => widen_nan_bits(c),
        FloatWrap::Double(b) => b,
    }
}

/// Compares the signed values of two encodings; the two zeros are equal.
pub fn compare_values(a: &FloatEncoding, b: &FloatEncoding) -> (r: core::cmp::Ordering)
    ensures
        r == ordering_of(a.value(), b.value()),
{
    proof {
        lemma_magnitude_nonneg(*a);
        lemma_magnitude_nonneg(*b);
    }
    let a = &canonical(a);
    let b = &canonical(b);
    let a_neg = a.2 < 0 && a.0 != 0;
    let b_neg = b.2 < 0 && b.0 != 0;
    if a_neg && !b_neg {
        core::cmp::Ordering::Less
    } else if !a_neg && b_neg {
        core::cmp::Ordering::Greater
    } else {
        let c = compare_magnitudes(a.0, a.1, b.0, b.1);
        if a_neg {
            match c {
                core::cmp::Ordering::Less => core::cmp::Ordering::Greater,
                core::cmp::Ordering::Greater => core::cmp::Ordering::Less,
                core::cmp::Ordering::Equal => core::cmp::Ordering::Equal,
            }
        } else {
            c
        }
    }
}

impl FloatingPointComponents {
    /// A `Float` holds a well-formed encoding; a `NaN` holds a NaN.
    pub open spec fn wf(self) -> bool {
        match self {
            FloatingPointComponents::Float(enc) => enc.wf(),
            FloatingPointComponents::NaN(w) => w.is_nan_spec(),
        }
    }

    /// Whether the components are well-formed, as those built by `new`
    /// always are.
    pub fn is_well_formed(&self) -> (r: bool)
        ensures
            r == self.wf(),
    {
        match self {
            FloatingPointComponents::Float(enc) => {
                let m = enc.0;
                let e = enc.1;
                let sign_ok = enc.2 == 1 || enc.2 == -1;
                let double_ok = (e == -1075 && m < 2 * DOUBLE_HIDDEN && m % 2 == 0) || (-1074 <= e
                    && e <= 971 && DOUBLE_HIDDEN <= m && m < 2 * DOUBLE_HIDDEN) || (e == 972 && m
                    == DOUBLE_HIDDEN);
                let single_ok = (e == -150 && m < 2 * SINGLE_HIDDEN && m % 2 == 0) || (-149 <= e
                    && e <= 104 && SINGLE_HIDDEN <= m && m < 2 * SINGLE_HIDDEN) || (e == 105 && m
                    == SINGLE_HIDDEN);
                sign_ok && (double_ok || single_ok)
            },
            FloatingPointComponents::NaN(w) => w.is_nan(),
        }
    }

    /// The double bit pattern that the components stand for.
    pub open spec fn as_f64_spec(self) -> u64 {
        match self {
            FloatingPointComponents::Float(enc) => double_of(enc),
            FloatingPointComponents::NaN(w) => nan_as_double(w),
        }
    }

    /// The single bit pattern that the components stand for.
    pub open spec fn as_f32_spec(self) -> u32 {
        match self {
            FloatingPointComponents::Float(enc) => single_of(enc),
            FloatingPointComponents::NaN(w) => nan_as_single(w),
        }
    }

    /// Decomposes `num`: a NaN is kept as it is, any other value becomes
    /// its exact `(mantissa, exponent, sign)`.
    pub fn new(num: FloatWrap) -> (r: Self)
        ensures
            r == components_of(num),
            r.wf(),
    {
        if num.is_nan() {
            FloatingPointComponents::NaN(num)
        } else {
            match num {
                FloatWrap::Single(c) => {
                    proof {
                        lemma_decode_single_wf(c);
                    }
                    FloatingPointComponents::Float(decode_single_bits(c))
                },
                FloatWrap::Double(b) => {
                    proof {
                        lemma_decode_double_wf(b);
                    }
                    FloatingPointComponents::Float(decode_double_bits(b))
                },
            }
        }
    }

    /// The double bit pattern of the value: exactly `sign * mantissa *
    /// 2^exponent` for a finite number, the infinity of that sign for an
    /// infinity of either precision, the NaN (widened if single) for a NaN.
    pub fn as_f64(&self) -> (r: u64)
        requires
            self.wf(),
        ensures
            r == self.as_f64_spec(),
            *self matches FloatingPointComponents::Float(enc) ==> is_double_of(r, enc),
    {
        match self {
            FloatingPointComponents::Float(enc) => {
                let r = compose_double(enc);
                proof {
                    let c = double_of(*enc);
                    assert(is_double_of(c, *enc));
                    lemma_decode_double_injective(r, c);
                }
                r
            },
            FloatingPointComponents::NaN(w) => nan_double_bits(w),
        }
    }

    /// The single bit pattern of the value: `sign * mantissa * 2^exponent`
    /// rounded to the nearest single (ties to an even significand, overflow
    /// to infinity) for a number; the NaN (narrowed if double) for a NaN.
    pub fn as_f32(&self) -> (r: u32)
        requires
            self.wf(),
        ensures
            r == self.as_f32_spec(),
            *self matches FloatingPointComponents::Float(enc) ==> is_single_of(r, enc),
    {
        match self {
            FloatingPointComponents::Float(enc) => {
                let r = compose_single(enc);
                proof {
                    let c = single_of(*enc);
                    assert(is_single_of(c, *enc));
                    lemma_decode_single_injective(r, c);
                }
                r
            },
            FloatingPointComponents::NaN(w) => match *w {
                FloatWrap::Single(c) => c,
                FloatWrap::Double(b) => narrow_nan_bits(b),
            },
        }
    }

    /// The bit pattern of the negated double value; the ordering key used
    /// to tell NaNs apart.
    pub fn as_punned(&self) -> (r: u64)
        requires
            self.wf(),
        ensures
            r == negate_double(self.as_f64_spec()),
    {
        self.as_f64() ^ TOP_BIT
    }

    /// Whether the components hold a quiet NaN: bit 51 of the double bit
    /// pattern is set (a NaN with it clear is signaling).
    pub fn is_quiet_nan(&self) -> (r: bool)
        requires
            self.wf(),
        ensures
            r == (*self is NaN && (self.as_f64_spec() / 0x8_0000_0000_0000) % 2 == 1),
    {
        match self {
            FloatingPointComponents::Float(_) => false,
            FloatingPointComponents::NaN(w) => {
                let b = nan_double_bits(w);
                proof {
                    assert(b & 0x8_0000_0000_0000 == 0 <==> (b / 0x8_0000_0000_0000) % 2 == 0)
                        by (bit_vector);
                }
                b & 0x8_0000_0000_0000 != 0
            },
        }
    }

    /// A key that is equal for components that compare equal.
    pub fn hash_key(&self) -> (r: (u64, i32, u8))
        ensures
            is_hash_key_of(*self, r),
    {
        match self {
            FloatingPointComponents::Float(enc) => {
                let enc = canonical(enc);
                if enc.0 == 0 {
                    (0, 0, 0)
                } else {
                    let (n, x) = normalize(enc.0, enc.1);
                    let neg: u8 = if enc.2 < 0 {
                        1
                    } else {
                        0
                    };
                    (n, x, neg)
                }
            },
            FloatingPointComponents::NaN(w) => (nan_double_bits(w), 0, 2),
        }
    }
}

impl From<FloatWrap> for FloatingPointComponents {
    fn from(value: FloatWrap) -> (r: Self) {
        Self::new(value)
    }
}

impl vstd::std_specs::convert::FromSpecImpl<FloatWrap> for FloatingPointComponents {
    open spec fn obeys_from_spec() -> bool {
        true
    }

    open spec fn from_spec(v: FloatWrap) -> FloatingPointComponents {
        components_of(v)
    }
}

impl PartialEq for FloatWrap {
    fn eq(&self, other: &Self) -> (r: bool) {
        FloatingPointComponents::new(*self) == FloatingPointComponents::new(*other)
    }
}

impl vstd::std_specs::cmp::PartialEqSpecImpl for FloatWrap {
    open spec fn obeys_eq_spec() -> bool {
        true
    }

    open spec fn eq_spec(&self, other: &FloatWrap) -> bool {
        values_equal(components_of(*self), components_of(*other))
    }
}

impl Eq for FloatWrap {

}

impl PartialEq for FloatingPointComponents {
    fn eq(&self, other: &Self) -> (r: bool) {
        match (self, other) {
            (FloatingPointComponents::Float(x), FloatingPointComponents::Float(y)) => {
                match compare_values(x, y) {
                    core::cmp::Ordering::Equal => true,
                    _ => false,
                }
            },
            (FloatingPointComponents::NaN(v), FloatingPointComponents::NaN(w)) => {
                nan_double_bits(v) == nan_double_bits(w)
            },
            _ => false,
        }
    }
}

impl vstd::std_specs::cmp::PartialEqSpecImpl for FloatingPointComponents {
    open spec fn obeys_eq_spec() -> bool {
        true
    }

    open spec fn eq_spec(&self, other: &FloatingPointComponents) -> bool {
        values_equal(*self, *other)
    }
}

impl Eq for FloatingPointComponents {

}

impl PartialOrd for FloatingPointComponents {
    fn partial_cmp(&self, other: &Self) -> (r: Option<core::cmp::Ordering>) {
        match (self, other) {
            (FloatingPointComponents::Float(x), FloatingPointComponents::Float(y)) => Some(
                compare_values(x, y),
            ),
            _ => None,
        }
    }
}

impl vstd::std_specs::cmp::PartialOrdSpecImpl for FloatingPointComponents {
    open spec fn obeys_partial_cmp_spec() -> bool {
        true
    }

    open spec fn partial_cmp_spec(&self, other: &FloatingPointComponents) -> Option<
        core::cmp::Ordering,
    > {
        values_compared(*self, *other)
    }
}

/// Relies on std's `Hash` impl for `u64`: writes the integer into the hasher.
/// Nothing is claimed of the hasher's state.
#[verifier::external_body]
fn feed_hasher<H: core::hash::Hasher>(v: u64, state: &mut H) {
    core::hash::Hash::hash(&v, state)
}

impl core::hash::Hash for FloatingPointComponents {
    fn hash<H: core::hash::Hasher>(&self, state: &mut H) {
        let key = self.hash_key();
        feed_hasher(key.0, state);
        feed_hasher(key.1 as u64, state);
        feed_hasher(key.2 as u64, state);
    }
}

} // verus!
