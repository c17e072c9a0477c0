use vstd::prelude::*;

verus! {

/// A single- or double-precision IEEE-754 value, held as its bit pattern.
///
/// `==` compares values as the components do: numbers by value (so the two
/// zeros are equal, across precisions too), NaNs by their double bit
/// pattern.
#[derive(Clone, Copy, Debug)]
pub enum FloatWrap {
    Single(u32),
    Double(u64),
}

/// 2^52: the implicit leading bit of a normal double's significand.
pub const DOUBLE_HIDDEN: u64 = 0x10_0000_0000_0000;

/// 2^23: the implicit leading bit of a normal single's significand.
pub const SINGLE_HIDDEN: u64 = 0x80_0000;

/// The 52 fraction bits of a double.
pub open spec fn double_fraction(b: u64) -> nat {
    (b % 0x10_0000_0000_0000) as nat
}

/// The 11 biased exponent bits of a double.
pub open spec fn double_biased_exponent(b: u64) -> int {
    (b / 0x10_0000_0000_0000) as int % 0x800
}

/// Whether the sign bit of a double is set.
pub open spec fn double_is_negative(b: u64) -> bool {
    b >= 0x8000_0000_0000_0000
}

/// Whether a double is a NaN: all exponent bits set, fraction not zero.
pub open spec fn double_is_nan(b: u64) -> bool {
    double_biased_exponent(b) == 0x7ff && double_fraction(b) != 0
}

/// The 23 fraction bits of a single.
pub open spec fn single_fraction(c: u32) -> nat {
    (c % 0x80_0000) as nat
}

/// The 8 biased exponent bits of a single.
pub open spec fn single_biased_exponent(c: u32) -> int {
    (c / 0x80_0000) as int % 0x100
}

/// Whether the sign bit of a single is set.
pub open spec fn single_is_negative(c: u32) -> bool {
    c >= 0x8000_0000
}

/// Whether a single is a NaN: all exponent bits set, fraction not zero.
pub open spec fn single_is_nan(c: u32) -> bool {
    single_biased_exponent(c) == 0xff && single_fraction(c) != 0
}

impl FloatWrap {
    pub open spec fn is_nan_spec(self) -> bool {
        match self {
            FloatWrap::Single(c) => single_is_nan(c),
            FloatWrap::Double(b) => double_is_nan(b),
        }
    }

    /// Whether the wrapped value is a NaN (all exponent bits set, fraction
    /// not zero).
    pub fn is_nan(&self) -> (r: bool)
        ensures
            r == self.is_nan_spec(),
    {
        match *self {
            FloatWrap::Single(c) => {
                let biased = (c >> 23) & 0xff;
                let frac = c & 0x7f_ffff;
                proof {
                    assert((c >> 23) & 0xff == (c / 0x80_0000) % 0x100) by (bit_vector);
                    assert(c & 0x7f_ffff == c % 0x80_0000) by (bit_vector);
                }
                biased == 0xff && frac != 0
            },
            FloatWrap::Double(b) => {
                let biased = (b >> 52) & 0x7ff;
                let frac = b & 0xf_ffff_ffff_ffff;
                proof {
                    assert((b >> 52) & 0x7ff == (b / 0x10_0000_0000_0000) % 0x800) by (bit_vector);
                    assert(b & 0xf_ffff_ffff_ffff == b % 0x10_0000_0000_0000) by (bit_vector);
                }
                biased == 0x7ff && frac != 0
            },
        }
    }
}

/// The exact decomposition of a non-NaN value: `(mantissa, exponent, sign)`,
/// whose magnitude is `mantissa * 2^exponent` and whose sign is `sign`
/// (`1` or `-1`, also for a zero).
///
/// A well-formed encoding (`wf`) is the decomposition of some single or
/// double. An infinity's bit layout decomposes as the power of two just
/// above the largest finite value of its precision (`2^52 * 2^972` for a
/// double, `2^23 * 2^105` for a single); both of these triples stand for
/// infinity.
#[derive(Clone, Copy, Debug, PartialEq, Eq, Structural, Hash)]
pub struct FloatEncoding(pub u64, pub i16, pub i8);

/// Whether `(m, e)` is the mantissa and exponent of a non-NaN double.
pub open spec fn double_shaped(m: u64, e: i16) -> bool {
    ||| (e == -1075 && m < 2 * DOUBLE_HIDDEN && m % 2 == 0)
    ||| (-1074 <= e <= 971 && DOUBLE_HIDDEN <= m < 2 * DOUBLE_HIDDEN)
    ||| (e == 972 && m == DOUBLE_HIDDEN)
}

/// Whether `(m, e)` is the mantissa and exponent of a non-NaN single.
pub open spec fn single_shaped(m: u64, e: i16) -> bool {
    ||| (e == -150 && m < 2 * SINGLE_HIDDEN && m % 2 == 0)
    ||| (-149 <= e <= 104 && SINGLE_HIDDEN <= m < 2 * SINGLE_HIDDEN)
    ||| (e == 105 && m == SINGLE_HIDDEN)
}

/// The decomposition of the non-NaN double with bits `b`.
pub open spec fn decode_double(b: u64) -> FloatEncoding {
    let biased = double_biased_exponent(b);
    let frac = double_fraction(b);
    FloatEncoding(
        if biased == 0 { (2 * frac) as u64 } else { (frac + DOUBLE_HIDDEN) as u64 },
        (biased - 1075) as i16,
        if double_is_negative(b) { -1i8 } else { 1i8 },
    )
}

/// The decomposition of the non-NaN single with bits `c`.
pub open spec fn decode_single(c: u32) -> FloatEncoding {
    let biased = single_biased_exponent(c);
    let frac = single_fraction(c);
    FloatEncoding(
        if biased == 0 { (2 * frac) as u64 } else { (frac + SINGLE_HIDDEN) as u64 },
        (biased - 150) as i16,
        if single_is_negative(c) { -1i8 } else { 1i8 },
    )
}

impl FloatEncoding {
    /// Whether this is the triple of a single-precision infinity.
    pub open spec fn is_single_infinity(self) -> bool {
        self.0 == SINGLE_HIDDEN && self.1 == 105
    }

    pub open spec fn mantissa_spec(self) -> u64 {
        self.0
    }

    pub open spec fn exponent_spec(self) -> i16 {
        self.1
    }

    pub open spec fn sign_spec(self) -> i8 {
        self.2
    }

    /// The encoding is the exact decomposition of a single or a double.
    pub open spec fn wf(self) -> bool {
        &&& (self.2 == 1 || self.2 == -1)
        &&& (double_shaped(self.0, self.1) || single_shaped(self.0, self.1))
    }
}

pub proof fn lemma_decode_double_wf(b: u64)
    requires
        !double_is_nan(b),
    ensures
        decode_double(b).wf(),
        decode_double(b).1 as int == double_biased_exponent(b) - 1075,
{
}

pub proof fn lemma_decode_single_wf(c: u32)
    requires
        !single_is_nan(c),
    ensures
        decode_single(c).wf(),
        decode_single(c).1 as int == single_biased_exponent(c) - 150,
{
}

/// The decomposition of a non-NaN double from its bit layout: the 52
/// fraction bits with the implicit leading bit (shifted left once for a
/// subnormal), the biased exponent less 1075, and the sign bit.
pub fn decode_double_bits(b: u64) -> (r: FloatEncoding)
    requires
        !double_is_nan(b),
    ensures
        r == decode_double(b),
{
    let biased = (b >> 52) & 0x7ff;
    let frac = b & 0xf_ffff_ffff_ffff;
    proof {
        assert((b >> 52) & 0x7ff == (b / 0x10_0000_0000_0000) % 0x800) by (bit_vector);
        assert(b & 0xf_ffff_ffff_ffff == b % 0x10_0000_0000_0000) by (bit_vector);
        assert(frac << 1 == 2 * frac) by (bit_vector)
            requires
                frac == b & 0xf_ffff_ffff_ffff,
        ;
        assert(frac | 0x10_0000_0000_0000 == frac + 0x10_0000_0000_0000) by (bit_vector)
            requires
                frac == b & 0xf_ffff_ffff_ffff,
        ;
        assert(b >> 63 == 0 <==> b < 0x8000_0000_0000_0000) by (bit_vector);
        lemma_decode_double_wf(b);
    }
    let mantissa = if biased == 0 {
        frac << 1
    } else {
        frac | DOUBLE_HIDDEN
    };
    let sign: i8 = if b >> 63 == 0 {
        1
    } else {
        -1
    };
    FloatEncoding(mantissa, biased as i16 - 1075, sign)
}

/// The decomposition of a non-NaN single from its bit layout: the 23
/// fraction bits with the implicit leading bit (shifted left once for a
/// subnormal), the biased exponent less 150, and the sign bit.
pub fn decode_single_bits(c: u32) -> (r: FloatEncoding)
    requires
        !single_is_nan(c),
    ensures
        r == decode_single(c),
{
    let biased = (c >> 23) & 0xff;
    let frac = c & 0x7f_ffff;
    proof {
        assert((c >> 23) & 0xff == (c / 0x80_0000) % 0x100) by (bit_vector);
        assert(c & 0x7f_ffff == c % 0x80_0000) by (bit_vector);
        assert(c >> 31 == 0 <==> c < 0x8000_0000) by (bit_vector);
        lemma_decode_single_wf(c);
    }
    let frac = frac as u64;
    let mantissa = if biased == 0 {
        frac * 2
    } else {
        frac + SINGLE_HIDDEN
    };
    let sign: i8 = if c >> 31 == 0 {
        1
    } else {
        -1
    };
    FloatEncoding(mantissa, biased as i16 - 150, sign)
}

} // verus!
