use vstd::arithmetic::div_mod::{
    lemma_basic_div, lemma_fundamental_div_mod, lemma_fundamental_div_mod_converse, lemma_small_mod,
};
use vstd::arithmetic::mul::lemma_mul_strict_inequality;
use vstd::arithmetic::power2::{
    lemma_pow2_adds, lemma_pow2_pos, lemma_pow2_strictly_increases, lemma_pow2_unfold, pow2,
};
use vstd::prelude::*;

use crate::components::{canonical, infinity_magnitude, lemma_infinity_magnitude, lemma_magnitude_nonneg};
use crate::encoding::{decode_single, single_is_nan, FloatEncoding};
use crate::magnitude::{lemma_pow2_le, lemma_scaled_shift, lemma_top_bit, normalize, offset, scaled, TOP_BIT};

verus! {

/// `n / 2^d` rounded to the nearest integer, ties to the even one.
pub open spec fn round_half_even(n: nat, d: nat) -> nat {
    if d == 0 {
        n
    } else {
        let q = n / pow2(d);
        let r = n % pow2(d);
        let half = pow2((d - 1) as nat);
        if r > half || (r == half && q % 2 == 1) {
            q + 1
        } else {
            q
        }
    }
}

/// The position of the highest set bit of `n` (`0` for `0` and `1`).
pub open spec fn log2(n: nat) -> nat
    decreases n,
{
    if n <= 1 {
        0
    } else {
        1 + log2(n / 2)
    }
}

/// Exponent, in units of `2^-offset()`, of the smallest single subnormal
/// `2^-149`.
pub open spec fn single_lowest_quantum() -> nat {
    (-149 + offset()) as nat
}

/// Exponent, in units of `2^-offset()`, of the spacing between the singles
/// next to a magnitude `mag`: 24 significant bits, never finer than the
/// subnormal spacing.
pub open spec fn single_quantum(mag: nat) -> nat {
    if mag == 0 || log2(mag) < 23 + single_lowest_quantum() {
        single_lowest_quantum()
    } else {
        (log2(mag) - 23) as nat
    }
}

/// Magnitude, in units of `2^-offset()`, from which a rounded value
/// overflows a single: `2^128`.
pub open spec fn single_overflow() -> nat {
    pow2(single_overflow_exp())
}

/// The magnitude of the single nearest to `mag`, ties to an even
/// significand; a result of `2^128` or more becomes infinity.
pub open spec fn single_rounded(mag: nat) -> nat {
    let q = single_quantum(mag);
    let v = round_half_even(mag, q) * pow2(q);
    if v >= single_overflow() {
        infinity_magnitude() as nat
    } else {
        v
    }
}

pub proof fn lemma_log2_between(v: nat, t: nat)
    requires
        pow2(t) <= v < pow2(t + 1),
    ensures
        log2(v) == t,
    decreases t,
{
    lemma_pow2_unfold(t + 1);
    if t == 0 {
        vstd::arithmetic::power2::lemma2_to64();
    } else {
        lemma_pow2_unfold(t);
        lemma_pow2_pos((t - 1) as nat);
        lemma_log2_between(v / 2, (t - 1) as nat);
    }
}

/// Scaling the numerator and the divisor by the same power of two does not
/// change the rounded quotient.
pub proof fn lemma_round_scaled(n: nat, d: nat, j: nat)
    requires
        d >= 1,
    ensures
        round_half_even(n * pow2(j), d + j) == round_half_even(n, d),
{
    let p = pow2(d) as int;
    let jj = pow2(j) as int;
    lemma_pow2_pos(d);
    lemma_pow2_pos(j);
    lemma_pow2_adds(d, j);
    lemma_pow2_adds((d - 1) as nat, j);
    assert((d - 1) as nat + j == (d + j - 1) as nat);
    lemma_fundamental_div_mod(n as int, p);
    let q = n as int / p;
    let r = n as int % p;
    assert(n * jj == q * (p * jj) + r * jj) by (nonlinear_arith)
        requires
            n == q * p + r,
    ;
    lemma_mul_strict_inequality(r, p, jj);
    assert(r * jj >= 0) by (nonlinear_arith)
        requires
            r >= 0,
            jj > 0,
    ;
    assert(p * jj > 0) by (nonlinear_arith)
        requires
            p > 0,
            jj > 0,
    ;
    lemma_fundamental_div_mod_converse(n * jj, p * jj, q, r * jj);
    let h = pow2((d - 1) as nat) as int;
    if r > h {
        lemma_mul_strict_inequality(h, r, jj);
    } else if r < h {
        lemma_mul_strict_inequality(r, h, jj);
    }
}

/// `n / 2^d`, rounded half to even.
pub fn round_shift(n: u64, d: u32) -> (k: u64)
    requires
        d >= 1,
    ensures
        k == round_half_even(n as nat, d as nat),
{
    proof {
        lemma_top_bit();
        lemma_pow2_unfold(d as nat);
    }
    if d >= 64 {
        proof {
            lemma_pow2_le(64, d as nat);
            lemma_pow2_le(63, (d - 1) as nat);
            lemma_basic_div(n as int, pow2(d as nat) as int);
            lemma_small_mod(n as nat, pow2(d as nat));
            if d > 64 {
                lemma_pow2_le(64, (d - 1) as nat);
            }
        }
        if d == 64 && n > TOP_BIT {
            1
        } else {
            0
        }
    } else {
        proof {
            vstd::bits::lemma_u64_pow2_no_overflow(d as nat);
            vstd::bits::lemma_u64_shl_is_mul(1, d as u64);
        }
        let p = 1u64 << (d as u64);
        let q = n / p;
        let r = n % p;
        let half = p / 2;
        proof {
            lemma_pow2_pos((d - 1) as nat);
            assert(q < 0xffff_ffff_ffff_ffff) by {
                vstd::arithmetic::div_mod::lemma_div_is_ordered_by_denominator(n as int, 2, p as int);
            }
        }
        if r > half || (r == half && q % 2 == 1) {
            q + 1
        } else {
            q
        }
    }
}

/// `r` is the bit pattern of the single nearest to `enc` (ties to an even
/// significand, overflow to infinity), with the sign of `enc`.
pub open spec fn is_single_of(r: u32, enc: FloatEncoding) -> bool {
    &&& !single_is_nan(r)
    &&& decode_single(r).magnitude() == single_rounded(enc.magnitude() as nat)
    &&& decode_single(r).2 == enc.2
}

proof fn lemma_single_fields(s: u32, mag: u32)
    by (bit_vector)
    requires
        s == 0 || s == 0x8000_0000u32,
        mag < 0x8000_0000u32,
    ensures
        (s | mag) / 0x80_0000 % 0x100 == mag / 0x80_0000,
        (s | mag) % 0x80_0000 == mag % 0x80_0000,
        ((s | mag) >= 0x8000_0000u32 <==> s != 0),
{
}

/// `2^lead <= k < 2^(lead + 1)` places `k * 2^y` between two powers of two.
proof fn lemma_scaled_between(k: int, lead: nat, y: int)
    requires
        pow2(lead) <= k < pow2(lead + 1),
        y + offset() >= 0,
    ensures
        pow2((lead + y + offset()) as nat) <= scaled(k, y) < pow2((lead + 1 + y + offset()) as nat),
{
    let p = (y + offset()) as nat;
    lemma_pow2_pos(p);
    lemma_pow2_adds(lead, p);
    lemma_pow2_adds(lead + 1, p);
    vstd::arithmetic::mul::lemma_mul_inequality(pow2(lead) as int, k, pow2(p) as int);
    lemma_mul_strict_inequality(k, pow2(lead + 1) as int, pow2(p) as int);
}

/// Builds the single nearest to a well-formed encoding.
pub fn compose_single(enc: &FloatEncoding) -> (r: u32)
    requires
        enc.wf(),
    ensures
        is_single_of(r, *enc),
{
    let s: u32 = if enc.2 < 0 {
        0x8000_0000
    } else {
        0
    };
    proof {
        lemma_top_bit();
        lemma_magnitude_nonneg(*enc);
        vstd::arithmetic::power2::lemma2_to64();
        vstd::arithmetic::power2::lemma2_to64_rest();
        lemma_pow2_pos(single_lowest_quantum());
        lemma_pow2_pos(single_overflow_exp());
    }
    let enc = &canonical(enc);
    if enc.0 == 0 {
        proof {
            lemma_single_fields(s, 0);
            assert(s | 0u32 == s) by (bit_vector);
            let q = single_lowest_quantum();
            lemma_pow2_unfold(q);
            lemma_pow2_pos((q - 1) as nat);
            lemma_basic_div(0, pow2(q) as int);
            lemma_small_mod(0, pow2(q));
            assert(round_half_even(0, q) == 0);
            assert(decode_single(s).0 == 0);
            lemma_magnitude_nonneg(decode_single(s));
            assert(enc.magnitude() == 0);
            assert(single_quantum(0) == q);
            assert(0 * pow2(q) == 0);
            assert(single_rounded(0) == 0);
            assert(decode_single(s).magnitude() == 0);
            assert(!single_is_nan(s));
            assert(decode_single(s).2 == enc.2);
        }
        return s;
    }
    let (n, x) = normalize(enc.0, enc.1);
    let ghost big = enc.magnitude() as nat;
    proof {
        lemma_scaled_between(n as int, 63, x as int);
        lemma_log2_between(big, (63 + x + offset()) as nat);
    }
    let mag: u32 = if x >= -189 {
        let k = round_shift(n, 40);
        let ghost q = (40 + x + offset()) as nat;
        let ghost v: nat = (k * pow2(q)) as nat;
        proof {
            lemma_round_scaled(n as nat, 40, (x + offset()) as nat);
            assert(single_quantum(big) == q);
            assert(pow2(40) == 0x100_0000_0000);
            assert(pow2(39) == 0x80_0000_0000);
            assert(0x80_0000 <= k <= 0x100_0000);
            assert(single_rounded(big) == if v >= single_overflow() {
                infinity_magnitude() as nat
            } else {
                v
            });
            lemma_pow2_adds(23, q);
            lemma_pow2_adds(24, q);
            lemma_pow2_adds(23, (q + 1) as nat);
        }
        let pre: u64 = ((x + 189) as u64) * 0x80_0000 + k;
        if pre >= 0x7f80_0000 {
            proof {
                lemma_fundamental_div_mod_converse(0x7f80_0000, 0x80_0000, 255, 0);
                lemma_pow2_adds(23, (105 + offset()) as nat);
                if k < 0x100_0000 {
                    lemma_scaled_between(k as int, 23, x + 40);
                    lemma_pow2_le(single_overflow_exp(), (23 + x + 40 + offset()) as nat);
                } else {
                    lemma_pow2_le(single_overflow_exp(), (24 + q) as nat);
                }
                assert(v >= single_overflow());
                assert(decode_single(0x7f80_0000u32).magnitude() == infinity_magnitude());
            }
            0x7f80_0000
        } else {
            proof {
                if k < 0x100_0000 {
                    lemma_fundamental_div_mod_converse(pre as int, 0x80_0000, x + 190, k - 0x80_0000);
                    lemma_scaled_between(k as int, 23, x + 40);
                    lemma_pow2_le((24 + x + 40 + offset()) as nat, single_overflow_exp());
                    assert(decode_single(pre as u32).magnitude() == v);
                } else {
                    lemma_fundamental_div_mod_converse(pre as int, 0x80_0000, x + 191, 0);
                    lemma_pow2_le((24 + q) as nat, single_overflow_exp());
                    lemma_pow2_strictly_increases((24 + q) as nat, single_overflow_exp());
                    assert(decode_single(pre as u32).magnitude() == v);
                }
                assert(v < single_overflow());
            }
            pre as u32
        }
    } else {
        let d = (-149 - x) as u32;
        let k = round_shift(n, d);
        let ghost q = single_lowest_quantum();
        let ghost v: nat = (k * pow2(q)) as nat;
        proof {
            lemma_round_scaled(n as nat, d as nat, (x + offset()) as nat);
            assert(single_quantum(big) == single_lowest_quantum());
            lemma_pow2_le(41, d as nat);
            vstd::arithmetic::div_mod::lemma_div_is_ordered_by_denominator(n as int, pow2(41) as int, pow2(d as nat) as int);
            assert(k <= 0x80_0000);
            assert(single_rounded(big) == if v >= single_overflow() {
                infinity_magnitude() as nat
            } else {
                v
            });
            lemma_pow2_adds(23, q);
            lemma_pow2_le((23 + q) as nat, single_overflow_exp());
            lemma_pow2_strictly_increases((23 + q) as nat, single_overflow_exp());
            vstd::arithmetic::mul::lemma_mul_inequality(k as int, 0x80_0000, pow2(q) as int);
            assert(v < single_overflow());
            if k < 0x80_0000 {
                lemma_scaled_shift(k as int, -149, 1);
                assert(decode_single(k as u32).0 == 2 * k);
                assert(decode_single(k as u32).magnitude() == v);
            } else {
                lemma_fundamental_div_mod_converse(k as int, 0x80_0000, 1, 0);
                assert(decode_single(k as u32).magnitude() == v);
            }
        }
        k as u32
    };
    proof {
        lemma_single_fields(s, mag);
    }
    s | mag
}

/// `a * 2^q` divided by `2^q` needs no rounding.
pub proof fn lemma_round_exact(a: nat, q: nat)
    requires
        q >= 1,
    ensures
        round_half_even(a * pow2(q), q) == a,
{
    lemma_pow2_pos(q);
    lemma_pow2_pos((q - 1) as nat);
    lemma_fundamental_div_mod_converse((a * pow2(q)) as int, pow2(q) as int, a as int, 0);
}

/// Rounding the magnitude of a single gives it back.
pub proof fn lemma_single_rounded_exact(c: u32)
    requires
        !single_is_nan(c),
    ensures
        single_rounded(decode_single(c).magnitude() as nat) == decode_single(c).magnitude(),
{
    let dc = decode_single(c);
    let big = dc.magnitude() as nat;
    lemma_magnitude_nonneg(dc);
    lemma_top_bit();
    vstd::arithmetic::power2::lemma2_to64();
    let lowest = single_lowest_quantum();
    lemma_pow2_pos(lowest);
    if dc.0 == 0 {
        lemma_pow2_unfold(lowest);
        lemma_pow2_pos((lowest - 1) as nat);
        lemma_basic_div(0, pow2(lowest) as int);
        lemma_small_mod(0, pow2(lowest));
        assert(round_half_even(0, lowest) == 0);
        assert(big == 0);
        assert(single_quantum(0) == lowest);
        assert(0 * pow2(lowest) == 0);
        lemma_pow2_pos(single_overflow_exp());
        assert(single_rounded(0) == 0);
    } else if dc.1 == -150 {
        // subnormal: the significand is below 2^23, at the lowest spacing
        let f = (dc.0 / 2) as nat;
        lemma_scaled_shift(f as int, -149, 1);
        assert(big == f * pow2(lowest));
        assert(1 <= f < 0x80_0000);
        lemma_pow2_le(0, 23);
        let t = log2(f);
        lemma_log2_below(f);
        lemma_scaled_between(f as int, t, -149);
        lemma_log2_between(big, (t - 149 + offset()) as nat);
        lemma_round_exact(f, lowest);
        lemma_pow2_adds(23, lowest);
        vstd::arithmetic::mul::lemma_mul_inequality(f as int, 0x80_0000, pow2(lowest) as int);
        lemma_pow2_strictly_increases((23 + lowest) as nat, single_overflow_exp());
        assert(single_quantum(big) == lowest);
        assert(single_rounded(big) == big);
    } else if dc.is_single_infinity() {
        // infinity: 2^23 * 2^(1001 + offset()), already a multiple of its spacing
        let q = (1001 + offset()) as nat;
        lemma_infinity_magnitude();
        lemma_pow2_adds(23, q);
        lemma_pow2_strictly_increases((1024 + offset()) as nat, (1025 + offset()) as nat);
        lemma_log2_between(big, (1024 + offset()) as nat);
        lemma_round_exact(0x80_0000, q);
        assert(single_quantum(big) == q);
        assert(single_rounded(big) == big);
    } else {
        let q = (dc.1 + offset()) as nat;
        lemma_scaled_between(dc.0 as int, 23, dc.1 as int);
        lemma_log2_between(big, (23 + q) as nat);
        lemma_round_exact(dc.0 as nat, q);
        if dc.1 == 105 {
            lemma_pow2_adds(23, q);
        } else {
            lemma_pow2_le((24 + q) as nat, single_overflow_exp());
        }
        assert(single_quantum(big) == q);
        assert(single_rounded(big) == big);
    }
}

/// `2^log2(f) <= f < 2^(log2(f) + 1)` for `f >= 1`, and `log2(f) < 23`
/// when `f < 2^23`.
pub proof fn lemma_log2_below(f: nat)
    requires
        f >= 1,
    ensures
        pow2(log2(f)) <= f < pow2(log2(f) + 1),
        f < 0x80_0000 ==> log2(f) < 23,
    decreases f,
{
    vstd::arithmetic::power2::lemma2_to64();
    lemma_pow2_unfold(log2(f) + 1);
    if f > 1 {
        lemma_log2_below(f / 2);
        lemma_pow2_unfold(log2(f));
        if f < 0x80_0000 && log2(f) >= 23 {
            lemma_pow2_le(23, log2(f));
        }
    }
}

pub open spec fn single_overflow_exp() -> nat {
    (128 + offset()) as nat
}

} // verus!
