use vstd::arithmetic::power2::{lemma_pow2_adds, lemma_pow2_pos, lemma_pow2_strictly_increases, pow2};
use vstd::arithmetic::mul::{lemma_mul_strict_inequality, lemma_mul_inequality, lemma_mul_is_associative};
use vstd::prelude::*;

verus! {

/// Shift that makes `e + offset()` non-negative for every `i16` exponent `e`
/// lowered by up to 64 places.
pub open spec fn offset() -> int {
    32832
}

/// `m * 2^e`, counted in units of `2^-offset()`: an exact integer.
pub open spec fn scaled(m: int, e: int) -> int {
    m * pow2((e + offset()) as nat)
}

/// 2^63: the leading bit of a normalized mantissa.
pub const TOP_BIT: u64 = 0x8000_0000_0000_0000;

pub open spec fn ordering_of(a: int, b: int) -> core::cmp::Ordering {
    if a < b {
        core::cmp::Ordering::Less
    } else if a > b {
        core::cmp::Ordering::Greater
    } else {
        core::cmp::Ordering::Equal
    }
}

pub proof fn lemma_scaled_shift(m: int, e: int, k: nat)
    requires
        e - k + offset() >= 0,
    ensures
        scaled(m * pow2(k), e - k) == scaled(m, e),
{
    lemma_pow2_adds(k, (e - k + offset()) as nat);
    lemma_mul_is_associative(m, pow2(k) as int, pow2((e - k + offset()) as nat) as int);
}

/// Between mantissas with the same leading bit `lead`, a larger exponent
/// means a larger magnitude.
pub proof fn lemma_scaled_exponent_order(lead: nat, n1: int, x1: int, n2: int, x2: int)
    requires
        pow2(lead) <= n1 < pow2(lead + 1),
        pow2(lead) <= n2 < pow2(lead + 1),
        -offset() <= x1 < x2,
    ensures
        scaled(n1, x1) < scaled(n2, x2),
{
    let p1 = (x1 + offset()) as nat;
    let p2 = (x2 + offset()) as nat;
    lemma_pow2_pos(p1);
    lemma_pow2_pos(p2);
    lemma_mul_strict_inequality(n1, pow2(lead + 1) as int, pow2(p1) as int);
    lemma_pow2_adds(lead + 1, p1);
    lemma_pow2_adds(lead, p2);
    if lead + 1 + p1 < lead + p2 {
        lemma_pow2_strictly_increases(lead + 1 + p1, lead + p2);
    }
    lemma_mul_inequality(pow2(lead) as int, n2, pow2(p2) as int);
    assert(n1 * pow2(p1) == pow2(p1) * n1) by (nonlinear_arith);
    assert(pow2(lead + 1) * pow2(p1) == pow2(p1) * pow2(lead + 1)) by (nonlinear_arith);
}

/// Between mantissas with the same leading bit, equal magnitudes mean equal
/// mantissas and exponents.
pub proof fn lemma_scaled_unique(lead: nat, n1: int, x1: int, n2: int, x2: int)
    requires
        pow2(lead) <= n1 < pow2(lead + 1),
        pow2(lead) <= n2 < pow2(lead + 1),
        -offset() <= x1,
        -offset() <= x2,
        scaled(n1, x1) == scaled(n2, x2),
    ensures
        n1 == n2,
        x1 == x2,
{
    if x1 < x2 {
        lemma_scaled_exponent_order(lead, n1, x1, n2, x2);
    } else if x2 < x1 {
        lemma_scaled_exponent_order(lead, n2, x2, n1, x1);
    } else {
        let p = (x1 + offset()) as nat;
        lemma_pow2_pos(p);
        if n1 < n2 {
            lemma_mul_strict_inequality(n1, n2, pow2(p) as int);
        } else if n2 < n1 {
            lemma_mul_strict_inequality(n2, n1, pow2(p) as int);
        }
    }
}

pub proof fn lemma_pow2_le(a: nat, b: nat)
    requires
        a <= b,
    ensures
        pow2(a) <= pow2(b),
{
    if a < b {
        lemma_pow2_strictly_increases(a, b);
    }
}

pub proof fn lemma_top_bit()
    ensures
        pow2(63) == TOP_BIT,
        pow2(64) == 2 * TOP_BIT,
        pow2(52) == 0x10_0000_0000_0000,
        pow2(53) == 0x20_0000_0000_0000,
        pow2(23) == 0x80_0000,
        pow2(24) == 0x100_0000,
{
    vstd::arithmetic::power2::lemma2_to64();
    vstd::arithmetic::power2::lemma2_to64_rest();
}

/// Normalizes a non-zero mantissa so that its leading bit is bit 63,
/// keeping the magnitude: returns `(n, x)` with `n * 2^x == m * 2^e`.
pub fn normalize(m: u64, e: i16) -> (r: (u64, i32))
    requires
        m > 0,
    ensures
        TOP_BIT <= r.0,
        e - 63 <= r.1 <= e,
        r.0 as int == m * pow2((e - r.1) as nat),
        scaled(r.0 as int, r.1 as int) == scaled(m as int, e as int),
{
    let mut n: u64 = m;
    let mut x: i32 = e as i32;
    proof {
        vstd::arithmetic::power2::lemma2_to64();
        assert(m * pow2(0) == m);
    }
    while n < TOP_BIT
        invariant
            n > 0,
            e - 63 <= x <= e,
            n as int == m * pow2((e - x) as nat),
        decreases x - (e - 63),
    {
        proof {
            let k = (e - x) as nat;
            lemma_pow2_adds(k, 1);
            vstd::arithmetic::power2::lemma2_to64();
            lemma_mul_is_associative(m as int, pow2(k) as int, 2);
            vstd::arithmetic::power2::lemma2_to64_rest();
            assert(pow2(63) == TOP_BIT);
            if e - x + 1 > 63 {
                lemma_pow2_strictly_increases(63, (e - x + 1) as nat);
                lemma_mul_inequality(1, m as int, pow2((e - x + 1) as nat) as int);
            }
        }
        n = n * 2;
        x = x - 1;
    }
    proof {
        lemma_scaled_shift(m as int, e as int, (e - x) as nat);
    }
    (n, x)
}

/// Compares `m1 * 2^e1` with `m2 * 2^e2`.
pub fn compare_magnitudes(m1: u64, e1: i16, m2: u64, e2: i16) -> (r: core::cmp::Ordering)
    ensures
        r == ordering_of(scaled(m1 as int, e1 as int), scaled(m2 as int, e2 as int)),
{
    let p1 = Ghost((e1 + offset()) as nat);
    let p2 = Ghost((e2 + offset()) as nat);
    proof {
        lemma_pow2_pos(p1@);
        lemma_pow2_pos(p2@);
        assert(m1 * pow2(p1@) >= 0) by (nonlinear_arith);
        assert(m2 * pow2(p2@) >= 0) by (nonlinear_arith);
        assert(m1 > 0 ==> m1 * pow2(p1@) > 0) by (nonlinear_arith)
            requires
                pow2(p1@) > 0,
        ;
        assert(m2 > 0 ==> m2 * pow2(p2@) > 0) by (nonlinear_arith)
            requires
                pow2(p2@) > 0,
        ;
    }
    if m1 == 0 && m2 == 0 {
        return core::cmp::Ordering::Equal;
    }
    if m1 == 0 {
        return core::cmp::Ordering::Less;
    }
    if m2 == 0 {
        return core::cmp::Ordering::Greater;
    }
    let (n1, x1) = normalize(m1, e1);
    let (n2, x2) = normalize(m2, e2);
    proof {
        lemma_top_bit();
    }
    if x1 < x2 {
        proof {
            lemma_scaled_exponent_order(63, n1 as int, x1 as int, n2 as int, x2 as int);
        }
        core::cmp::Ordering::Less
    } else if x1 > x2 {
        proof {
            lemma_scaled_exponent_order(63, n2 as int, x2 as int, n1 as int, x1 as int);
        }
        core::cmp::Ordering::Greater
    } else {
        let p = Ghost((x1 + offset()) as nat);
        proof {
            lemma_pow2_pos(p@);
            if n1 < n2 {
                lemma_mul_strict_inequality(n1 as int, n2 as int, pow2(p@) as int);
            } else if n2 < n1 {
                lemma_mul_strict_inequality(n2 as int, n1 as int, pow2(p@) as int);
            }
        }
        if n1 < n2 {
            core::cmp::Ordering::Less
        } else if n1 > n2 {
            core::cmp::Ordering::Greater
        } else {
            core::cmp::Ordering::Equal
        }
    }
}

} // verus!
