//! The IEEE 754 binary64 and binary32 encodings of non-negative numbers, as
//! integers.
//!
//! Every conversion of this crate returns the bit pattern of its float (what
//! `f64::to_bits` gives). A non-negative finite binary64 value is an integer
//! multiple of 2⁻¹⁰⁷⁴; [`ulps`] is that integer, so that the value of an
//! encoding `b` is `ulps(b) · 2⁻¹⁰⁷⁴`. The value of `x / 2ᵏ` for naturals `x`
//! and `k` is then compared with an encoding by cross-multiplication, which
//! keeps every statement in the integers.
use vstd::arithmetic::mul::{
    lemma_mul_inequality, lemma_mul_is_associative, lemma_mul_is_commutative,
    lemma_mul_is_distributive_add, lemma_mul_strict_inequality,
};
use vstd::arithmetic::power2::{
    lemma2_to64, lemma_pow2_adds, lemma_pow2_pos, pow2,
};
use vstd::arithmetic::div_mod::lemma_fundamental_div_mod_converse;
use vstd::prelude::*;

verus! {

/// The encoding of 1.0.
pub const F64_ONE: u64 = 0x3FF0_0000_0000_0000;

/// The encoding of +∞; every encoding below it is a finite non-negative value.
pub const F64_INFINITY: u64 = 0x7FF0_0000_0000_0000;

/// The encoding of 1.0 in binary32.
pub const F32_ONE: u32 = 0x3F80_0000;

/// 2⁵², the weight of the hidden bit of a binary64 significand.
pub open spec fn hidden64() -> nat {
    0x10_0000_0000_0000
}

/// The biased exponent field of a non-negative binary64 encoding.
pub open spec fn exp_field(b: u64) -> nat {
    b as nat / hidden64()
}

/// The fraction field of a binary64 encoding.
pub open spec fn frac_field(b: u64) -> nat {
    b as nat % hidden64()
}

/// The integer significand: the fraction, with the hidden bit for normal
/// numbers.
pub open spec fn significand(b: u64) -> nat {
    if exp_field(b) == 0 {
        frac_field(b)
    } else {
        hidden64() + frac_field(b)
    }
}

/// The power of two, in units of 2⁻¹⁰⁷⁴, by which the significand is scaled.
pub open spec fn scale(b: u64) -> nat {
    if exp_field(b) == 0 {
        0
    } else {
        (exp_field(b) - 1) as nat
    }
}

/// The value of a non-negative binary64 encoding in units of 2⁻¹⁰⁷⁴.
pub open spec fn ulps(b: u64) -> nat {
    significand(b) * pow2(scale(b))
}

/// `r` encodes a finite non-negative binary64 value.
pub open spec fn is_finite_nonneg(r: u64) -> bool {
    r < F64_INFINITY
}

/// `r` encodes exactly `m / 2ᵏ`.
pub open spec fn encodes_exactly(r: u64, m: nat, k: nat) -> bool {
    &&& is_finite_nonneg(r)
    &&& ulps(r) * pow2(k) == m * pow2(1074)
}

/// `r` encodes `x / 2ᵏ` rounded down: the largest binary64 value that is at
/// most `x / 2ᵏ`.
pub open spec fn rounds_down(r: u64, x: nat, k: nat) -> bool {
    &&& is_finite_nonneg(r)
    &&& ulps(r) * pow2(k) <= x * pow2(1074)
    &&& x * pow2(1074) < ulps((r + 1) as u64) * pow2(k)
}

/// `r` is the rounding down of every real in [x / 2ᵏ . . (x + 1) / 2ᵏ): the
/// value of the first `k` bits of an unbounded binary expansion rounds down to
/// `r`, whatever bits follow.
pub open spec fn rounds_down_all(r: u64, x: nat, k: nat) -> bool {
    &&& rounds_down(r, x, k)
    &&& (x + 1) * pow2(1074) <= ulps((r + 1) as u64) * pow2(k)
}

/// `r` encodes `x / 2ᵏ` rounded to nearest: `x / 2ᵏ` lies strictly between
/// the midpoints that separate `r` from its two neighbours (so it is not a
/// tie, and the rounding is unique).
pub open spec fn rounds_nearest(r: u64, x: nat, k: nat) -> bool {
    &&& 0 < r < F64_INFINITY
    &&& (ulps((r - 1) as u64) + ulps(r)) * pow2(k) < 2 * x * pow2(1074)
    &&& 2 * x * pow2(1074) < (ulps(r) + ulps((r + 1) as u64)) * pow2(k)
}

/// `r` encodes `x / 2ᵏ` rounded to nearest, ties to even: `x / 2ᵏ` lies
/// between the midpoints that separate `r` from its neighbours (below `r`
/// only when `r` is above 0), and when it is one of those midpoints, `r` is
/// the even one of the two encodings.
pub open spec fn rounds_nearest_even(r: u64, x: nat, k: nat) -> bool {
    &&& r < F64_INFINITY
    &&& r > 0 ==> (ulps((r - 1) as u64) + ulps(r)) * pow2(k) <= 2 * x * pow2(1074)
    &&& 2 * x * pow2(1074) <= (ulps(r) + ulps((r + 1) as u64)) * pow2(k)
    &&& r > 0 && (ulps((r - 1) as u64) + ulps(r)) * pow2(k) == 2 * x * pow2(1074) ==> r % 2
        == 0
    &&& 2 * x * pow2(1074) == (ulps(r) + ulps((r + 1) as u64)) * pow2(k) ==> r % 2 == 0
}

/// 2²³, the weight of the hidden bit of a binary32 significand.
pub open spec fn hidden32() -> nat {
    0x80_0000
}

/// The value of a non-negative binary32 encoding in units of 2⁻¹⁴⁹.
pub open spec fn ulps32(b: u32) -> nat {
    let e = b as nat / hidden32();
    let f = b as nat % hidden32();
    if e == 0 {
        f
    } else {
        (hidden32() + f) * pow2((e - 1) as nat)
    }
}

/// `r` encodes exactly the binary32 value `m / 2ᵏ`.
pub open spec fn encodes_exactly32(r: u32, m: nat, k: nat) -> bool {
    &&& r < 0x7F80_0000
    &&& ulps32(r) * pow2(k) == m * pow2(149)
}

/// The fields of `e · 2⁵² + f`.
pub proof fn lemma_fields(r: u64, e: nat, f: nat)
    requires
        r == e * hidden64() + f,
        f < hidden64(),
    ensures
        exp_field(r) == e,
        frac_field(r) == f,
{
    lemma_fundamental_div_mod_converse(r as int, hidden64() as int, e as int, f as int);
}

/// The next encoding is one unit in the last place away, and units in the
/// last place do not shrink.
pub proof fn lemma_ulps_next(b: u64)
    requires
        is_finite_nonneg(b),
    ensures
        ulps((b + 1) as u64) == ulps(b) + pow2(scale(b)),
        scale(b) <= scale((b + 1) as u64),
{
    let e = exp_field(b);
    let f = frac_field(b);
    lemma_fields(b, e, f);
    assert(b as nat == e * hidden64() + f) by {
        vstd::arithmetic::div_mod::lemma_fundamental_div_mod(b as int, hidden64() as int);
    }
    let c = (b + 1) as u64;
    if f + 1 < hidden64() {
        lemma_fields(c, e, f + 1);
        lemma2_to64();
        if e > 0 {
            let s = scale(b);
            lemma_mul_is_distributive_add(pow2(s) as int, (hidden64() + f) as int, 1);
            lemma_mul_is_commutative(pow2(s) as int, (hidden64() + f) as int);
            lemma_mul_is_commutative(pow2(s) as int, (hidden64() + f + 1) as int);
        } else {
            vstd::arithmetic::mul::lemma_mul_basics((f + 1) as int);
            vstd::arithmetic::mul::lemma_mul_basics(f as int);
        }
    } else {
        assert(c as nat == (e + 1) * hidden64() + 0);
        lemma_fields(c, e + 1, 0);
        if e > 0 {
            // (2⁵² + 2⁵² - 1 + 1) · 2ˢ = 2⁵² · 2ˢ⁺¹
            let s = scale(b);
            assert(scale(c) == s + 1);
            lemma_pow2_adds(s, 1);
            lemma2_to64();
            assert(pow2(s + 1) == pow2(s) * 2);
            lemma_mul_is_associative(hidden64() as int, pow2(s) as int, 2);
            assert(ulps(c) == hidden64() * pow2(s) * 2);
            lemma_mul_is_distributive_add(pow2(s) as int, (hidden64() + f) as int, 1);
            lemma_mul_is_commutative(pow2(s) as int, (hidden64() + f) as int);
            lemma_mul_is_commutative(pow2(s) as int, (hidden64() + f + 1) as int);
            assert(ulps(b) + pow2(s) == (hidden64() + f + 1) * pow2(s));
            assert(hidden64() + f + 1 == 2 * hidden64());
            lemma_mul_is_associative(2, hidden64() as int, pow2(s) as int);
            lemma_mul_is_commutative(2, (hidden64() * pow2(s)) as int);
        } else {
            lemma2_to64();
            vstd::arithmetic::mul::lemma_mul_basics(hidden64() as int);
            vstd::arithmetic::mul::lemma_mul_basics(f as int);
        }
    }
}

/// Encodings are ordered as their values.
pub proof fn lemma_ulps_monotone(a: u64, b: u64)
    requires
        a <= b,
        b <= F64_INFINITY,
    ensures
        ulps(a) <= ulps(b),
        a < b ==> ulps(a) < ulps(b),
    decreases b - a,
{
    if a < b {
        lemma_ulps_monotone(a, (b - 1) as u64);
        lemma_ulps_next((b - 1) as u64);
        lemma_pow2_pos(scale((b - 1) as u64));
    }
}

/// Rounding down is monotone: a larger number rounds down to a larger or
/// equal encoding.
pub proof fn lemma_rounds_down_monotone(r1: u64, x1: nat, r2: u64, x2: nat, k: nat)
    requires
        rounds_down(r1, x1, k),
        rounds_down(r2, x2, k),
        x1 <= x2,
    ensures
        r1 <= r2,
{
    if r1 > r2 {
        lemma_ulps_monotone((r2 + 1) as u64, r1);
        lemma_pow2_pos(k);
        lemma_pow2_pos(1074);
        lemma_mul_inequality(ulps((r2 + 1) as u64) as int, ulps(r1) as int, pow2(k) as int);
        lemma_mul_inequality(x1 as int, x2 as int, pow2(1074) as int);
    }
}

/// A rounding to nearest is unique.
pub proof fn lemma_rounds_nearest_unique(r1: u64, r2: u64, x: nat, k: nat)
    requires
        rounds_nearest(r1, x, k),
        rounds_nearest(r2, x, k),
    ensures
        r1 == r2,
{
    if r1 != r2 {
        let (a, b) = if r1 < r2 {
            (r1, r2)
        } else {
            (r2, r1)
        };
        lemma_ulps_monotone(a, (b - 1) as u64);
        lemma_ulps_monotone((a + 1) as u64, b);
        lemma_pow2_pos(k);
        lemma_mul_inequality(
            (ulps(a) + ulps((a + 1) as u64)) as int,
            (ulps((b - 1) as u64) + ulps(b)) as int,
            pow2(k) as int,
        );
    }
}

/// A rounding to nearest, ties to even, is unique.
pub proof fn lemma_rounds_nearest_even_unique(r1: u64, r2: u64, x: nat, k: nat)
    requires
        rounds_nearest_even(r1, x, k),
        rounds_nearest_even(r2, x, k),
    ensures
        r1 == r2,
{
    if r1 != r2 {
        let (a, b) = if r1 < r2 {
            (r1, r2)
        } else {
            (r2, r1)
        };
        lemma_ulps_monotone(a, (b - 1) as u64);
        lemma_ulps_monotone((a + 1) as u64, b);
        lemma_pow2_pos(k);
        let lo = (ulps(a) + ulps((a + 1) as u64)) * pow2(k);
        let hi = (ulps((b - 1) as u64) + ulps(b)) * pow2(k);
        lemma_mul_inequality(
            (ulps(a) + ulps((a + 1) as u64)) as int,
            (ulps((b - 1) as u64) + ulps(b)) as int,
            pow2(k) as int,
        );
        if b > a + 1 {
            lemma_ulps_monotone(a, (a + 1) as u64);
            lemma_ulps_monotone((a + 1) as u64, (b - 1) as u64);
            lemma_mul_strict_inequality(
                (ulps(a) + ulps((a + 1) as u64)) as int,
                (ulps((b - 1) as u64) + ulps(b)) as int,
                pow2(k) as int,
            );
        }
        // both sit on the midpoint between a and a + 1, and both are even
        assert(b == a + 1);
        assert(lo == 2 * x * pow2(1074));
    }
}

/// Rounding `(x · 2ˡ) / 2ᵏ⁺ˡ` is rounding `x / 2ᵏ`.
pub proof fn lemma_rounds_nearest_even_rescale(r: u64, x: nat, k: nat, l: nat)
    requires
        rounds_nearest_even(r, x * pow2(l), k + l),
    ensures
        rounds_nearest_even(r, x, k),
{
    let c = pow2(l);
    let p = pow2(1074);
    lemma_pow2_pos(l);
    lemma_pow2_adds(k, l);
    let a0 = ulps((r - 1) as u64) + ulps(r);
    let a1 = ulps(r) + ulps((r + 1) as u64);
    let q = pow2(k);
    assert(a0 * (q * c) == (a0 * q) * c) by (nonlinear_arith);
    assert(a1 * (q * c) == (a1 * q) * c) by (nonlinear_arith);
    assert(2 * (x * c) * p == (2 * x * p) * c) by (nonlinear_arith);
    if r > 0 {
        assert(a0 * q <= 2 * x * p) by (nonlinear_arith)
            requires
                (a0 * q) * c <= (2 * x * p) * c,
                c > 0,
        ;
        if a0 * q == 2 * x * p {
            assert((a0 * q) * c == (2 * x * p) * c);
        }
    }
    assert(2 * x * p <= a1 * q) by (nonlinear_arith)
        requires
            (2 * x * p) * c <= (a1 * q) * c,
            c > 0,
    ;
    if a1 * q == 2 * x * p {
        assert((a1 * q) * c == (2 * x * p) * c);
    }
}

/// A value of at most 1 rounds to at most 1.
pub proof fn lemma_rounds_nearest_at_most_one(r: u64, x: nat, k: nat)
    requires
        rounds_nearest(r, x, k),
        x <= pow2(k),
    ensures
        r <= F64_ONE,
{
    if r > F64_ONE {
        lemma_ulps_monotone(F64_ONE, (r - 1) as u64);
        lemma_ulps_monotone((F64_ONE + 1) as u64, r);
        lemma_ulps_monotone(F64_ONE, (F64_ONE + 1) as u64);
        lemma_fields(F64_ONE, 1023, 0);
        lemma_pow2_adds(52, 1022);
        lemma2_to64();
        vstd::arithmetic::power2::lemma2_to64_rest();
        assert(ulps(F64_ONE) == pow2(1074));
        lemma_pow2_pos(k);
        lemma_pow2_pos(1074);
        let lo = ulps((r - 1) as u64) + ulps(r);
        assert(lo > 2 * pow2(1074));
        lemma_mul_strict_inequality((2 * pow2(1074)) as int, lo as int, pow2(k) as int);
        lemma_mul_inequality(x as int, pow2(k) as int, pow2(1074) as int);
        lemma_mul_is_commutative(pow2(k) as int, pow2(1074) as int);
        lemma_mul_is_associative(2, pow2(1074) as int, pow2(k) as int);
        lemma_mul_is_associative(2, x as int, pow2(1074) as int);
    }
}

/// Every value below 1 encodes below the encoding of 1.
pub proof fn lemma_rounds_down_below_one(r: u64, x: nat, k: nat)
    requires
        rounds_down(r, x, k),
        x < pow2(k),
    ensures
        r < F64_ONE,
{
    if r >= F64_ONE {
        lemma_ulps_monotone(F64_ONE, r);
        lemma_fields(F64_ONE, 1023, 0);
        lemma_pow2_adds(52, 1022);
        lemma2_to64();
        vstd::arithmetic::power2::lemma2_to64_rest();
        assert(ulps(F64_ONE) == pow2(1074));
        lemma_pow2_pos(k);
        lemma_pow2_pos(1074);
        lemma_mul_inequality(pow2(1074) as int, ulps(r) as int, pow2(k) as int);
        lemma_mul_strict_inequality(x as int, pow2(k) as int, pow2(1074) as int);
        lemma_mul_is_commutative(pow2(k) as int, pow2(1074) as int);
    }
}

/// A rounding down is unique.
pub proof fn lemma_rounds_down_unique(r1: u64, r2: u64, x: nat, k: nat)
    requires
        rounds_down(r1, x, k),
        rounds_down(r2, x, k),
    ensures
        r1 == r2,
{
    if r1 < r2 {
        lemma_ulps_monotone((r1 + 1) as u64, r2);
        lemma_pow2_pos(k);
        lemma_mul_inequality(ulps((r1 + 1) as u64) as int, ulps(r2) as int, pow2(k) as int);
    } else if r2 < r1 {
        lemma_ulps_monotone((r2 + 1) as u64, r1);
        lemma_pow2_pos(k);
        lemma_mul_inequality(ulps((r2 + 1) as u64) as int, ulps(r1) as int, pow2(k) as int);
    }
}

/// `a · 2ᵖ · 2^q == a · 2^(p+q)`.
pub proof fn lemma_mul_pow2_pow2(a: nat, p: nat, q: nat)
    ensures
        a * pow2(p) * pow2(q) == a * pow2(p + q),
{
    lemma_pow2_adds(p, q);
    lemma_mul_is_associative(a as int, pow2(p) as int, pow2(q) as int);
}

/// Scaling both sides of `a · 2ᵖ ≤ b · 2^q` by 2ᶜ.
pub proof fn lemma_scale_le(a: nat, p: nat, b: nat, q: nat, c: nat)
    requires
        a * pow2(p) <= b * pow2(q),
    ensures
        a * pow2(p + c) <= b * pow2(q + c),
{
    lemma_pow2_pos(c);
    lemma_mul_inequality((a * pow2(p)) as int, (b * pow2(q)) as int, pow2(c) as int);
    lemma_mul_pow2_pow2(a, p, c);
    lemma_mul_pow2_pow2(b, q, c);
}

/// Scaling both sides of `a · 2ᵖ < b · 2^q` by 2ᶜ.
pub proof fn lemma_scale_lt(a: nat, p: nat, b: nat, q: nat, c: nat)
    requires
        a * pow2(p) < b * pow2(q),
    ensures
        a * pow2(p + c) < b * pow2(q + c),
{
    lemma_pow2_pos(c);
    lemma_mul_strict_inequality((a * pow2(p)) as int, (b * pow2(q)) as int, pow2(c) as int);
    lemma_mul_pow2_pow2(a, p, c);
    lemma_mul_pow2_pow2(b, q, c);
}

/// Rounding down from a window: if the significand of `r` is the integer
/// part of `x · 2ᵇ / 2ᵃ`, and the exponents match, then `r` is `x / 2ᵏ`
/// rounded down.
pub proof fn lemma_rounds_down_window(r: u64, x: nat, k: nat, a: nat, b: nat)
    requires
        is_finite_nonneg(r),
        b <= 1074,
        scale(r) + k + b == 1074 + a,
        significand(r) * pow2(a) <= x * pow2(b),
        x * pow2(b) < (significand(r) + 1) * pow2(a),
    ensures
        rounds_down(r, x, k),
{
    let c = (1074 - b) as nat;
    let s = scale(r);
    lemma_scale_le(significand(r), a, x, b, c);
    lemma_scale_lt(x, b, significand(r) + 1, a, c);
    lemma_mul_pow2_pow2(significand(r), s, k);
    lemma_ulps_next(r);
    lemma_mul_is_distributive_add(pow2(s) as int, significand(r) as int, 1);
    lemma_mul_is_commutative(pow2(s) as int, (significand(r) + 1) as int);
    lemma_mul_pow2_pow2(significand(r) + 1, s, k);
}

/// As [`lemma_rounds_down_window`], for every real of the interval
/// [x / 2ᵏ . . (x + 1) / 2ᵏ).
pub proof fn lemma_rounds_down_all_window(r: u64, x: nat, k: nat, a: nat, b: nat)
    requires
        is_finite_nonneg(r),
        b <= 1074,
        scale(r) + k + b == 1074 + a,
        significand(r) * pow2(a) <= x * pow2(b),
        (x + 1) * pow2(b) <= (significand(r) + 1) * pow2(a),
    ensures
        rounds_down_all(r, x, k),
{
    lemma_pow2_pos(b);
    lemma_mul_is_distributive_add(pow2(b) as int, x as int, 1);
    lemma_mul_is_commutative(pow2(b) as int, x as int);
    lemma_mul_is_commutative(pow2(b) as int, (x + 1) as int);
    lemma_rounds_down_window(r, x, k, a, b);
    let c = (1074 - b) as nat;
    let s = scale(r);
    lemma_scale_le(x + 1, b, significand(r) + 1, a, c);
    lemma_ulps_next(r);
    lemma_mul_is_distributive_add(pow2(s) as int, significand(r) as int, 1);
    lemma_mul_is_commutative(pow2(s) as int, (significand(r) + 1) as int);
    lemma_mul_pow2_pow2(significand(r) + 1, s, k);
}

} // verus!
