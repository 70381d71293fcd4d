//! Taylor R. Campbell's correctly rounded uniform doubles.
//!
//! These functions return a binary64 encoding distributed as a uniform real
//! in [0 . . 1] correctly rounded to nearest. The fast functions
//! ([`fast`] and the const-time variants) stop after two exponent words, so
//! they reach every float in [2⁻¹²⁸ . . 1], each with probability equal to
//! the measure of the reals that round to it, except that the reals below
//! 2⁻¹²⁸ (probability 2⁻¹²⁸) are folded into the bottom binade; 0 never
//! occurs. [`random_real`] keeps consuming words, and reaches every float in
//! [2⁻¹⁰²⁴ . . 1], plus 0.
//!
//! Each result is the exact product of an integer and a power of two,
//! rounded once to the nearest binary64 value; the rounding is carried out
//! here on the encodings. In the fast functions the rounding of a normal
//! result takes no branch on the words read.
use crate::bits::{lemma_floor_div, lemma_pack_normal, lemma_subnormal};
use crate::encoding::{
    hidden64, lemma_mul_pow2_pow2, lemma_ulps_monotone, lemma_ulps_next, rounds_nearest,
    rounds_nearest_even, scale, significand, ulps, F64_INFINITY, F64_ONE,
};
use crate::sources::{advanced, first_nonzero, prefix, words, WordSource};
use vstd::arithmetic::power2::{lemma2_to64, lemma2_to64_rest, lemma_pow2_adds, lemma_pow2_pos, pow2};
use vstd::prelude::*;
use vstd::std_specs::bits::u64_leading_zeros;

verus! {

/// The exponent of the largest power of two that divides `m` (0 for 0).
pub open spec fn two_adic(m: nat) -> nat
    decreases m,
{
    if m == 0 || m % 2 == 1 {
        0
    } else {
        1 + two_adic(m / 2)
    }
}

/// `m & -m` isolates the lowest set bit of `m`: the largest power of two
/// that divides it.
proof fn lemma_lowest_bit(m: u64)
    requires
        m != 0,
    ensures
        (m & 0u64.wrapping_sub(m)) as nat == pow2(two_adic(m as nat)),
        two_adic(m as nat) < 64,
    decreases m,
{
    lemma2_to64();
    if m % 2 == 1 {
        assert(m & 0u64.wrapping_sub(m) == 1) by (bit_vector)
            requires
                m % 2 == 1,
        ;
    } else {
        let h = m / 2;
        assert(h != 0);
        lemma_lowest_bit(h);
        assert(m & 0u64.wrapping_sub(m) == (h & 0u64.wrapping_sub(h)) * 2) by (bit_vector)
            requires
                m % 2 == 0,
                h == m / 2,
        ;
        lemma_pow2_adds(two_adic(h as nat), 1);
        assert(two_adic(m as nat) == 1 + two_adic(h as nat));
        if two_adic(h as nat) == 63 {
            lemma2_to64_rest();
            assert(pow2(63) * 2 == pow2(64));
            assert((h & 0u64.wrapping_sub(h)) * 2 < 0x1_0000_0000_0000_0000);
        }
    }
}

/// Rounding to nearest from a truncation: if `t` is `s / 2ᵏ` rounded down,
/// with `2ᵈ` units of `s` per unit in the last place of `t`, then adding the
/// rounding bit gives the nearest encoding, as long as `s` is not exactly
/// halfway.
proof fn lemma_nearest_from_truncation(t: u64, s: nat, k: nat, d: nat, rb: nat)
    requires
        0 < t,
        t + 2 <= F64_INFINITY,
        scale(t) + k == 1074 + d,
        significand(t) * pow2(d) <= s,
        s < (significand(t) + 1) * pow2(d),
        rb <= 1,
        rb == 1 ==> 2 * (s - significand(t) * pow2(d)) > pow2(d),
        rb == 0 ==> 2 * (s - significand(t) * pow2(d)) < pow2(d),
    ensures
        rounds_nearest((t + rb) as u64, s, k),
{
    let g = significand(t) * pow2(d);
    let u = pow2(d);
    let p = pow2(1074);
    let q = pow2(k);
    // ulps(t) · 2ᵏ == g · 2¹⁰⁷⁴, ulps(t + 1) · 2ᵏ == (g + 2ᵈ) · 2¹⁰⁷⁴
    lemma_mul_pow2_pow2(significand(t), scale(t), k);
    lemma_mul_pow2_pow2(significand(t), d, 1074);
    lemma_pow2_adds(d, 1074);
    lemma_pow2_adds(scale(t), k);
    lemma_ulps_next(t);
    lemma_ulps_next((t + 1) as u64);
    lemma_ulps_monotone((t - 1) as u64, t);
    assert(ulps((t - 1) as u64) < ulps(t));
    let a0 = ulps((t - 1) as u64);
    let a1 = ulps(t);
    let a2 = ulps((t + 1) as u64);
    let a3 = ulps((t + 2) as u64);
    assert(a1 * q == g * p);
    assert(pow2(scale(t)) * q == u * p);
    assert(a2 == a1 + pow2(scale(t)));
    assert(a2 * q == (g + u) * p) by (nonlinear_arith)
        requires
            a2 == a1 + pow2(scale(t)),
            a1 * q == g * p,
            pow2(scale(t)) * q == u * p,
    ;
    assert(a3 >= a2);
    assert(s < g + u) by (nonlinear_arith)
        requires
            s < (significand(t) + 1) * pow2(d),
            g == significand(t) * pow2(d),
            u == pow2(d),
    ;
    lemma_pow2_pos(1074);
    lemma_pow2_pos(k);
    if rb == 0 {
        assert((a0 + a1) * q < 2 * s * p) by (nonlinear_arith)
            requires
                a0 < a1,
                a1 * q == g * p,
                g <= s,
                q > 0,
                p > 0,
        ;
        assert(2 * s * p < (a1 + a2) * q) by (nonlinear_arith)
            requires
                a1 * q == g * p,
                a2 * q == (g + u) * p,
                2 * (s - g) < u,
                g <= s,
                p > 0,
        ;
    } else {
        assert((a1 + a2) * q < 2 * s * p) by (nonlinear_arith)
            requires
                a1 * q == g * p,
                a2 * q == (g + u) * p,
                2 * (s - g) > u,
                g <= s,
                p > 0,
        ;
        assert(2 * s * p < (a2 + a3) * q) by (nonlinear_arith)
            requires
                a2 * q == (g + u) * p,
                a3 >= a2,
                s < g + u,
                p > 0,
                q > 0,
        ;
    }
}

/// The binary64 encoding of `s / 2ᵏ` rounded to nearest, for a word `s`
/// with its top bit set and its bottom bit set (so that it is never halfway
/// between two binary64 values), and a normal result (`64 ≤ k ≤ 1085`):
/// truncate to 53 bits, then add the rounding bit; a carry out of the
/// significand moves into the exponent, as it should. No branch depends on
/// `s` or `k`.
fn round_normal_odd(s: u64, k: u64) -> (r: u64)
    requires
        s >= 0x8000_0000_0000_0000,
        s % 2 == 1,
        64 <= k <= 1085,
    ensures
        rounds_nearest(r, s as nat, k as nat),
{
    proof {
        lemma2_to64();
        lemma2_to64_rest();
    }
    // Normal: truncate to 53 bits, then add the rounding bit; a carry
    // out of the significand moves into the exponent, as it should.
    let t = ((1086 - k) << 52) | ((s << 1) >> 12);
    let rb = (s >> 10) & 1;
    proof {
        lemma_pack_normal((1086 - k) as u64, s);
        lemma_floor_div(s as nat, 0x800);
        assert(pow2(11) == 0x800);
        let g = significand(t) * 0x800;
        assert(s as nat - g == s % 0x800) by {
            vstd::arithmetic::div_mod::lemma_fundamental_div_mod(s as int, 0x800);
        }
        assert(rb == 1 ==> 2 * (s % 0x800) > 0x800) by (bit_vector)
            requires
                rb == (s >> 10u64) & 1,
                s % 2 == 1,
        ;
        assert(rb == 0 ==> 2 * (s % 0x800) < 0x800) by (bit_vector)
            requires
                rb == (s >> 10u64) & 1,
                s % 2 == 1,
        ;
        assert(rb <= 1) by (bit_vector)
            requires
                rb == (s >> 10u64) & 1,
        ;
        lemma_nearest_from_truncation(t, s as nat, k as nat, 11, rb as nat);
    }
    t + rb
}

/// Rounding to nearest, ties to even, from a truncation: if `t` is `s / 2ᵏ`
/// rounded down, with `2ᵈ` units of `s` per unit in the last place of `t`,
/// then adding 1 when the remainder is above half a unit, or exactly half
/// with `t` odd, gives the nearest encoding.
proof fn lemma_nearest_even_from_truncation(t: u64, s: nat, k: nat, d: nat, rb: nat)
    requires
        t + 2 <= F64_INFINITY,
        scale(t) + k == 1074 + d,
        significand(t) * pow2(d) <= s,
        s < (significand(t) + 1) * pow2(d),
        rb <= 1,
        rb == 1 ==> 2 * (s - significand(t) * pow2(d)) >= pow2(d),
        rb == 0 ==> 2 * (s - significand(t) * pow2(d)) <= pow2(d),
        2 * (s - significand(t) * pow2(d)) == pow2(d) ==> (t + rb) % 2 == 0,
    ensures
        rounds_nearest_even((t + rb) as u64, s, k),
{
    let g = significand(t) * pow2(d);
    let u = pow2(d);
    let p = pow2(1074);
    let q = pow2(k);
    lemma_mul_pow2_pow2(significand(t), scale(t), k);
    lemma_mul_pow2_pow2(significand(t), d, 1074);
    lemma_pow2_adds(d, 1074);
    lemma_pow2_adds(scale(t), k);
    lemma_ulps_next(t);
    lemma_ulps_next((t + 1) as u64);
    let a1 = ulps(t);
    let a2 = ulps((t + 1) as u64);
    let a3 = ulps((t + 2) as u64);
    assert(a1 * q == g * p);
    assert(pow2(scale(t)) * q == u * p);
    assert(a2 * q == (g + u) * p) by (nonlinear_arith)
        requires
            a2 == a1 + pow2(scale(t)),
            a1 * q == g * p,
            pow2(scale(t)) * q == u * p,
    ;
    assert(s < g + u) by (nonlinear_arith)
        requires
            s < (significand(t) + 1) * pow2(d),
            g == significand(t) * pow2(d),
            u == pow2(d),
    ;
    lemma_pow2_pos(1074);
    lemma_pow2_pos(k);
    if rb == 0 {
        if t > 0 {
            lemma_ulps_monotone((t - 1) as u64, t);
            let a0 = ulps((t - 1) as u64);
            assert((a0 + a1) * q < 2 * s * p) by (nonlinear_arith)
                requires
                    a0 < a1,
                    a1 * q == g * p,
                    g <= s,
                    q > 0,
                    p > 0,
            ;
        }
        assert(2 * s * p <= (a1 + a2) * q) by (nonlinear_arith)
            requires
                a1 * q == g * p,
                a2 * q == (g + u) * p,
                2 * (s - g) <= u,
                g <= s,
                p > 0,
        ;
        if 2 * s * p == (a1 + a2) * q {
            assert(2 * (s - g) == u) by (nonlinear_arith)
                requires
                    a1 * q == g * p,
                    a2 * q == (g + u) * p,
                    2 * s * p == (a1 + a2) * q,
                    g <= s,
                    p > 0,
            ;
        }
    } else {
        assert((a1 + a2) * q <= 2 * s * p) by (nonlinear_arith)
            requires
                a1 * q == g * p,
                a2 * q == (g + u) * p,
                2 * (s - g) >= u,
                g <= s,
                p > 0,
        ;
        if (a1 + a2) * q == 2 * s * p {
            assert(2 * (s - g) == u) by (nonlinear_arith)
                requires
                    a1 * q == g * p,
                    a2 * q == (g + u) * p,
                    (a1 + a2) * q == 2 * s * p,
                    g <= s,
                    p > 0,
            ;
        }
        lemma_ulps_monotone((t + 1) as u64, (t + 2) as u64);
        assert(2 * s * p < (a2 + a3) * q) by (nonlinear_arith)
            requires
                a2 * q == (g + u) * p,
                a3 >= a2,
                s < g + u,
                p > 0,
                q > 0,
        ;
    }
}

/// The binary64 encoding of `v / 2ᵏ` rounded to nearest, ties to even, for a
/// word `v` with its top bit set and `64 ≤ k ≤ 1150`; for an odd `v` and
/// `k ≤ 1087`, no tie can occur.
fn round_normalized(v: u64, k: u64) -> (r: u64)
    requires
        v >= 0x8000_0000_0000_0000,
        64 <= k <= 1150,
    ensures
        rounds_nearest_even(r, v as nat, k as nat),
        v % 2 == 1 && k <= 1087 ==> rounds_nearest(r, v as nat, k as nat),
{
    proof {
        lemma2_to64();
        lemma2_to64_rest();
    }
    if k <= 1085 {
        // Normal: 53 bits, and 11 bits of remainder.
        let t = ((1086 - k) << 52) | ((v << 1) >> 12);
        let rem = v & 0x7FF;
        let rb: u64 = if rem > 0x400 || (rem == 0x400 && t % 2 == 1) {
            1
        } else {
            0
        };
        proof {
            lemma_pack_normal((1086 - k) as u64, v);
            lemma_floor_div(v as nat, 0x800);
            assert(pow2(11) == 0x800);
            let g = significand(t) * 0x800;
            assert(rem == v % 0x800) by (bit_vector)
                requires
                    rem == v & 0x7FF,
            ;
            assert(v as nat - g == v % 0x800) by {
                vstd::arithmetic::div_mod::lemma_fundamental_div_mod(v as int, 0x800);
            }
            lemma_nearest_even_from_truncation(t, v as nat, k as nat, 11, rb as nat);
            if v % 2 == 1 {
                assert(rem % 2 == 1) by (bit_vector)
                    requires
                        rem == v & 0x7FF,
                        v % 2 == 1,
                ;
                lemma_nearest_from_truncation(t, v as nat, k as nat, 11, rb as nat);
            }
        }
        t + rb
    } else if k <= 1137 {
        // Subnormal: the unit in the last place is 2⁻¹⁰⁷⁴, `sh` bits of
        // remainder.
        let sh = k - 1074;
        let t = v >> sh;
        let unit = 1u64 << sh;
        proof {
            vstd::bits::lemma_u64_shl_is_mul(1, sh);
            vstd::arithmetic::mul::lemma_mul_basics(pow2(sh as nat) as int);
            lemma_pow2_pos(sh as nat);
        }
        let mask = unit - 1;
        let rem = v & mask;
        let half = 1u64 << (sh - 1);
        let rb: u64 = if rem > half || (rem == half && t % 2 == 1) {
            1
        } else {
            0
        };
        proof {
            vstd::bits::lemma_u64_shr_is_div(v, sh);
            vstd::bits::lemma_u64_shl_is_mul(1, sh);
            vstd::bits::lemma_u64_shl_is_mul(1, (sh - 1) as u64);
            vstd::arithmetic::mul::lemma_mul_basics(pow2(sh as nat) as int);
            vstd::arithmetic::mul::lemma_mul_basics(pow2((sh - 1) as nat) as int);
            lemma_pow2_adds((sh - 1) as nat, 1);
            lemma_pow2_pos(sh as nat);
            assert(t < 0x10_0000_0000_0000) by (bit_vector)
                requires
                    t == v >> sh,
                    12 <= sh <= 63,
            ;
            vstd::bits::lemma_u64_low_bits_mask_is_mod(v, sh as nat);
            assert(rem == v % unit);
            lemma_subnormal(t);
            lemma_floor_div(v as nat, pow2(sh as nat));
            vstd::arithmetic::mul::lemma_mul_basics(t as int);
            let g = t * pow2(sh as nat);
            assert(v as nat - g == (v as nat) % pow2(sh as nat)) by {
                vstd::arithmetic::div_mod::lemma_fundamental_div_mod(v as int, pow2(sh as nat) as int);
            }
            lemma_nearest_even_from_truncation(t, v as nat, k as nat, sh as nat, rb as nat);
            if v % 2 == 1 && k <= 1087 {
                assert(rem % 2 == 1) by (bit_vector)
                    requires
                        rem == v & mask,
                        mask + 1 == unit,
                        unit == 1u64 << sh,
                        12 <= sh <= 13,
                        v % 2 == 1,
                ;
                assert(t > 0) by (bit_vector)
                    requires
                        t == v >> sh,
                        12 <= sh <= 13,
                        v >= 0x8000_0000_0000_0000,
                ;
                lemma_nearest_from_truncation(t, v as nat, k as nat, sh as nat, rb as nat);
            }
        }
        t + rb
    } else {
        // Below the smallest subnormal: the whole of v is remainder, against
        // a unit of 2^(k - 1074) ≥ 2⁶⁴; it rounds to 1 only above half of it.
        let r: u64 = if k == 1138 && v > 0x8000_0000_0000_0000 {
            1
        } else {
            0
        };
        proof {
            let d = (k - 1074) as nat;
            lemma_subnormal(0);
            lemma_pow2_pos(d);
            vstd::arithmetic::mul::lemma_mul_basics(pow2(d) as int);
            if d > 64 {
                vstd::arithmetic::power2::lemma_pow2_strictly_increases(64, d);
                lemma_pow2_adds(64, 1);
                vstd::arithmetic::power2::lemma_pow2_strictly_increases(65, d + 1);
                lemma_pow2_adds(d, 1);
                if d > 65 {
                    vstd::arithmetic::power2::lemma_pow2_strictly_increases(65, d);
                }
            }
            lemma_nearest_even_from_truncation(0, v as nat, k as nat, d, r as nat);
        }
        r
    }
}

/// The binary64 encoding of `s / 2ᵏ` rounded once, to nearest, ties to
/// even, for any word `s` and `64 ≤ k ≤ 1087`, subnormal and zero results
/// included: `s` is first shifted to its leading one, which moves the
/// exponent by as many places. For an odd `s` with its top bit set, no tie
/// can occur.
fn round_to_nearest(s: u64, k: u64) -> (r: u64)
    requires
        64 <= k <= 1087,
    ensures
        rounds_nearest_even(r, s as nat, k as nat),
        s >= 0x8000_0000_0000_0000 && s % 2 == 1 ==> rounds_nearest(r, s as nat, k as nat),
{
    if s == 0 {
        proof {
            lemma_subnormal(0);
            lemma2_to64();
            vstd::arithmetic::mul::lemma_mul_basics(pow2(k as nat) as int);
            lemma_ulps_next(0);
            lemma_pow2_pos(k as nat);
        }
        return 0;
    }
    let l = s.leading_zeros() as u64;
    proof {
        crate::bits::lemma_leading_zeros(s);
        crate::pekkizen::lemma_normalize(s);
    }
    let v = s << l;
    let r = round_normalized(v, k + l);
    proof {
        crate::encoding::lemma_rounds_nearest_even_rescale(r, s as nat, k as nat, l as nat);
        if s >= 0x8000_0000_0000_0000 {
            assert(l == 0) by {
                lemma2_to64_rest();
                if l > 1 {
                    vstd::arithmetic::power2::lemma_pow2_strictly_increases((64 - l) as nat, 63);
                }
            }
            lemma2_to64();
            vstd::arithmetic::mul::lemma_mul_basics(s as int);
        }
    }
    r
}

/// The encoding of 2⁻⁶⁴.
pub const TWO_M64: u64 = (1023 - 64) << 52;

/// The encoding of 2⁻¹²⁸.
pub const TWO_M128: u64 = (1023 - 128) << 52;

/// `f` is the encoding of a power of two 2⁻ᵉ with 64 ≤ e ≤ 1022.
pub open spec fn is_scale(f: u64) -> bool {
    &&& (f as nat) % hidden64() == 0
    &&& 1 <= (f as nat) / hidden64() <= 959
}

/// The `e` of a scale 2⁻ᵉ.
pub open spec fn scale_exponent(f: u64) -> nat {
    (1023 - (f as nat) / hidden64()) as nat
}

/// What [`fastdet`] returns on the scale 2⁻ᵉ, the geometric word `m` and the
/// significand word `u`: the odd 64-bit integer `u | 2⁶³ | 1`, times 2⁻ᵉ,
/// divided by the largest power of two dividing `m | 2⁶³`, rounded to
/// nearest.
pub open spec fn fastdet_result(r: u64, e: nat, m: u64, u: u64) -> bool {
    rounds_nearest(r, (u | 0x8000_0000_0000_0001) as nat, e + two_adic((m | 0x8000_0000_0000_0000) as nat))
}

/// The deterministic core of this module: turns an exponent scale `f` (the
/// encoding of 2⁻⁶⁴ or 2⁻¹²⁸), a geometric word `m` and a significand word
/// `u` into a correctly rounded (to nearest) uniform binary64.
///
/// The largest power of two dividing `m`, with bit 63 forced as a backstop
/// against a broken all-zero source, is the divisor; the significand is
/// `u | 2⁶³ | 1`, the round-to-odd of a uniform real in [2⁶³ . . 2⁶⁴], so
/// that no tie can occur.
pub fn fastdet(f: u64, m: u64, u: u64) -> (r: u64)
    requires
        is_scale(f),
    ensures
        fastdet_result(r, scale_exponent(f), m, u),
        rounds_nearest(
            r,
            (u | 0x8000_0000_0000_0001) as nat,
            scale_exponent(f) + two_adic((m | 0x8000_0000_0000_0000) as nat),
        ),
        r <= F64_ONE,
{
    // The lowest set bit of m, with bit 63 forced: a power of two 2ᵗ.
    let m1 = m | (1 << 63);
    let d = m1 & 0u64.wrapping_sub(m1);
    // A uniform odd integer in (2⁶³ . . 2⁶⁴).
    let s = u | (1 << 63) | 1;
    proof {
        lemma2_to64();
        lemma2_to64_rest();
        assert(m1 == m | 0x8000_0000_0000_0000 && m1 != 0) by (bit_vector)
            requires
                m1 == m | (1u64 << 63u64),
        ;
        assert(s == (u | 0x8000_0000_0000_0001) && s % 2 == 1 && s >= 0x8000_0000_0000_0000)
            by (bit_vector)
            requires
                s == (u | (1u64 << 63u64)) | 1u64,
        ;
        lemma_lowest_bit(m1);
        lemma_pow2_adds(two_adic(m1 as nat), 1);
        crate::bits::lemma_leading_zeros_exact(d, (63 - two_adic(m1 as nat)) as nat);
    }
    let t = 63 - d.leading_zeros() as u64;
    proof {
        vstd::bits::lemma_u64_shr_is_div(f, 52);
    }
    let e = 1023 - (f >> 52);
    // The significand, scaled into [1/2 . . 1] and by the geometric exponent.
    let r = round_normal_odd(s, e + t);
    proof {
        lemma_pow2_adds(64, (e + t - 64) as nat);
        lemma_pow2_pos((e + t - 64) as nat);
        vstd::arithmetic::mul::lemma_mul_inequality(1, pow2((e + t - 64) as nat) as int, pow2(64) as int);
        crate::encoding::lemma_rounds_nearest_at_most_one(r, s as nat, (e + t) as nat);
    }
    r
}

/// The scale of [`fast`] and of the const-time variants: 2⁻⁶⁴ when the
/// geometric word is nonzero, 2⁻¹²⁸ otherwise.
pub open spec fn geometric_scale(m: u64) -> nat {
    if m != 0 {
        64
    } else {
        128
    }
}

proof fn lemma_scales()
    ensures
        is_scale(TWO_M64),
        scale_exponent(TWO_M64) == 64,
        is_scale(TWO_M128),
        scale_exponent(TWO_M128) == 128,
{
    assert(TWO_M64 == 0x3BF0_0000_0000_0000) by (bit_vector);
    assert(TWO_M128 == 0x37F0_0000_0000_0000) by (bit_vector);
}

/// What [`fast`] returns on the words `u`, `m`, `m2`: [`fastdet`] at the
/// scale 2⁻⁶⁴ on `m`, or, when `m` is zero, at the scale 2⁻¹²⁸ on `m2`.
pub open spec fn fast_result(r: u64, u: u64, m: u64, m2: u64) -> bool {
    fastdet_result(r, geometric_scale(m), if m != 0 { m } else { m2 }, u)
}

/// A correctly rounded (to nearest) uniform real in [0 . . 1], branching on
/// the 2⁻⁶⁴-probability zero-`m` event: reads the significand word `u` and
/// the geometric word `m`, and, when `m` is zero, a third word that takes its
/// place at the scale 2⁻¹²⁸.
pub fn fast<S: WordSource>(bits: &mut S) -> (r: u64)
    ensures
        advanced(*old(bits), *final(bits), if old(bits).peek(1) != 0 { 2nat } else { 3nat }),
        fast_result(r, old(bits).peek(0), old(bits).peek(1), old(bits).peek(2)),
        old(bits).peek(1) != 0 ==> rounds_nearest(
            r,
            (old(bits).peek(0) | 0x8000_0000_0000_0001) as nat,
            64 + two_adic((old(bits).peek(1) | 0x8000_0000_0000_0000) as nat),
        ),
        old(bits).peek(1) == 0 ==> rounds_nearest(
            r,
            (old(bits).peek(0) | 0x8000_0000_0000_0001) as nat,
            128 + two_adic((old(bits).peek(2) | 0x8000_0000_0000_0000) as nat),
        ),
        0 < r <= F64_ONE,
{
    let u = bits.next_u64();
    let mut f = TWO_M64;
    let mut m = bits.next_u64();
    if m == 0 {
        // unlikely: f · 2⁻⁶⁴
        f = TWO_M128;
        m = bits.next_u64();
    }
    proof {
        lemma_scales();
    }
    fastdet(f, m, u)
}

/// The shared tail of the const-time variants: given the flag `t` ∈ {0, 1}
/// (`t` = 1 iff `m` ≠ 0), rescale by 2⁻⁶⁴ and substitute `m2` for a zero `m`,
/// both without branching: the exponent field of the scale drops by 64 when
/// `t` is 0, and `m2` is masked in by `t - 1` (all ones when `t` is 0).
pub fn consttime_tail(t: u64, u: u64, m: u64, m2: u64) -> (r: u64)
    requires
        t <= 1,
    ensures
        fastdet_result(
            r,
            if t == 1 { 64nat } else { 128nat },
            if t == 1 { m } else { m | m2 },
            u,
        ),
        t == 1 ==> rounds_nearest(
            r,
            (u | 0x8000_0000_0000_0001) as nat,
            64 + two_adic((m | 0x8000_0000_0000_0000) as nat),
        ),
        t == 0 ==> rounds_nearest(
            r,
            (u | 0x8000_0000_0000_0001) as nat,
            128 + two_adic((m | m2 | 0x8000_0000_0000_0000) as nat),
        ),
        0 < r <= F64_ONE,
{
    let nt = 1 - t;
    let drop = nt << 58;
    proof {
        assert(drop <= TWO_M64) by (bit_vector)
            requires
                nt <= 1,
                drop == nt << 58u64,
        ;
    }
    let f = TWO_M64 - drop;
    let mask = t.wrapping_sub(1);
    let mm = m | (m2 & mask);
    proof {
        lemma_scales();
        assert(t == 1 ==> f == TWO_M64) by (bit_vector)
            requires
                t <= 1,
                nt + t == 1,
                drop == nt << 58u64,
                f == TWO_M64 - drop,
        ;
        assert(t == 0 ==> f == TWO_M128) by (bit_vector)
            requires
                nt + t == 1,
                drop == nt << 58u64,
                f == TWO_M64 - drop,
        ;
        assert(t == 1 ==> mm == m) by (bit_vector)
            requires
                mask == t.wrapping_sub(1),
                mm == m | (m2 & mask),
        ;
        assert(t == 0 ==> mm == m | m2) by (bit_vector)
            requires
                mask == t.wrapping_sub(1),
                mm == m | (m2 & mask),
        ;
    }
    fastdet(f, mm, u)
}

/// What the const-time variants return on the words `w`: those of [`fast`],
/// except that the third word is always read.
pub open spec fn consttime_result(r: u64, w: spec_fn(nat) -> u64) -> bool {
    fast_result(r, w(0), w(1), w(2))
}

/// Like [`fast`], but the zero-`m` event is branchless, with the flag
/// computed as `m != 0` (which compilers turn into a conditional-move style
/// instruction rather than a branch). Always consumes three words.
pub fn consttime_cmove<S: WordSource>(bits: &mut S) -> (r: u64)
    ensures
        advanced(*old(bits), *final(bits), 3),
        consttime_result(r, words(*old(bits))),
        old(bits).peek(1) != 0 ==> rounds_nearest(
            r,
            (old(bits).peek(0) | 0x8000_0000_0000_0001) as nat,
            64 + two_adic((old(bits).peek(1) | 0x8000_0000_0000_0000) as nat),
        ),
        old(bits).peek(1) == 0 ==> rounds_nearest(
            r,
            (old(bits).peek(0) | 0x8000_0000_0000_0001) as nat,
            128 + two_adic((old(bits).peek(2) | 0x8000_0000_0000_0000) as nat),
        ),
        0 < r <= F64_ONE,
{
    let u = bits.next_u64();
    let m = bits.next_u64();
    let m2 = bits.next_u64();
    let t = (m != 0) as u64;
    proof {
        assert(m == 0 ==> m | m2 == m2) by (bit_vector);
    }
    consttime_tail(t, u, m, m2)
}

/// Like [`consttime_cmove`], but the flag is computed by smearing every set
/// bit of `m` down to bit 0, so that it is branchless at the source level,
/// independently of the compiler. Always consumes three words.
pub fn consttime<S: WordSource>(bits: &mut S) -> (r: u64)
    ensures
        advanced(*old(bits), *final(bits), 3),
        consttime_result(r, words(*old(bits))),
        old(bits).peek(1) != 0 ==> rounds_nearest(
            r,
            (old(bits).peek(0) | 0x8000_0000_0000_0001) as nat,
            64 + two_adic((old(bits).peek(1) | 0x8000_0000_0000_0000) as nat),
        ),
        old(bits).peek(1) == 0 ==> rounds_nearest(
            r,
            (old(bits).peek(0) | 0x8000_0000_0000_0001) as nat,
            128 + two_adic((old(bits).peek(2) | 0x8000_0000_0000_0000) as nat),
        ),
        0 < r <= F64_ONE,
{
    let u = bits.next_u64();
    let m = bits.next_u64();
    let m2 = bits.next_u64();
    let mut t = m;
    t |= t >> 1;
    t |= t >> 2;
    t |= t >> 4;
    t |= t >> 8;
    t |= t >> 16;
    t |= t >> 32;
    t &= 1;
    proof {
        let t1 = m | (m >> 1u64);
        let t2 = t1 | (t1 >> 2u64);
        let t3 = t2 | (t2 >> 4u64);
        let t4 = t3 | (t3 >> 8u64);
        let t5 = t4 | (t4 >> 16u64);
        let t6 = t5 | (t5 >> 32u64);
        assert(t == t6 & 1);
        assert((t6 & 1) == (if m != 0 { 1u64 } else { 0u64 })) by (bit_vector)
            requires
                t1 == m | (m >> 1u64),
                t2 == t1 | (t1 >> 2u64),
                t3 == t2 | (t2 >> 4u64),
                t4 == t3 | (t3 >> 8u64),
                t5 == t4 | (t4 >> 16u64),
                t6 == t5 | (t5 >> 32u64),
        ;
        assert(m == 0 ==> m | m2 == m2) by (bit_vector);
    }
    consttime_tail(t, u, m, m2)
}

/// The two const-time variants agree on every input: on the same words, two
/// results that meet the contracts of [`consttime_cmove`] and [`consttime`]
/// are equal.
pub proof fn law_consttime_variants_agree(w: spec_fn(nat) -> u64, r_cmove: u64, r_smear: u64)
    requires
        consttime_result(r_cmove, w),
        consttime_result(r_smear, w),
    ensures
        r_cmove == r_smear,
{
    let m = if w(1) != 0 { w(1) } else { w(2) };
    crate::encoding::lemma_rounds_nearest_unique(
        r_cmove,
        r_smear,
        (w(0) | 0x8000_0000_0000_0001) as nat,
        geometric_scale(w(1)) + two_adic((m | 0x8000_0000_0000_0000) as nat),
    );
}

/// What [`fast`] returns, in terms of its words: with a nonzero geometric
/// word `m`, the binary64 nearest to `(u | 2⁶³ | 1) / 2^(64 + t)`, where `2ᵗ`
/// is the largest power of two dividing `m | 2⁶³`; with `m` zero, the same
/// at `2^(128 + t)`, with `t` taken from the third word `m2`. The
/// significand comes from the first word unaltered, and the other words
/// only choose the power of two.
pub proof fn law_fast_nearest(u: u64, m: u64, m2: u64, r: u64)
    requires
        fast_result(r, u, m, m2),
    ensures
        m != 0 ==> rounds_nearest(
            r,
            (u | 0x8000_0000_0000_0001) as nat,
            64 + two_adic((m | 0x8000_0000_0000_0000) as nat),
        ),
        m == 0 ==> rounds_nearest(
            r,
            (u | 0x8000_0000_0000_0001) as nat,
            128 + two_adic((m2 | 0x8000_0000_0000_0000) as nat),
        ),
{
}

/// What the const-time variants return, in terms of the words `w`: the
/// binary64 nearest to `(w(0) | 2⁶³ | 1) / 2^(64 + t)` with `2ᵗ` the largest
/// power of two dividing `w(1) | 2⁶³` when `w(1)` is nonzero, and to
/// `(w(0) | 2⁶³ | 1) / 2^(128 + t)` with `t` taken from `w(2)` otherwise.
pub proof fn law_consttime_nearest(w: spec_fn(nat) -> u64, r: u64)
    requires
        consttime_result(r, w),
    ensures
        w(1) != 0 ==> rounds_nearest(
            r,
            (w(0) | 0x8000_0000_0000_0001) as nat,
            64 + two_adic((w(1) | 0x8000_0000_0000_0000) as nat),
        ),
        w(1) == 0 ==> rounds_nearest(
            r,
            (w(0) | 0x8000_0000_0000_0001) as nat,
            128 + two_adic((w(2) | 0x8000_0000_0000_0000) as nat),
        ),
{
}

/// With a nonzero geometric word, the const-time variants agree with
/// [`fast`], which then ignores the third word.
pub proof fn law_consttime_agrees_with_fast(w: spec_fn(nat) -> u64, r_fast: u64, r_const: u64)
    requires
        w(1) != 0,
        fast_result(r_fast, w(0), w(1), w(2)),
        consttime_result(r_const, w),
    ensures
        r_fast == r_const,
{
    crate::encoding::lemma_rounds_nearest_unique(
        r_fast,
        r_const,
        (w(0) | 0x8000_0000_0000_0001) as nat,
        64 + two_adic((w(1) | 0x8000_0000_0000_0000) as nat),
    );
}

/// `significand · 2^exponent`, the exact product rounded once, to nearest,
/// ties to even, subnormal and zero results included, for any word
/// `significand` and `-1087 ≤ exponent ≤ -64` (the exponents that
/// [`random_real`] passes). With its top bit and its sticky bottom bit set,
/// as [`random_real`] passes it, the significand is never halfway between
/// two binary64 values.
fn ldexp_sig(significand: u64, exponent: i32) -> (r: u64)
    requires
        -1087 <= exponent <= -64,
    ensures
        rounds_nearest_even(r, significand as nat, (-exponent) as nat),
        significand >= 0x8000_0000_0000_0000 && significand % 2 == 1 ==> rounds_nearest(
            r,
            significand as nat,
            (-exponent) as nat,
        ),
{
    round_to_nearest(significand, (-exponent) as u64)
}

/// The number `x` with its last bit forced to 1 (a sticky bit).
pub open spec fn sticky(x: nat) -> nat {
    (x - x % 2 + 1) as nat
}

/// The number of words [`random_real`] reads from `w`: the run of zero words and
/// the first nonzero word, plus one more when that word has leading zeros;
/// 16 when the first 16 words are zero.
pub open spec fn real_count(w: spec_fn(nat) -> u64) -> nat {
    let j = first_nonzero(w, 0, 16);
    if j >= 16 {
        16
    } else if u64_leading_zeros(w(j)) == 0 {
        j + 1
    } else {
        j + 2
    }
}

/// The binary exponent of the 64-bit significand of [`random_real`]: the number of
/// bits of the expansion up to the end of the significand.
pub open spec fn real_scale(w: spec_fn(nat) -> u64) -> nat {
    let j = first_nonzero(w, 0, 16);
    (64 * (j + 1) + u64_leading_zeros(w(j))) as nat
}

/// The 64 bits of the expansion that start at its first 1.
pub open spec fn real_window(w: spec_fn(nat) -> u64) -> nat {
    prefix(w, real_count(w)) / pow2((64 * real_count(w) - real_scale(w)) as nat)
}

/// Interprets an unbounded stream of random bits as the binary expansion of
/// a real number in [0 . . 1] and rounds it to the nearest binary64 value,
/// with a sticky bit avoiding ties: the 64 bits from the first 1 on, with
/// the last forced to 1, are rounded to nearest. Every float in
/// [2⁻¹⁰²⁴ . . 1] is reachable; 0 is returned after 16 zero words
/// (probability 2⁻¹⁰²⁴, i.e., only if the source is broken), so the
/// subnormals below 2⁻¹⁰²⁴ cannot occur.
///
/// Consumes one word, plus one more with probability 1/2 (when the first
/// word has leading zeros), plus one word per 64 leading zero bits.
pub fn random_real<S: WordSource>(bits: &mut S) -> (r: u64)
    ensures
        advanced(*old(bits), *final(bits), real_count(words(*old(bits)))),
        first_nonzero(words(*old(bits)), 0, 16) == 16 ==> r == 0,
        first_nonzero(words(*old(bits)), 0, 16) < 16 ==> rounds_nearest(
            r,
            sticky(real_window(words(*old(bits)))),
            real_scale(words(*old(bits))),
        ),
        first_nonzero(words(*old(bits)), 0, 16) < 16 ==> 0x8000_0000_0000_0000 <= real_window(
            words(*old(bits)),
        ) < 0x1_0000_0000_0000_0000,
        r <= F64_ONE,
{
    let ghost b0 = *bits;
    let ghost w = words(*bits);
    let mut exponent: i32 = -64;
    // Read zeros into the exponent until a one; the rest goes into the
    // significand.
    let mut significand = bits.next_u64();
    let ghost mut n: nat = 1;
    proof {
        assert(prefix(w, 0) == 0);
        crate::sources::lemma_first_nonzero(w, 0, 16);
        lemma2_to64();
        lemma2_to64_rest();
    }
    while significand == 0
        invariant
            1 <= n <= 16,
            exponent == -64 * n,
            advanced(b0, *bits, n),
            b0 == *old(bits),
            w == words(b0),
            significand == w((n - 1) as nat),
            first_nonzero(w, 0, 16) == first_nonzero(w, (n - 1) as nat, 16),
            prefix(w, (n - 1) as nat) == 0,
        decreases 16 - n,
    {
        exponent -= 64;
        proof {
            assert(first_nonzero(w, (n - 1) as nat, 16) == first_nonzero(w, n, 16));
        }
        if exponent < -1074 {
            // This stops one word earlier than a rounding to zero would
            // require: the subnormals below 2⁻¹⁰²⁴ are out of reach.
            proof {
                assert(first_nonzero(w, n, 16) == 16);
            }
            return 0;
        }
        significand = bits.next_u64();
        proof {
            assert(prefix(w, n) == 0) by {
                vstd::arithmetic::mul::lemma_mul_basics(pow2(64) as int);
            }
            n = n + 1;
        }
    }
    let ghost j = (n - 1) as nat;
    let ghost x = significand;
    proof {
        crate::sources::lemma_first_nonzero(w, j, 16);
        assert(first_nonzero(w, 0, 16) == j);
        crate::bits::lemma_leading_zeros(significand);
        crate::pekkizen::lemma_normalize(significand);
        assert(prefix(w, j + 1) == w(j)) by {
            vstd::arithmetic::mul::lemma_mul_basics(pow2(64) as int);
        }
    }
    // If there are leading zeros, shift them into the exponent and refill
    // the less significant bits of the significand.
    let shift = significand.leading_zeros();
    if shift != 0 {
        exponent -= shift as i32;
        significand <<= shift;
        let next = bits.next_u64();
        let low = next >> (64 - shift);
        let ghost hi = significand;
        significand |= low;
        proof {
            assert(real_count(w) == j + 2);
            assert(next == w(j + 1));
            assert(prefix(w, j + 2) == w(j) * pow2(64) + next);
            crate::bits::lemma_join_words(x, next, shift as u64);
            assert(significand as nat == prefix(w, j + 2) / pow2((64 - shift) as nat));
            assert(significand >= 0x8000_0000_0000_0000) by (bit_vector)
                requires
                    hi >= 0x8000_0000_0000_0000,
                    significand == hi | low,
            ;
        }
    } else {
        proof {
            assert(real_count(w) == j + 1);
            vstd::arithmetic::div_mod::lemma_div_by_multiple(prefix(w, j + 1) as int, 1);
        }
    }
    proof {
        assert(significand as nat == real_window(w));
    }
    // Set the sticky bit, since there is almost surely another 1 in the bit
    // stream; otherwise an apparent tie might round to even when, almost
    // surely, a further 1 would break it.
    let ghost before = significand;
    significand |= 1;
    proof {
        assert(significand == before - before % 2 + 1 && significand % 2 == 1
            && significand >= 0x8000_0000_0000_0000) by (bit_vector)
            requires
                significand == before | 1,
                before >= 0x8000_0000_0000_0000,
        ;
    }
    let r = ldexp_sig(significand, exponent);
    proof {
        let k = (-exponent) as nat;
        lemma_pow2_adds(64, (k - 64) as nat);
        lemma_pow2_pos((k - 64) as nat);
        vstd::arithmetic::mul::lemma_mul_inequality(1, pow2((k - 64) as nat) as int, pow2(64) as int);
        crate::encoding::lemma_rounds_nearest_at_most_one(r, significand as nat, k);
    }
    r
}

/// The largest power of two dividing `2ᵗ · o`, for odd `o`, is `2ᵗ`.
proof fn lemma_two_adic_of(t: nat, o: nat)
    requires
        o % 2 == 1,
    ensures
        two_adic(pow2(t) * o) == t,
    decreases t,
{
    lemma2_to64();
    if t == 0 {
        vstd::arithmetic::mul::lemma_mul_basics(o as int);
    } else {
        lemma_two_adic_of((t - 1) as nat, o);
        vstd::arithmetic::power2::lemma_pow2_unfold(t);
        lemma_pow2_pos((t - 1) as nat);
        let x = pow2(t) * o;
        let y = pow2((t - 1) as nat) * o;
        vstd::arithmetic::mul::lemma_mul_is_associative(2, pow2((t - 1) as nat) as int, o as int);
        assert(x == 2 * y);
        vstd::arithmetic::mul::lemma_mul_strictly_positive(pow2((t - 1) as nat) as int, o as int);
        assert(x / 2 == y);
    }
}

/// The geometric word `2ᵗ` selects the divisor `2ᵗ`.
proof fn lemma_two_adic_single(t: u64)
    requires
        t < 64,
    ensures
        two_adic(((1u64 << t) | 0x8000_0000_0000_0000) as nat) == t,
        (1u64 << t) != 0,
{
    lemma2_to64();
    lemma2_to64_rest();
    vstd::bits::lemma_u64_shl_is_mul(1, t);
    vstd::arithmetic::mul::lemma_mul_basics(pow2(t as nat) as int);
    if t < 63 {
        assert(((1u64 << t) | 0x8000_0000_0000_0000) == (1u64 << t) + 0x8000_0000_0000_0000)
            by (bit_vector)
            requires
                t < 63,
        ;
        // 2ᵗ + 2⁶³ == 2ᵗ · (1 + 2⁶³⁻ᵗ)
        lemma_pow2_adds(t as nat, (63 - t) as nat);
        vstd::arithmetic::power2::lemma_pow2_unfold((63 - t) as nat);
        vstd::arithmetic::mul::lemma_mul_is_distributive_add(
            pow2(t as nat) as int,
            1,
            pow2((63 - t) as nat) as int,
        );
        lemma_two_adic_of(t as nat, 1 + pow2((63 - t) as nat));
    } else {
        assert(((1u64 << 63u64) | 0x8000_0000_0000_0000) == 0x8000_0000_0000_0000)
            by (bit_vector);
        lemma_two_adic_of(63, 1);
    }
}

/// Every float in [2⁻¹²⁸ . . 1] is a result of [`fast`] (and so of the
/// const-time variants): the returned words are a significand word, a
/// geometric word, and a third word, on which every result that meets the
/// contract of [`fast`] is that float.
pub proof fn law_fast_complete(r: u64) -> (w: (u64, u64, u64))
    requires
        TWO_M128 <= r <= F64_ONE,
    ensures
        forall|rf: u64| #[trigger] fast_result(rf, w.0, w.1, w.2) ==> rf == r,
{
    lemma2_to64();
    lemma2_to64_rest();
    lemma_scales();
    if r == F64_ONE {
        // 2⁶⁴ - 1 rounds up to 2⁶⁴: the value 1.
        let t = (F64_ONE - 1) as u64;
        crate::encoding::lemma_fields(t, 1022, 0xF_FFFF_FFFF_FFFF);
        lemma_two_adic_of(0, 0x8000_0000_0000_0001);
        assert((1u64 | 0x8000_0000_0000_0000) == 0x8000_0000_0000_0001) by (bit_vector);
        assert((u64::MAX | 0x8000_0000_0000_0001) == u64::MAX) by (bit_vector);
        vstd::arithmetic::mul::lemma_mul_basics(0x8000_0000_0000_0001);
        lemma_nearest_from_truncation(t, u64::MAX as nat, 64, 11, 1);
        assert forall|rf: u64| #[trigger] fast_result(rf, u64::MAX, 1, 0) implies rf == r by {
            crate::encoding::lemma_rounds_nearest_unique(rf, r, u64::MAX as nat, 64);
        }
        (u64::MAX, 1, 0)
    } else {
        let e = crate::encoding::exp_field(r);
        let f = crate::encoding::frac_field(r);
        vstd::arithmetic::div_mod::lemma_fundamental_div_mod(r as int, hidden64() as int);
        assert(895 <= e <= 1022);
        let sig = significand(r);
        let u = (sig * 0x800) as u64;
        assert(u % 2 == 0 && u >= 0x8000_0000_0000_0000);
        assert((u | 0x8000_0000_0000_0001) == u + 1) by (bit_vector)
            requires
                u % 2 == 0,
                u >= 0x8000_0000_0000_0000,
        ;
        let (scale_e, t) = if e >= 959 {
            (64nat, (1022 - e) as u64)
        } else {
            (128nat, (958 - e) as u64)
        };
        lemma_two_adic_single(t);
        let m = 1u64 << t;
        assert(pow2(11) == 0x800);
        lemma_nearest_from_truncation(r, (u + 1) as nat, (scale_e + t) as nat, 11, 0);
        let w = if e >= 959 {
            (u, m, 0u64)
        } else {
            (u, 0u64, m)
        };
        assert forall|rf: u64| #[trigger] fast_result(rf, w.0, w.1, w.2) implies rf == r by {
            crate::encoding::lemma_rounds_nearest_unique(rf, r, (u + 1) as nat, (scale_e + t) as nat);
        }
        w
    }
}

/// The encoding of 2⁻¹⁰²⁴.
pub const F64_TWO_M1024: u64 = 0x0004_0000_0000_0000;

/// The words on which [`random_real`] reads the 64-bit significand `s` (top
/// bit set) at the binary exponent `k`: zeros, then the bits of `s` from bit
/// `k - 64` of the expansion on.
pub open spec fn real_words(s: u64, k: nat) -> spec_fn(nat) -> u64 {
    |i: nat|
        {
            let j = (k / 64 - 1) as nat;
            let z = (k % 64) as u64;
            if i < j {
                0u64
            } else if i == j {
                s >> z
            } else if i == j + 1 && z > 0 {
                s << ((64 - z) as u64)
            } else {
                0u64
            }
        }
}

/// On [`real_words`], [`random_real`] reads back `s` at the exponent `k`.
proof fn lemma_real_words(s: u64, k: nat)
    requires
        s >= 0x8000_0000_0000_0000,
        64 <= k <= 1087,
    ensures
        first_nonzero(real_words(s, k), 0, 16) < 16,
        real_scale(real_words(s, k)) == k,
        real_window(real_words(s, k)) == s,
{
    let w = real_words(s, k);
    let j = (k / 64 - 1) as nat;
    let z = (k % 64) as u64;
    lemma2_to64();
    lemma2_to64_rest();
    let a = s >> z;
    vstd::bits::lemma_u64_shr_is_div(s, z);
    assert(a != 0) by (bit_vector)
        requires
            a == s >> z,
            z < 64,
            s >= 0x8000_0000_0000_0000,
    ;
    assert(w(j) == a);
    assert forall|i: nat| i < j implies #[trigger] w(i) == 0 by {}
    crate::sources::lemma_leading_zero_words(w, j, 16);
    // a lies in [2⁶³⁻ᶻ . . 2⁶⁴⁻ᶻ): z leading zeros
    lemma_pow2_adds((63 - z) as nat, z as nat);
    lemma_pow2_adds((64 - z) as nat, z as nat);
    lemma_pow2_pos(z as nat);
    crate::bits::lemma_floor_div(s as nat, pow2(z as nat));
    vstd::arithmetic::div_mod::lemma_div_is_ordered(
        (pow2((63 - z) as nat) * pow2(z as nat)) as int,
        s as int,
        pow2(z as nat) as int,
    );
    vstd::arithmetic::div_mod::lemma_div_by_multiple(pow2((63 - z) as nat) as int, pow2(z as nat) as int);
    if a as nat >= pow2((64 - z) as nat) {
        vstd::arithmetic::mul::lemma_mul_inequality(
            pow2((64 - z) as nat) as int,
            a as int,
            pow2(z as nat) as int,
        );
    }
    crate::bits::lemma_leading_zeros_exact(a, z as nat);
    assert(real_scale(w) == k);
    assert(prefix(w, j + 1) == a) by {
        vstd::arithmetic::mul::lemma_mul_basics(pow2(64) as int);
    }
    if z == 0 {
        assert(real_count(w) == j + 1);
        assert(a == s) by (bit_vector)
            requires
                a == s >> z,
                z == 0,
        ;
        assert((64 * real_count(w) - real_scale(w)) as nat == 0);
        vstd::arithmetic::div_mod::lemma_div_by_multiple(s as int, 1);
        vstd::arithmetic::mul::lemma_mul_basics(s as int);
    } else {
        assert(real_count(w) == j + 2);
        let b = s << ((64 - z) as u64);
        assert(w(j + 1) == b);
        assert(prefix(w, j + 2) == a * pow2(64) + b);
        crate::bits::lemma_join_words(a, b, z);
        assert(((a << z) | (b >> ((64 - z) as u64))) == s) by (bit_vector)
            requires
                0 < z < 64,
                a == s >> z,
                b == s << ((64 - z) as u64),
        ;
        assert((64 * real_count(w) - real_scale(w)) as nat == (64 - z) as nat);
    }
}

/// Every float in [2⁻¹⁰²⁴ . . 1] is a result of [`random_real`]: on the
/// returned words, every result that meets the contract of [`random_real`]
/// is that float.
pub proof fn law_random_real_complete(r: u64) -> (w: spec_fn(nat) -> u64)
    requires
        F64_TWO_M1024 <= r <= F64_ONE,
    ensures
        first_nonzero(w, 0, 16) < 16,
        forall|rr: u64| #[trigger]
            rounds_nearest(rr, sticky(real_window(w)), real_scale(w)) ==> rr == r,
{
    lemma2_to64();
    lemma2_to64_rest();
    let e = crate::encoding::exp_field(r);
    let f = crate::encoding::frac_field(r);
    vstd::arithmetic::div_mod::lemma_fundamental_div_mod(r as int, hidden64() as int);
    let (s, k): (u64, nat) = if r == F64_ONE {
        let t = (F64_ONE - 1) as u64;
        crate::encoding::lemma_fields(t, 1022, 0xF_FFFF_FFFF_FFFF);
        lemma_nearest_from_truncation(t, u64::MAX as nat, 64, 11, 1);
        (u64::MAX, 64nat)
    } else if e >= 1 {
        let sig = significand(r);
        let s = (sig * 0x800) as u64;
        assert(pow2(11) == 0x800);
        lemma_nearest_from_truncation(r, (s + 1) as nat, (1086 - e) as nat, 11, 0);
        (s, (1086 - e) as nat)
    } else if f >= 0x8_0000_0000_0000 {
        let s = (f * 0x1000) as u64;
        assert(pow2(12) == 0x1000);
        lemma_nearest_from_truncation(r, (s + 1) as nat, 1086, 12, 0);
        (s, 1086nat)
    } else {
        assert(f >= 0x4_0000_0000_0000);
        let s = (f * 0x2000) as u64;
        assert(pow2(13) == 0x2000);
        lemma_nearest_from_truncation(r, (s + 1) as nat, 1087, 13, 0);
        (s, 1087nat)
    };
    assert(sticky(s as nat) == s + 1 || (s == u64::MAX && sticky(s as nat) == s));
    lemma_real_words(s, k);
    let w = real_words(s, k);
    assert forall|rr: u64| #[trigger]
        rounds_nearest(rr, sticky(real_window(w)), real_scale(w)) implies rr == r by {
        crate::encoding::lemma_rounds_nearest_unique(rr, r, sticky(s as nat), k);
    }
    w
}

} // verus!
