//! Facts about the bit operations with which the conversions build their
//! results: leading zeros, shifts, and the packing of an exponent and a
//! significand into a binary64 encoding.
use crate::encoding::{
    encodes_exactly, exp_field, frac_field, hidden64, is_finite_nonneg, lemma_fields, scale,
    significand, ulps,
};
use vstd::arithmetic::div_mod::{
    lemma_fundamental_div_mod, lemma_fundamental_div_mod_converse, lemma_remainder_lower,
    lemma_remainder_upper,
};
use vstd::arithmetic::mul::{lemma_mul_is_associative, lemma_mul_is_commutative};
use vstd::arithmetic::power2::{
    lemma2_to64, lemma2_to64_rest, lemma_pow2_adds, lemma_pow2_pos, lemma_pow2_strictly_increases,
    pow2,
};
use vstd::bits::{lemma_u64_shl_is_mul, lemma_u64_shr_is_div};
use vstd::prelude::*;
use vstd::std_specs::bits::u64_leading_zeros;

verus! {

/// The leading zeros of a word locate its leading one: a nonzero `x` with
/// `z` leading zeros lies in [2⁶³⁻ᶻ . . 2⁶⁴⁻ᶻ).
pub proof fn lemma_leading_zeros(x: u64)
    ensures
        0 <= u64_leading_zeros(x) <= 64,
        x == 0 <==> u64_leading_zeros(x) == 64,
        x != 0 ==> pow2((63 - u64_leading_zeros(x)) as nat) <= x,
        (x as nat) < pow2((64 - u64_leading_zeros(x)) as nat),
    decreases x,
{
    reveal(u64_leading_zeros);
    lemma2_to64();
    lemma2_to64_rest();
    if x == 0 {
    } else if x == 1 {
        assert(u64_leading_zeros(0) == 64);
        assert(u64_leading_zeros(1) == 63);
    } else {
        let h = (x / 2) as u64;
        lemma_leading_zeros(h);
        let zh = u64_leading_zeros(h);
        assert(u64_leading_zeros(x) == zh - 1);
        let p = (63 - zh) as nat;
        lemma_pow2_adds(p, 1);
        lemma_pow2_adds((p + 1) as nat, 1);
    }
}

/// A word in [2⁶³⁻ᶻ . . 2⁶⁴⁻ᶻ) has exactly `z` leading zeros.
pub proof fn lemma_leading_zeros_exact(x: u64, z: nat)
    requires
        z < 64,
        pow2((63 - z) as nat) <= x,
        (x as nat) < pow2((64 - z) as nat),
    ensures
        u64_leading_zeros(x) == z,
{
    lemma_leading_zeros(x);
    let l = u64_leading_zeros(x);
    if l < z {
        lemma_pow2_strictly_increases((64 - z) as nat, (63 - l) as nat);
    } else if l > z {
        if l < 64 {
            lemma_pow2_strictly_increases((64 - l) as nat, (63 - z) as nat);
        } else {
            lemma_pow2_pos((63 - z) as nat);
        }
    }
}

/// `v / d` bounds `v` from below and above by consecutive multiples of `d`.
pub proof fn lemma_floor_div(v: nat, d: nat)
    requires
        d > 0,
    ensures
        (v / d) * d <= v,
        v < (v / d + 1) * d,
        v + 1 <= (v / d + 1) * d,
{
    lemma_fundamental_div_mod(v as int, d as int);
    lemma_remainder_lower(v as int, d as int);
    lemma_remainder_upper(v as int, d as int);
    lemma_mul_is_commutative((v / d) as int, d as int);
    vstd::arithmetic::mul::lemma_mul_is_distributive_add_other_way(d as int, (v / d) as int, 1);
}

/// The packing of a biased exponent `e` and a word `v` whose top bit is the
/// leading one of the significand: the top bit is dropped (hidden), the next
/// 52 bits become the fraction, and the 11 bits below are truncated.
pub proof fn lemma_pack_normal(e: u64, v: u64)
    requires
        1 <= e <= 2046,
        v >= 0x8000_0000_0000_0000,
    ensures
        ((e << 52) | ((v << 1) >> 12)) as nat == e * hidden64() + (v - 0x8000_0000_0000_0000)
            / 0x800,
        exp_field((e << 52) | ((v << 1) >> 12)) == e,
        significand((e << 52) | ((v << 1) >> 12)) == v as nat / 0x800,
        scale((e << 52) | ((v << 1) >> 12)) == e - 1,
        is_finite_nonneg((e << 52) | ((v << 1) >> 12)),
{
    assert(((e << 52) | ((v << 1) >> 12)) == e * 0x10_0000_0000_0000 + (v - 0x8000_0000_0000_0000)
        / 0x800) by (bit_vector)
        requires
            1 <= e <= 2046,
            v >= 0x8000_0000_0000_0000,
    ;
    let r = (e << 52) | ((v << 1) >> 12);
    lemma_fields(r, e as nat, ((v - 0x8000_0000_0000_0000) / 0x800) as nat);
}

/// A subnormal encoding is its own significand.
pub proof fn lemma_subnormal(f: u64)
    requires
        (f as nat) < hidden64(),
    ensures
        exp_field(f) == 0,
        frac_field(f) == f,
        significand(f) == f,
        scale(f) == 0,
        is_finite_nonneg(f),
{
    lemma_fields(f, 0, f as nat);
}

/// The word made of the bits of the 128-bit number `a · 2⁶⁴ + b` from the
/// leading `z` zeros of `a` on: the 64-bit window starting at `a`'s leading
/// one, when `a` has exactly `z` leading zeros.
pub proof fn lemma_join_words(a: u64, b: u64, z: u64)
    requires
        0 < z < 64,
        (a as nat) < pow2((64 - z) as nat),
    ensures
        ((a << z) | (b >> ((64 - z) as u64))) as nat == ((a * pow2(64) + b) as nat) / pow2(
            (64 - z) as nat,
        ),
        (b >> ((64 - z) as u64)) as nat == b as nat / pow2((64 - z) as nat),
        (a << z) as nat == a * pow2(z as nat),
{
    let s = (64 - z) as nat;
    lemma_pow2_pos(s);
    lemma_pow2_pos(z as nat);
    lemma_pow2_adds(s, z as nat);
    lemma2_to64_rest();
    // no overflow: a · 2ᶻ < 2⁶⁴
    assert(a * pow2(z as nat) < pow2(64)) by {
        vstd::arithmetic::mul::lemma_mul_strict_inequality(
            a as int,
            pow2(s) as int,
            pow2(z as nat) as int,
        );
    }
    lemma_u64_shl_is_mul(a, z);
    lemma_u64_shr_is_div(b, (64 - z) as u64);
    assert(((a << z) | (b >> ((64 - z) as u64))) == (a << z) + (b >> ((64 - z) as u64)))
        by (bit_vector)
        requires
            0 < z < 64,
    ;
    // (a · 2⁶⁴ + b) / 2ˢ == a · 2ᶻ + b / 2ˢ
    let d = pow2(s);
    let q = a * pow2(z as nat) + b as nat / d;
    lemma_fundamental_div_mod(b as int, d as int);
    lemma_remainder_lower(b as int, d as int);
    lemma_remainder_upper(b as int, d as int);
    lemma_mul_is_associative(a as int, pow2(z as nat) as int, d as int);
    lemma_mul_is_commutative(pow2(s) as int, pow2(z as nat) as int);
    vstd::arithmetic::mul::lemma_mul_is_distributive_add_other_way(
        d as int,
        (a * pow2(z as nat)) as int,
        (b as nat / d) as int,
    );
    lemma_mul_is_commutative(d as int, (b as nat / d) as int);
    lemma_mul_is_commutative(d as int, q as int);
    lemma_fundamental_div_mod_converse(
        (a * pow2(64) + b) as int,
        d as int,
        q as int,
        (b as nat % d) as int,
    );
}

/// Dropping low bits in two steps: `(a · 2ⁿ + t) / 2ⁿ⁺ᵐ == a / 2ᵐ` when
/// `t < 2ⁿ`.
pub proof fn lemma_div_shift(a: nat, t: nat, n: nat, m: nat)
    requires
        t < pow2(n),
    ensures
        (a * pow2(n) + t) / pow2(n + m) == a / pow2(m),
{
    lemma_pow2_pos(n);
    lemma_pow2_pos(m);
    lemma_pow2_adds(n, m);
    vstd::arithmetic::div_mod::lemma_hoist_over_denominator(t as int, a as int, pow2(n));
    vstd::arithmetic::div_mod::lemma_basic_div(t as int, pow2(n) as int);
    vstd::arithmetic::div_mod::lemma_div_denominator(
        (a * pow2(n) + t) as int,
        pow2(n) as int,
        pow2(m) as int,
    );
}

/// `x · 2ᵖ · 2^q`-style regrouping for the windows: `(x / 2ᵖ) / 2^q == x / 2ᵖ⁺^q`.
pub proof fn lemma_div_div(x: nat, p: nat, q: nat)
    ensures
        (x / pow2(p)) / pow2(q) == x / pow2(p + q),
{
    lemma_pow2_pos(p);
    lemma_pow2_pos(q);
    lemma_pow2_adds(p, q);
    vstd::arithmetic::div_mod::lemma_div_denominator(x as int, pow2(p) as int, pow2(q) as int);
}

/// The encoding that [`encode_scaled`] builds for a nonzero `m`: biased
/// exponent `1086 - lz(m) - k`, and the bits of `m` from its leading one on.
pub open spec fn scaled_bits(m: u64, k: u64) -> u64 {
    let l = u64_leading_zeros(m) as u64;
    (((1086 - l - k) as u64) << 52) | (((m << l) << 1) >> 12)
}

/// [`scaled_bits`] encodes `m / 2ᵏ` exactly when `m` has at most 53
/// significant bits and the value is normal.
pub proof fn lemma_scaled_bits(m: u64, k: u64)
    requires
        m != 0,
        u64_leading_zeros(m) + k <= 1085,
        (m * pow2(u64_leading_zeros(m) as nat)) % 0x800 == 0,
    ensures
        encodes_exactly(scaled_bits(m, k), m as nat, k as nat),
        significand(scaled_bits(m, k)) == (m * pow2(u64_leading_zeros(m) as nat)) / 0x800,
        scale(scaled_bits(m, k)) == 1085 - u64_leading_zeros(m) - k,
{
    lemma_leading_zeros(m);
    let l = u64_leading_zeros(m) as u64;
    let lz = l as nat;
    let p = (63 - lz) as nat;
    lemma_pow2_pos(lz);
    lemma_pow2_adds(p, lz);
    lemma_pow2_adds(p + 1, lz);
    lemma2_to64_rest();
    vstd::arithmetic::mul::lemma_mul_strict_inequality(
        m as int,
        pow2(p + 1) as int,
        pow2(lz) as int,
    );
    vstd::arithmetic::mul::lemma_mul_inequality(pow2(p) as int, m as int, pow2(lz) as int);
    lemma_u64_shl_is_mul(m, l);
    let v = m << l;
    let e = (1086 - l - k) as u64;
    lemma_pack_normal(e, v);
    let r = (e << 52) | ((v << 1) >> 12);
    let sig = (v as nat) / 0x800;
    // sig · 2¹¹ == m · 2ˡ
    lemma_floor_div(v as nat, 0x800);
    vstd::arithmetic::div_mod::lemma_fundamental_div_mod(v as int, 0x800);
    assert(sig * 0x800 == v);
    // ulps(r) · 2ᵏ == sig · 2^(e - 1 + k) == sig · 2¹¹ · 2^(1074 - l) == m · 2¹⁰⁷⁴
    crate::encoding::lemma_mul_pow2_pow2(sig, (e - 1) as nat, k as nat);
    lemma2_to64();
    assert(pow2(11) == 0x800);
    crate::encoding::lemma_mul_pow2_pow2(sig, 11, (1074 - lz) as nat);
    assert((e - 1) as nat + k == 11 + (1074 - lz) as nat);
    crate::encoding::lemma_mul_pow2_pow2(m as nat, lz, (1074 - lz) as nat);
}

/// The binary64 encoding of `m / 2ᵏ`, where `m` has at most 53 significant
/// bits (the bits of `m` more than 52 places below its leading one are zero)
/// and the value is normal: the product `(m as f64) * 2⁻ᵏ`, which is exact.
pub fn encode_scaled(m: u64, k: u64) -> (r: u64)
    requires
        m == 0 || (u64_leading_zeros(m) + k <= 1085 && (m * pow2(
            u64_leading_zeros(m) as nat,
        )) % 0x800 == 0),
    ensures
        encodes_exactly(r, m as nat, k as nat),
        m != 0 ==> r == scaled_bits(m, k),
        m != 0 ==> significand(r) == (m * pow2(u64_leading_zeros(m) as nat)) / 0x800,
        m != 0 ==> scale(r) == 1085 - u64_leading_zeros(m) - k,
{
    if m == 0 {
        proof {
            lemma_subnormal(0);
            lemma2_to64();
            vstd::arithmetic::mul::lemma_mul_basics(pow2(k as nat) as int);
        }
        return 0;
    }
    let l = m.leading_zeros() as u64;
    proof {
        lemma_leading_zeros(m);
        lemma_scaled_bits(m, k);
    }
    ((1086 - l - k) << 52) | (((m << l) << 1) >> 12)
}

} // verus!
