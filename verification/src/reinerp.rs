//! Reiner Pope's hardware-int-to-float variant.
//!
//! The fast path keeps the 53 bits of the first word that start at its
//! leading one and scales them by 2⁻⁶⁴: on hardware, a single integer-to-float
//! conversion does the work of both the leading-zeros count and the bit
//! packing. The product is exact, so it is computed here as its encoding.
//!
//! The fast path is taken when the first word has at most 11 leading zeros,
//! on every target: this is the choice of targets with a native unsigned
//! conversion (and of AVX-512). Targets that emulate the conversion with a
//! signed one (x86 without AVX-512) are served by a fast path that ends one
//! leading zero earlier: there, a first word in [2⁵² . . 2⁵³) takes the slow
//! path and reads a second word, where this function reads one. The value
//! returned is the same; the source is left one word further on such
//! targets.
//!
//! The slow path, for fewer than 0.05% of the calls, is that of
//! [`crate::pekkizen::f64_full`], and so is the result: see
//! [`law_round_down_is_full`].
use crate::bits::{encode_scaled, lemma_floor_div, lemma_leading_zeros, lemma_leading_zeros_exact};
use crate::encoding::{
    lemma_rounds_down_all_window, lemma_rounds_down_unique, rounds_down_all, F64_ONE,
};
use crate::pekkizen::full_count;
use crate::sources::{advanced, prefix, words, WordSource};
use vstd::arithmetic::power2::{lemma2_to64, lemma2_to64_rest, lemma_pow2_adds, pow2};
use vstd::prelude::*;
use vstd::std_specs::bits::u64_leading_zeros;

verus! {

/// The mask of the top 53 bits of a word.
pub const MASK_TOP53: u64 = 0xFFFF_FFFF_FFFF_F800;

/// The fast path: the 53 bits of `u` from its leading one on, scaled by
/// 2⁻⁶⁴, round `u / 2⁶⁴` down, and so every real that begins with `u`.
proof fn lemma_fast_path(u: u64, z: u64)
    requires
        z == u64_leading_zeros(u),
        z <= 11,
    ensures
        ({
            let m = u & (MASK_TOP53 >> z);
            &&& u64_leading_zeros(m) == z
            &&& (m * pow2(z as nat)) % 0x800 == 0
            &&& (m * pow2(z as nat)) / 0x800 == u as nat / pow2((11 - z) as nat)
        }),
{
    lemma_leading_zeros(u);
    lemma2_to64();
    lemma2_to64_rest();
    let s = (11 - z) as u64;
    let m = u & (MASK_TOP53 >> z);
    // u has its leading one at 63 - z
    vstd::bits::lemma_u64_shr_is_div(u, (63 - z) as u64);
    vstd::arithmetic::div_mod::lemma_div_is_ordered(
        pow2((63 - z) as nat) as int,
        u as int,
        pow2((63 - z) as nat) as int,
    );
    vstd::arithmetic::div_mod::lemma_div_by_self(pow2((63 - z) as nat) as int);
    vstd::arithmetic::power2::lemma_pow2_pos((63 - z) as nat);
    lemma_pow2_adds((63 - z) as nat, 1);
    assert(u >> ((63 - z) as u64) == 1) by {
        if u as nat / pow2((63 - z) as nat) >= 2 {
            vstd::arithmetic::mul::lemma_mul_inequality(
                2,
                (u as nat / pow2((63 - z) as nat)) as int,
                pow2((63 - z) as nat) as int,
            );
            lemma_floor_div(u as nat, pow2((63 - z) as nat));
        }
    }
    assert(m == (u >> s) << s) by (bit_vector)
        requires
            z <= 11,
            s == 11 - z,
            u >> ((63 - z) as u64) == 1,
            m == u & (MASK_TOP53 >> z),
    ;
    // q = u / 2ˢ lies in [2⁵² . . 2⁵³), and m = q · 2ˢ
    let q = u >> s;
    vstd::bits::lemma_u64_shr_is_div(u, s);
    lemma_pow2_adds(52, s as nat);
    lemma_pow2_adds(53, s as nat);
    vstd::arithmetic::power2::lemma_pow2_pos(s as nat);
    lemma_floor_div(u as nat, pow2(s as nat));
    vstd::arithmetic::div_mod::lemma_div_is_ordered(
        (pow2(52) * pow2(s as nat)) as int,
        u as int,
        pow2(s as nat) as int,
    );
    vstd::arithmetic::div_mod::lemma_div_by_multiple(pow2(52) as int, pow2(s as nat) as int);
    if q >= 0x20_0000_0000_0000 {
        vstd::arithmetic::mul::lemma_mul_inequality(
            pow2(53) as int,
            q as int,
            pow2(s as nat) as int,
        );
    }
    assert(0x10_0000_0000_0000 <= q < 0x20_0000_0000_0000);
    vstd::arithmetic::mul::lemma_mul_inequality(q as int, pow2(53) as int, pow2(s as nat) as int);
    vstd::bits::lemma_u64_shl_is_mul(q, s);
    vstd::arithmetic::mul::lemma_mul_inequality(pow2(52) as int, q as int, pow2(s as nat) as int);
    vstd::arithmetic::mul::lemma_mul_strict_inequality(
        q as int,
        pow2(53) as int,
        pow2(s as nat) as int,
    );
    lemma_leading_zeros_exact(m, z as nat);
    // m · 2ᶻ == q · 2¹¹
    lemma_pow2_adds(s as nat, z as nat);
    vstd::arithmetic::mul::lemma_mul_is_associative(
        q as int,
        pow2(s as nat) as int,
        pow2(z as nat) as int,
    );
    vstd::arithmetic::div_mod::lemma_mod_multiples_basic(q as int, 0x800);
    vstd::arithmetic::div_mod::lemma_div_by_multiple(q as int, 0x800);
}

/// Interprets an unbounded stream of random bits as the binary expansion of
/// a real number in [0 . . 1) and rounds it down to the largest
/// representable binary64 value below it: the output is that of
/// [`crate::pekkizen::f64_full`], and so is the number of words read.
pub fn f64_round_down<S: WordSource>(bits: &mut S) -> (r: u64)
    ensures
        advanced(*old(bits), *final(bits), full_count(words(*old(bits)))),
        rounds_down_all(
            r,
            prefix(words(*old(bits)), full_count(words(*old(bits)))),
            64 * full_count(words(*old(bits))),
        ),
        r < F64_ONE,
{
    let ghost b0 = *bits;
    let ghost w = words(*bits);
    let u = bits.next_u64();
    let z = u.leading_zeros() as u64;
    proof {
        lemma_leading_zeros(u);
        crate::sources::lemma_prefix_short(w);
        lemma2_to64();
        lemma2_to64_rest();
        crate::sources::lemma_first_nonzero(w, 0, 17);
    }
    if z <= 11 {
        // More than 99.975% of the calls: the top 53 bits from the leading
        // one, times 2⁻⁶⁴, an exact product.
        let m = u & (MASK_TOP53 >> z);
        proof {
            lemma_fast_path(u, z);
        }
        let r = encode_scaled(m, 64);
        proof {
            let s = (11 - z) as nat;
            vstd::arithmetic::power2::lemma_pow2_pos(s);
            lemma_floor_div(u as nat, pow2(s));
            vstd::arithmetic::mul::lemma_mul_basics(u as int);
            vstd::arithmetic::mul::lemma_mul_basics((u + 1) as int);
            lemma_rounds_down_all_window(r, u as nat, 64, s, 0);
        }
        proof {
            crate::sources::lemma_words_below_one(r, w, full_count(w));
        }
        return r;
    }
    crate::cold::cold_barrier();
    // Slow path, for fewer than 0.05% of the calls: that of f64_full.
    crate::pekkizen::full_slow_path(bits, u, z, Ghost(b0))
}

/// [`f64_round_down`] returns what [`crate::pekkizen::f64_full`] returns: on
/// the same words, two results that meet their contracts are equal.
pub proof fn law_round_down_is_full(w: spec_fn(nat) -> u64, r_down: u64, r_full: u64)
    requires
        rounds_down_all(r_down, prefix(w, full_count(w)), 64 * full_count(w)),
        rounds_down_all(r_full, prefix(w, full_count(w)), 64 * full_count(w)),
    ensures
        r_down == r_full,
{
    lemma_rounds_down_unique(r_down, r_full, prefix(w, full_count(w)), 64 * full_count(w));
}

} // verus!
