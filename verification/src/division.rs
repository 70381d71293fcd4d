//! Shift-and-scale conversion.
//!
//! The technique used by most language runtimes and libraries: take as many
//! bits as the target type has of precision (53 for `f64`, 24 for `f32`) and
//! scale them by the corresponding power of two. Every arithmetic step is
//! exact, so the result is equispaced: the 2⁵³ multiples of 2⁻⁵³ in [0 . . 1)
//! for `f64`, each with probability 2⁻⁵³.
//!
//! This is by far the cheapest conversion, but most representable floats never
//! occur: no nonzero value below 2⁻⁵³ can appear.
//!
//! Note that using a larger number of bits (e.g., 63) leads to a
//! nonuniform distribution because of the round-to-even of IEEE 754.
use crate::bits::{encode_scaled, lemma_leading_zeros};
use crate::encoding::{encodes_exactly, encodes_exactly32, hidden32, ulps32, F32_ONE, F64_ONE};
use crate::sources::{advanced, WordSource};
use vstd::arithmetic::power2::{lemma2_to64, lemma2_to64_rest, lemma_pow2_adds, pow2};
use vstd::prelude::*;
use vstd::std_specs::bits::u64_leading_zeros;

verus! {

/// A word below 2⁵³ has at least 11 leading zeros, so that shifting it to
/// its leading one leaves the low 11 bits zero.
proof fn lemma_narrow(m: u64)
    requires
        m != 0,
        m < 0x20_0000_0000_0000,
    ensures
        11 <= u64_leading_zeros(m) < 64,
        (m * pow2(u64_leading_zeros(m) as nat)) % 0x800 == 0,
        (m * pow2(u64_leading_zeros(m) as nat)) / 0x800 == m * pow2(
            (u64_leading_zeros(m) - 11) as nat,
        ),
{
    lemma_leading_zeros(m);
    lemma2_to64();
    lemma2_to64_rest();
    let l = u64_leading_zeros(m);
    if l < 11 {
        vstd::arithmetic::power2::lemma_pow2_strictly_increases(53, (63 - l) as nat);
    }
    lemma_pow2_adds(11, (l - 11) as nat);
    vstd::arithmetic::mul::lemma_mul_is_associative(
        m as int,
        pow2((l - 11) as nat) as int,
        0x800,
    );
    vstd::arithmetic::div_mod::lemma_mod_multiples_basic(
        (m * pow2((l - 11) as nat)) as int,
        0x800,
    );
    vstd::arithmetic::div_mod::lemma_div_by_multiple((m * pow2((l - 11) as nat)) as int, 0x800);
}

/// An exact encoding of a value below 1 is below the encoding of 1.
proof fn lemma_exact_below_one(r: u64, m: nat, k: nat)
    requires
        encodes_exactly(r, m, k),
        m < pow2(k),
    ensures
        r < F64_ONE,
{
    crate::encoding::lemma_ulps_next(r);
    vstd::arithmetic::power2::lemma_pow2_pos(crate::encoding::scale(r));
    vstd::arithmetic::power2::lemma_pow2_pos(k);
    vstd::arithmetic::mul::lemma_mul_strict_inequality(
        crate::encoding::ulps(r) as int,
        crate::encoding::ulps((r + 1) as u64) as int,
        pow2(k) as int,
    );
    crate::encoding::lemma_rounds_down_below_one(r, m, k);
}

/// Returns a random binary64 encoding uniform on the 2⁵³ multiples of 2⁻⁵³
/// in [0 . . 1): the top 53 bits of one word, scaled by 2⁻⁵³.
pub fn f64_53bits<S: WordSource>(bits: &mut S) -> (r: u64)
    ensures
        advanced(*old(bits), *final(bits), 1),
        encodes_exactly(r, old(bits).peek(0) as nat / pow2(11), 53),
        r < F64_ONE,
{
    let w = bits.next_u64();
    let m = w >> 11;
    proof {
        lemma2_to64();
        vstd::bits::lemma_u64_shr_is_div(w, 11);
        assert(m < 0x20_0000_0000_0000) by (bit_vector)
            requires
                m == w >> 11u64,
        ;
        if m != 0 {
            lemma_narrow(m);
        }
    }
    let r = encode_scaled(m, 53);
    proof {
        lemma2_to64_rest();
        lemma_exact_below_one(r, m as nat, 53);
    }
    r
}

/// The binary32 encoding of `m / 2²⁴` for `m < 2²⁴`: the product
/// `(m as f32) * 2⁻²⁴`, which is exact.
fn encode_24(m: u32) -> (r: u32)
    requires
        m < 0x100_0000,
    ensures
        encodes_exactly32(r, m as nat, 24),
        r < F32_ONE,
{
    if m == 0 {
        proof {
            lemma2_to64();
            vstd::arithmetic::mul::lemma_mul_basics(pow2(24) as int);
        }
        return 0;
    }
    let l = (m as u64).leading_zeros() as u64;
    proof {
        lemma_leading_zeros(m as u64);
        lemma2_to64();
        lemma2_to64_rest();
        if l < 40 {
            vstd::arithmetic::power2::lemma_pow2_strictly_increases(24, (63 - l) as nat);
        }
        // m · 2ˡ does not overflow
        let p = (63 - l) as nat;
        lemma_pow2_adds(p + 1, l as nat);
        vstd::arithmetic::power2::lemma_pow2_pos(l as nat);
        vstd::arithmetic::mul::lemma_mul_strict_inequality(
            m as int,
            pow2(p + 1) as int,
            pow2(l as nat) as int,
        );
        vstd::bits::lemma_u64_shl_is_mul(m as u64, l);
        lemma_pow2_adds(p, l as nat);
        vstd::arithmetic::mul::lemma_mul_inequality(
            pow2(p) as int,
            m as int,
            pow2(l as nat) as int,
        );
    }
    let v = (m as u64) << l;
    let e = 166 - l;
    let r = ((e << 23) | ((v << 1) >> 41)) as u32;
    proof {
        assert(v >= 0x8000_0000_0000_0000);
        // v has the leading one on top and its low 40 bits zero
        lemma_pow2_adds(40, (l - 40) as nat);
        vstd::arithmetic::mul::lemma_mul_is_associative(
            m as int,
            pow2((l - 40) as nat) as int,
            pow2(40) as int,
        );
        let q = (m * pow2((l - 40) as nat)) as nat;
        assert(v as nat == q * pow2(40));
        assert(0x80_0000 <= q < 0x100_0000) by {
            vstd::arithmetic::mul::lemma_mul_strict_inequality(
                q as int,
                0x100_0000,
                pow2(40) as int,
            );
            if q < 0x80_0000 {
                vstd::arithmetic::mul::lemma_mul_strict_inequality(
                    q as int,
                    0x80_0000,
                    pow2(40) as int,
                );
            }
        }
        assert(r == e * 0x80_0000 + (v - 0x8000_0000_0000_0000) / 0x100_0000_0000) by (bit_vector)
            requires
                1 <= e <= 126,
                v >= 0x8000_0000_0000_0000,
                r == ((e << 23) | ((v << 1) >> 41)) as u32,
        ;
        vstd::arithmetic::div_mod::lemma_div_by_multiple(q as int, pow2(40) as int);
        let f = (q - 0x80_0000) as nat;
        assert(r as nat == e * hidden32() + f);
        vstd::arithmetic::div_mod::lemma_fundamental_div_mod_converse(
            r as int,
            hidden32() as int,
            e as int,
            f as int,
        );
        assert(ulps32(r) == q * pow2((e - 1) as nat));
        // ulps32(r) · 2²⁴ == q · 2^(e - 1 + 24) == m · 2^(l - 40 + 189 - l) == m · 2¹⁴⁹
        crate::encoding::lemma_mul_pow2_pow2(q, (e - 1) as nat, 24);
        crate::encoding::lemma_mul_pow2_pow2(m as nat, (l - 40) as nat, (189 - l) as nat);
        assert((e - 1) as nat + 24 == (189 - l) as nat);
        assert((l - 40) as nat + (189 - l) as nat == 149);
    }
    r
}

/// Returns a random binary32 encoding uniform on the 2²⁴ multiples of 2⁻²⁴
/// in [0 . . 1): the top 24 bits of one word, scaled by 2⁻²⁴.
pub fn f32_24bits<S: WordSource>(bits: &mut S) -> (r: u32)
    ensures
        advanced(*old(bits), *final(bits), 1),
        encodes_exactly32(r, old(bits).peek(0) as nat / pow2(40), 24),
        r < F32_ONE,
{
    let w = bits.next_u64();
    proof {
        lemma2_to64();
        lemma2_to64_rest();
        vstd::bits::lemma_u64_shr_is_div(w, 40);
        assert(w >> 40u64 < 0x100_0000) by (bit_vector);
    }
    encode_24((w >> 40) as u32)
}

} // verus!
