//! Pekka Pulkkinen's leading-zeros technique.
//!
//! One 64-bit word is read as a uniform fixed-point real in [0 . . 1): the
//! count of leading zeros picks the binade (a geometric distribution), and the
//! remaining bits are shifted into the significand. The three variants differ
//! in how far down the fixed point extends:
//!
//! - [`f64_64`] stops at the first word: a uniform real rounded down to the
//!   2⁻⁶⁴ grid, complete (every float reachable) in [2⁻¹² . . 1);
//! - [`f64_117`] reads a second word when the first has 12 or more leading
//!   zeros (probability 2⁻¹²), extending completeness to [2⁻⁶⁵ . . 1) with a
//!   2⁻¹¹⁷ grid below;
//! - [`f64_full`] keeps reading words while they are zero, reaching every
//!   float in [0 . . 1), subnormals included.
//!
//! All variants consume one word per call with probability 1 − 2⁻¹².
//! Results are binary64 encodings (see [`crate::encoding`]).
use crate::bits::{
    lemma_div_div, lemma_div_shift, lemma_floor_div, lemma_join_words, lemma_leading_zeros,
    lemma_pack_normal, lemma_subnormal,
};
use crate::encoding::{
    encodes_exactly, hidden64, lemma_rounds_down_all_window, lemma_rounds_down_window,
    rounds_down, rounds_down_all, scale, significand, ulps, F64_ONE,
};
use crate::sources::{advanced, first_nonzero, prefix, words, WordSource};
use vstd::arithmetic::power2::{lemma2_to64, lemma2_to64_rest, lemma_pow2_adds, pow2};
use vstd::bits::lemma_u64_shl_is_mul;
use vstd::prelude::*;
use vstd::std_specs::bits::u64_leading_zeros;

verus! {

/// The top bits of a nonzero word, from its leading one on: `u << lz(u)`.
pub(crate) proof fn lemma_normalize(u: u64)
    requires
        u != 0,
    ensures
        0 <= u64_leading_zeros(u) < 64,
        (u << (u64_leading_zeros(u) as u64)) as nat == u * pow2(u64_leading_zeros(u) as nat),
        (u << (u64_leading_zeros(u) as u64)) >= 0x8000_0000_0000_0000,
{
    lemma_leading_zeros(u);
    let l = u64_leading_zeros(u) as nat;
    let p = (63 - l) as nat;
    lemma_pow2_adds(p, l);
    lemma_pow2_adds(p + 1, l);
    lemma2_to64_rest();
    vstd::arithmetic::mul::lemma_mul_strict_inequality(
        u as int,
        pow2(p + 1) as int,
        pow2(l) as int,
    );
    vstd::arithmetic::mul::lemma_mul_inequality(pow2(p) as int, u as int, pow2(l) as int);
    lemma_u64_shl_is_mul(u, l as u64);
}

/// The encoding built by the fast path from a nonzero word `u` with `l`
/// leading zeros: biased exponent `1022 - l`, significand the 53 bits from
/// the leading one on.
proof fn lemma_fast_path(u: u64)
    requires
        u != 0,
    ensures
        ({
            let l = u64_leading_zeros(u) as u64;
            let r = (((1022 - l) as u64) << 52) | (((u << l) << 1) >> 12);
            &&& rounds_down(r, u as nat, 64)
            &&& significand(r) == (u as nat) / pow2((11 - l) as nat) || l > 11
            &&& scale(r) == 1021 - l
            &&& l <= 11 ==> rounds_down_all(r, u as nat, 64)
            &&& l >= 11 ==> encodes_exactly(r, u as nat, 64)
        }),
{
    lemma_normalize(u);
    let l = u64_leading_zeros(u) as u64;
    let v = u << l;
    lemma_pack_normal((1022 - l) as u64, v);
    let r = (((1022 - l) as u64) << 52) | ((v << 1) >> 12);
    lemma2_to64();
    lemma_floor_div(v as nat, 0x800);
    assert(pow2(11) == 0x800);
    lemma_rounds_down_window(r, u as nat, 64, 11, l as nat);
    if l >= 11 {
        // the low 11 bits of v are zero: the significand is exact
        let sig = significand(r);
        lemma_pow2_adds(11, (l - 11) as nat);
        vstd::arithmetic::mul::lemma_mul_is_associative(
            u as int,
            pow2((l - 11) as nat) as int,
            0x800,
        );
        vstd::arithmetic::div_mod::lemma_div_by_multiple((u * pow2((l - 11) as nat)) as int, 0x800);
        assert(sig * 0x800 == v);
        crate::encoding::lemma_mul_pow2_pow2(sig, (1021 - l) as nat, 64);
        crate::encoding::lemma_mul_pow2_pow2(sig, 11, (1074 - l) as nat);
        crate::encoding::lemma_mul_pow2_pow2(u as nat, l as nat, (1074 - l) as nat);
        assert((1021 - l) as nat + 64 == 11 + (1074 - l) as nat);
    }
    if l <= 11 {
        // significand == (u · 2ˡ) / 2¹¹ == u / 2¹¹⁻ˡ
        let m = (11 - l) as nat;
        lemma_pow2_adds(l as nat, m);
        vstd::arithmetic::mul::lemma_mul_is_commutative(u as int, pow2(l as nat) as int);
        vstd::arithmetic::div_mod::lemma_div_multiples_vanish_quotient(
            pow2(l as nat) as int,
            u as int,
            pow2(m) as int,
        );
        lemma_floor_div(u as nat, pow2(m));
        vstd::arithmetic::power2::lemma_pow2_pos(m);
        vstd::arithmetic::mul::lemma_mul_basics(u as int);
        lemma2_to64();
        lemma_rounds_down_all_window(r, u as nat, 64, m, 0);
    }
}

/// Returns a random binary64 encoding distributed as a uniform 64-bit
/// fixed-point real in [0 . . 1) rounded down to the nearest representable
/// value: every float in [2⁻¹² . . 1), and the 2⁵² multiples of 2⁻⁶⁴ below
/// 2⁻¹². Reads one word `u`, and returns `u / 2⁶⁴` rounded down.
pub fn f64_64<S: WordSource>(bits: &mut S) -> (r: u64)
    ensures
        advanced(*old(bits), *final(bits), 1),
        rounds_down(r, old(bits).peek(0) as nat, 64),
        r < F64_ONE,
{
    let u = bits.next_u64();
    if u == 0 {
        proof {
            lemma2_to64();
            crate::encoding::lemma_ulps_next(0);
            lemma_subnormal(0);
            lemma_subnormal(1);
        }
        return 0;
    }
    let z = u.leading_zeros() as u64 + 1;
    proof {
        lemma_leading_zeros(u);
        lemma_fast_path(u);
        assert(z - 1 == u64_leading_zeros(u));
        assert(1023 - z == 1022 - (z - 1));
    }
    // The shift is split as `(u << (z - 1)) << 1` because z can be 64.
    let r = ((1023 - z) << 52) | (((u << (z - 1)) << 1) >> 12);
    proof {
        lemma2_to64_rest();
        crate::encoding::lemma_rounds_down_below_one(r, u as nat, 64);
    }
    r
}

/// The 117-bit fixed-point number formed by the first two words of `w`: the
/// top 117 of their 128 bits.
pub open spec fn fixed117(w: spec_fn(nat) -> u64) -> nat {
    prefix(w, 2) / pow2(11)
}

/// The number of words [`f64_117`] reads when the first one is `w0`.
pub open spec fn count117(w0: u64) -> nat {
    if u64_leading_zeros(w0) <= 11 {
        1
    } else {
        2
    }
}

/// An exact encoding is its own rounding down.
proof fn lemma_exact_rounds_down(r: u64, m: nat, k: nat)
    requires
        encodes_exactly(r, m, k),
    ensures
        rounds_down(r, m, k),
{
    crate::encoding::lemma_ulps_next(r);
    vstd::arithmetic::power2::lemma_pow2_pos(scale(r));
    vstd::arithmetic::power2::lemma_pow2_pos(k);
    vstd::arithmetic::mul::lemma_mul_strict_inequality(
        ulps(r) as int,
        ulps((r + 1) as u64) as int,
        pow2(k) as int,
    );
}

/// Returns a random binary64 encoding distributed as a uniform 117-bit
/// fixed-point real in [0 . . 1) rounded down to the nearest representable
/// value: every float in [2⁻⁶⁵ . . 1), and the multiples of 2⁻¹¹⁷ below
/// 2⁻⁶⁵.
///
/// As [`f64_64`], except that when the first word has 12 or more leading
/// zeros (probability 2⁻¹²) a second word extends the fixed point to 117
/// bits. The result is the 117-bit fixed-point number of the first two words
/// rounded down, whether the second one was read or not.
pub fn f64_117<S: WordSource>(bits: &mut S) -> (r: u64)
    ensures
        advanced(*old(bits), *final(bits), count117(old(bits).peek(0))),
        rounds_down(r, fixed117(words(*old(bits))), 117),
        r < F64_ONE,
{
    let ghost w = words(*bits);
    let u = bits.next_u64();
    let z = u.leading_zeros() as u64 + 1;
    proof {
        lemma_leading_zeros(u);
        crate::sources::lemma_prefix_short(w);
        lemma2_to64();
        lemma2_to64_rest();
    }
    let ghost x = prefix(w, 2);
    let ghost xf = fixed117(w);
    proof {
        // the 117-bit number is below 2¹¹⁷
        crate::sources::lemma_prefix_bound(w, 2);
        lemma_pow2_adds(117, 11);
        vstd::arithmetic::power2::lemma_pow2_pos(11);
        lemma_floor_div(x, pow2(11));
        if xf >= pow2(117) {
            vstd::arithmetic::mul::lemma_mul_inequality(
                pow2(117) as int,
                xf as int,
                pow2(11) as int,
            );
        }
        assert(xf < pow2(117));
    }
    if z <= 12 {
        // 99.975% of cases.
        let r = ((1023 - z) << 52) | (((u << (z - 1)) << 1) >> 12);
        proof {
            let l = (z - 1) as nat;
            lemma_fast_path(u);
            // significand == u / 2¹¹⁻ˡ == x / 2⁷⁵⁻ˡ == xf / 2⁶⁴⁻ˡ
            lemma_div_shift(u as nat, w(1) as nat, 64, (11 - l) as nat);
            lemma_div_div(x, 11, (64 - l) as nat);
            lemma_floor_div(xf, pow2((64 - l) as nat));
            vstd::arithmetic::power2::lemma_pow2_pos((64 - l) as nat);
            vstd::arithmetic::mul::lemma_mul_basics(xf as int);
            vstd::arithmetic::mul::lemma_mul_basics((significand(r) + 1) as int);
            assert(1023 - z == 1022 - (z - 1));
            lemma_rounds_down_window(
                r,
                xf,
                117,
                (64 - l) as nat,
                0,
            );
        }
        proof {
            crate::encoding::lemma_rounds_down_below_one(r, xf, 117);
        }
        return r;
    }
    crate::cold::cold_barrier();
    let z = z - 1;
    // The shift of the first word is 0 when that word is 0 (z = 64).
    let hi = if z < 64 {
        u << z
    } else {
        0
    };
    let next = bits.next_u64();
    let lo = next >> (64 - z);
    let u = hi | lo;
    let m = u >> 11;
    proof {
        vstd::bits::lemma_u64_shr_is_div(u, 11);
        if z < 64 {
            // u is the 64-bit window of x starting at the leading one
            lemma_join_words(w(0), w(1), z);
            assert(u as nat == x / pow2((64 - z) as nat));
            lemma_normalize(w(0));
            assert(hi >= 0x8000_0000_0000_0000);
            assert(u >= 0x8000_0000_0000_0000) by (bit_vector)
                requires
                    hi >= 0x8000_0000_0000_0000,
                    u == hi | lo,
            ;
            // m == x / 2⁷⁵⁻ᶻ == xf / 2⁶⁴⁻ᶻ lies in [2⁵² . . 2⁵³): 11 leading zeros
            lemma_div_div(x, (64 - z) as nat, 11);
            lemma_div_div(x, 11, (64 - z) as nat);
            assert(m as nat == xf / pow2((64 - z) as nat));
            assert(0x10_0000_0000_0000 <= m < 0x20_0000_0000_0000);
            lemma_leading_zeros(m);
            if u64_leading_zeros(m) < 11 {
                vstd::arithmetic::power2::lemma_pow2_strictly_increases(
                    53,
                    (63 - u64_leading_zeros(m)) as nat,
                );
            }
            if u64_leading_zeros(m) > 11 {
                vstd::arithmetic::power2::lemma_pow2_strictly_increases(
                    (64 - u64_leading_zeros(m)) as nat,
                    52,
                );
            }
            assert(u64_leading_zeros(m) == 11);
            vstd::arithmetic::mul::lemma_mul_is_commutative(m as int, 0x800);
            vstd::arithmetic::div_mod::lemma_mod_multiples_basic(m as int, 0x800);
            vstd::arithmetic::div_mod::lemma_div_by_multiple(m as int, 0x800);
        } else {
            assert(hi == 0);
            assert(next == w(1));
            assert(lo == next) by (bit_vector)
                requires
                    lo == next >> 0u64,
            ;
            assert(u == lo) by (bit_vector)
                requires
                    hi == 0,
                    u == hi | lo,
            ;
            assert(x == w(1));
            if m != 0 {
                lemma_leading_zeros(m);
                lemma_normalize(m);
                if u64_leading_zeros(m) < 11 {
                    vstd::arithmetic::power2::lemma_pow2_strictly_increases(
                        53,
                        (63 - u64_leading_zeros(m)) as nat,
                    );
                }
                let l = u64_leading_zeros(m) as nat;
                lemma_pow2_adds(11, (l - 11) as nat);
                vstd::arithmetic::mul::lemma_mul_is_associative(
                    m as int,
                    pow2((l - 11) as nat) as int,
                    0x800,
                );
                vstd::arithmetic::div_mod::lemma_mod_multiples_basic(
                    (m * pow2((l - 11) as nat)) as int,
                    0x800,
                );
            }
        }
    }
    let r = crate::bits::encode_scaled(m, 53 + z);
    proof {
        if z < 64 {
            // significand(r) == m, and m == xf / 2⁶⁴⁻ᶻ
            lemma_floor_div(xf, pow2((64 - z) as nat));
            vstd::arithmetic::power2::lemma_pow2_pos((64 - z) as nat);
            vstd::arithmetic::mul::lemma_mul_basics(xf as int);
            vstd::arithmetic::mul::lemma_mul_basics((m + 1) as int);
            lemma_rounds_down_window(r, xf, 117, (64 - z) as nat, 0);
        } else {
            lemma_exact_rounds_down(r, m as nat, 117);
        }
        crate::encoding::lemma_rounds_down_below_one(r, xf, 117);
    }
    r
}

/// The number of words [`f64_full`] reads from `w`: one when the first word
/// has at most 11 leading zeros; otherwise the run of zero words, the first
/// nonzero word, and the word after it, except that the reading stops (and
/// the result is 0) as soon as 1074 leading zero bits have been read.
pub open spec fn full_count(w: spec_fn(nat) -> u64) -> nat {
    let j = first_nonzero(w, 0, 17);
    if u64_leading_zeros(w(0)) <= 11 {
        1
    } else if j == 0 {
        2
    } else if j >= 17 {
        17
    } else if 64 * j + u64_leading_zeros(w(j)) >= 1074 {
        j + 1
    } else {
        j + 2
    }
}

/// A number below 2⁶⁴⁻ᶻ that follows at least 1074 - 64 + z zero bits
/// rounds down to 0, whatever follows it.
pub(crate) proof fn lemma_rounds_to_zero(x: nat, z: nat, k: nat)
    requires
        z <= 64,
        x < pow2((64 - z) as nat),
        1074 + 64 <= k + z,
    ensures
        rounds_down_all(0, x, k),
{
    crate::encoding::lemma_ulps_next(0);
    lemma_subnormal(0);
    lemma2_to64();
    vstd::arithmetic::mul::lemma_mul_basics(pow2(k) as int);
    vstd::arithmetic::mul::lemma_mul_basics(pow2(1074) as int);
    vstd::arithmetic::power2::lemma_pow2_pos(1074);
    vstd::arithmetic::power2::lemma_pow2_pos(k);
    vstd::arithmetic::mul::lemma_mul_inequality(
        (x + 1) as int,
        pow2((64 - z) as nat) as int,
        pow2(1074) as int,
    );
    lemma_pow2_adds((64 - z) as nat, 1074);
    if (64 - z) as nat + 1074 < k {
        vstd::arithmetic::power2::lemma_pow2_strictly_increases((64 - z) as nat + 1074, k);
    }
    vstd::arithmetic::mul::lemma_mul_strict_inequality(x as int, (x + 1) as int, pow2(
        1074,
    ) as int);
}

/// The slow path of [`f64_full`], once the first word `u`, with `z ≥ 12`
/// leading zeros, has been read from the source `b0`: the zero words are
/// read into the exponent, then the 64 bits from the first 1 on are
/// rounded down, down to the subnormals.
pub(crate) fn full_slow_path<S: WordSource>(bits: &mut S, u: u64, z: u64, Ghost(b0): Ghost<S>) -> (r: u64)
    requires
        advanced(b0, *old(bits), 1),
        u == b0.peek(0),
        z == u64_leading_zeros(u),
        z >= 12,
    ensures
        advanced(b0, *final(bits), full_count(words(b0))),
        rounds_down_all(
            r,
            prefix(words(b0), full_count(words(b0))),
            64 * full_count(words(b0)),
        ),
        r < F64_ONE,
{
    let ghost w = words(b0);
    let mut u = u;
    let mut z = z;
    proof {
        lemma_leading_zeros(u);
        crate::sources::lemma_prefix_short(w);
        lemma2_to64();
        lemma2_to64_rest();
        crate::sources::lemma_first_nonzero(w, 0, 17);
    }
    let mut exp = 0u64;
    let ghost mut n: nat = 1;
    proof {
        assert(prefix(w, 0) == 0);
    }
    while u == 0
        invariant
            1 <= n <= 17,
            u == 0 ==> n <= 16,
            exp == 64 * (n - 1),
            exp + z < 1074,
            advanced(b0, *bits, n),
            w == words(b0),
            u == w((n - 1) as nat),
            z == u64_leading_zeros(u),
            first_nonzero(w, 0, 17) == first_nonzero(w, (n - 1) as nat, 17),
            prefix(w, (n - 1) as nat) == 0,
            u64_leading_zeros(w(0)) >= 12,
        decreases 17 - n,
    {
        let ghost i = n;
        u = bits.next_u64();
        z = u.leading_zeros() as u64;
        exp += 64;
        proof {
            n = n + 1;
            lemma_leading_zeros(u);
            assert(prefix(w, i) == 0) by {
                vstd::arithmetic::mul::lemma_mul_basics(pow2(64) as int);
            }
            assert(first_nonzero(w, (i - 1) as nat, 17) == first_nonzero(w, i, 17));
        }
        if exp + z >= 1074 {
            proof {
                // the words read so far are zeros, then u: they round to 0
                assert(prefix(w, n) == u) by {
                    vstd::arithmetic::mul::lemma_mul_basics(pow2(64) as int);
                }
                crate::sources::lemma_first_nonzero(w, i, 17);
                if u == 0 {
                    assert(first_nonzero(w, i + 1, 17) == 17);
                }
                assert(full_count(w) == n);
                lemma_rounds_to_zero(u as nat, z as nat, 64 * n);
            }
            return 0;
        }
    }
    let ghost j = (n - 1) as nat;
    let next = bits.next_u64();
    let low = if z == 0 {
        0
    } else {
        next >> (64 - z)
    };
    let ghost u0: u64 = u;
    let hi = u << z;
    let u = hi | low;
    exp += z;
    let ghost x = prefix(w, j + 2);
    proof {
        crate::sources::lemma_first_nonzero(w, j, 17);
        assert(full_count(w) == j + 2);
        assert(next == w(j + 1));
        assert(prefix(w, j + 1) == w(j)) by {
            vstd::arithmetic::mul::lemma_mul_basics(pow2(64) as int);
        }
        assert(x == prefix(w, j + 1) * pow2(64) + w(j + 1));
        lemma_leading_zeros(u0);
        lemma_normalize(w(j));
        // u is the 64-bit window of x starting at its leading one
        if z == 0 {
            assert(u == u0) by (bit_vector)
                requires
                    hi == u0 << 0u64,
                    u == hi | low,
                    low == 0,
            ;
            lemma_div_shift(w(j) as nat, next as nat, 64, 0);
        } else {
            lemma_join_words(w(j), next, z);
        }
        assert(u as nat == x / pow2((64 - z) as nat));
        assert(u >= 0x8000_0000_0000_0000) by (bit_vector)
            requires
                hi >= 0x8000_0000_0000_0000,
                u == hi | low,
        ;
    }
    if exp < 1022 {
        let r = ((1022 - exp) << 52) | ((u << 1) >> 12);
        proof {
            lemma_pack_normal((1022 - exp) as u64, u);
            // significand == u / 2¹¹ == x / 2⁷⁵⁻ᶻ
            lemma_div_div(x, (64 - z) as nat, 11);
            vstd::arithmetic::power2::lemma_pow2_pos((75 - z) as nat);
            lemma_floor_div(x, pow2((75 - z) as nat));
            vstd::arithmetic::mul::lemma_mul_basics(x as int);
            vstd::arithmetic::mul::lemma_mul_basics((x + 1) as int);
            lemma_rounds_down_all_window(r, x, 64 * (j + 2), (75 - z) as nat, 0);
        }
        proof {
            crate::sources::lemma_words_below_one(r, w, full_count(w));
        }
        return r;
    }
    // The 2⁵² subnormal floats.
    let sh = exp - 1022;
    let r = (u >> sh) >> 12;
    proof {
        let s = sh as nat;
        vstd::bits::lemma_u64_shr_is_div(u, sh);
        vstd::bits::lemma_u64_shr_is_div(u >> sh, 12);
        lemma_div_div(u as nat, s, 12);
        lemma_div_div(x, (64 - z) as nat, s + 12);
        assert(r < 0x10_0000_0000_0000) by (bit_vector)
            requires
                r == (u >> sh) >> 12u64,
        ;
        lemma_subnormal(r);
        let a = (64 - z + s + 12) as nat;
        vstd::arithmetic::power2::lemma_pow2_pos(a);
        lemma_floor_div(x, pow2(a));
        vstd::arithmetic::mul::lemma_mul_basics(x as int);
        vstd::arithmetic::mul::lemma_mul_basics((x + 1) as int);
        lemma_rounds_down_all_window(r, x, 64 * (j + 2), a, 0);
    }
    proof {
        crate::sources::lemma_words_below_one(r, w, full_count(w));
    }
    r
}

/// Returns a random binary64 encoding distributed as a uniform real in
/// [0 . . 1) rounded down to the nearest representable value: every float in
/// [0 . . 1) is reachable, subnormals and 0 included, with probability equal
/// to the measure of the reals that round down to it.
///
/// The words are the binary expansion of the real. The result is the
/// rounding down of every real whose expansion begins with the words read,
/// so it is the rounding down of the real itself, whatever the words that
/// were not read.
pub fn f64_full<S: WordSource>(bits: &mut S) -> (r: u64)
    ensures
        advanced(*old(bits), *final(bits), full_count(words(*old(bits)))),
        rounds_down_all(
            r,
            prefix(words(*old(bits)), full_count(words(*old(bits)))),
            64 * full_count(words(*old(bits))),
        ),
        r < F64_ONE,
{
    let ghost b0 = *bits;
    let ghost w = words(*bits);
    let mut u = bits.next_u64();
    let mut z = u.leading_zeros() as u64 + 1;
    proof {
        lemma_leading_zeros(u);
        crate::sources::lemma_prefix_short(w);
        lemma2_to64();
        lemma2_to64_rest();
        crate::sources::lemma_first_nonzero(w, 0, 17);
    }
    if z <= 12 {
        // 99.975% of cases.
        let r = ((1023 - z) << 52) | (((u << (z - 1)) << 1) >> 12);
        proof {
            lemma_fast_path(u);
            assert(1023 - z == 1022 - (z - 1));
        }
        proof {
            crate::sources::lemma_words_below_one(r, w, full_count(w));
        }
        return r;
    }
    crate::cold::cold_barrier();
    z -= 1;
    full_slow_path(bits, u, z, Ghost(b0))
}

/// The encoding of 2⁻¹².
pub const F64_TWO_M12: u64 = 0x3F30_0000_0000_0000;

/// The value of an encoding below 1, in units of 2⁻¹⁰⁷⁴, is below 2¹⁰⁷⁴.
proof fn lemma_ulps_below_one(r: u64)
    requires
        r < F64_ONE,
    ensures
        ulps(r) < pow2(1074),
{
    crate::encoding::lemma_ulps_monotone(r, F64_ONE);
    crate::encoding::lemma_fields(F64_ONE, 1023, 0);
    lemma_pow2_adds(52, 1022);
    lemma2_to64();
    lemma2_to64_rest();
}

/// Every float in [2⁻¹² . . 1) is a result of [`f64_64`]: it is the value of
/// a 64-bit fixed-point word, which rounds down to it.
pub proof fn law_f64_64_complete(r: u64) -> (u: u64)
    requires
        F64_TWO_M12 <= r < F64_ONE,
    ensures
        rounds_down(r, u as nat, 64),
{
    let e = crate::encoding::exp_field(r);
    let f = crate::encoding::frac_field(r);
    vstd::arithmetic::div_mod::lemma_fundamental_div_mod(r as int, hidden64() as int);
    assert(1011 <= e <= 1022);
    let sig = significand(r);
    let p = (e - 1011) as nat;
    lemma2_to64();
    lemma2_to64_rest();
    // u = sig · 2ᵉ⁻¹⁰¹¹ < 2⁵³ · 2¹¹
    lemma_pow2_adds(53, p);
    if p < 11 {
        vstd::arithmetic::power2::lemma_pow2_strictly_increases(53 + p, 64);
    }
    vstd::arithmetic::power2::lemma_pow2_pos(p);
    vstd::arithmetic::mul::lemma_mul_strict_inequality(sig as int, pow2(53) as int, pow2(p) as int);
    let u = (sig * pow2(p)) as u64;
    // u · 2¹⁰⁷⁴ == sig · 2^(e - 1 + 64) == ulps(r) · 2⁶⁴
    crate::encoding::lemma_mul_pow2_pow2(sig, p, 1074);
    crate::encoding::lemma_mul_pow2_pow2(sig, (e - 1) as nat, 64);
    assert(p + 1074 == (e - 1) as nat + 64);
    lemma_exact_rounds_down(r, u as nat, 64);
    u
}

/// Rounding down every real of an interval rounds down each real of it: a
/// longer expansion that begins with the same `x` rounds down to the same
/// encoding.
proof fn lemma_rounds_down_extend(r: u64, x: nat, k: nat, y: nat, m: nat)
    requires
        rounds_down_all(r, x, k),
        x * pow2(m) <= y,
        y < (x + 1) * pow2(m),
    ensures
        rounds_down(r, y, k + m),
{
    let p = pow2(1074);
    vstd::arithmetic::power2::lemma_pow2_pos(m);
    vstd::arithmetic::power2::lemma_pow2_pos(1074);
    crate::encoding::lemma_scale_le(ulps(r), k, x, 1074, m);
    crate::encoding::lemma_scale_le(x + 1, 1074, ulps((r + 1) as u64), k, m);
    crate::encoding::lemma_mul_pow2_pow2(x, m, 1074);
    crate::encoding::lemma_mul_pow2_pow2(x + 1, m, 1074);
    crate::encoding::lemma_mul_pow2_pow2(x, 1074, m);
    crate::encoding::lemma_mul_pow2_pow2(x + 1, 1074, m);
    vstd::arithmetic::mul::lemma_mul_inequality((x * pow2(m)) as int, y as int, p as int);
    vstd::arithmetic::mul::lemma_mul_strict_inequality(y as int, ((x + 1) * pow2(m)) as int, p as int);
}

/// The 18-word binary expansion of the value of an encoding below 1.
pub open spec fn expansion_of(r: u64) -> spec_fn(nat) -> u64 {
    crate::sources::expansion(ulps(r) * pow2(78), 18)
}

/// Every float in [0 . . 1) is a result of [`f64_full`], subnormals and 0
/// included: on the binary expansion of its value, every result that meets
/// the contract of [`f64_full`] is that float.
pub proof fn law_f64_full_complete(r: u64, r_full: u64)
    requires
        r < F64_ONE,
        rounds_down_all(
            r_full,
            prefix(expansion_of(r), full_count(expansion_of(r))),
            64 * full_count(expansion_of(r)),
        ),
    ensures
        r_full == r,
{
    let w = expansion_of(r);
    let x = ulps(r) * pow2(78);
    let c = full_count(w);
    lemma_ulps_below_one(r);
    lemma_pow2_adds(1074, 78);
    vstd::arithmetic::power2::lemma_pow2_pos(78);
    vstd::arithmetic::mul::lemma_mul_strict_inequality(ulps(r) as int, pow2(1074) as int, pow2(78) as int);
    assert(x < pow2(64 * 18));
    crate::sources::lemma_first_nonzero(w, 0, 17);
    assert(c <= 18);
    let m = (64 * (18 - c)) as nat;
    crate::sources::lemma_expansion_prefix(x, 18, c);
    vstd::arithmetic::power2::lemma_pow2_pos(m);
    crate::bits::lemma_floor_div(x, pow2(m));
    vstd::arithmetic::mul::lemma_mul_is_commutative((x / pow2(m)) as int, pow2(m) as int);
    lemma_rounds_down_extend(r_full, prefix(w, c), 64 * c, x, m);
    assert(64 * c + m == 1152);
    // r itself is the exact value x / 2¹¹⁵²
    crate::encoding::lemma_mul_pow2_pow2(ulps(r), 78, 1074);
    crate::encoding::lemma_mul_pow2_pow2(ulps(r), 1074, 78);
    lemma_exact_rounds_down(r, x, 1152);
    crate::encoding::lemma_rounds_down_unique(r_full, r, x, 1152);
}

/// The encoding of 2⁻⁶⁵.
pub const F64_TWO_M65: u64 = 0x3BE0_0000_0000_0000;

/// Two words whose 117-bit fixed-point number is the value of an encoding in
/// [2⁻⁶⁵ . . 1).
pub open spec fn expansion117_of(r: u64) -> spec_fn(nat) -> u64 {
    crate::sources::expansion(ulps(r) / pow2(946), 2)
}

/// Every float in [2⁻⁶⁵ . . 1) is a result of [`f64_117`]: on two words
/// whose 117-bit fixed-point number is its value, every result that meets
/// the contract of [`f64_117`] is that float.
pub proof fn law_f64_117_complete(r: u64, r_117: u64)
    requires
        F64_TWO_M65 <= r < F64_ONE,
        rounds_down(r_117, fixed117(expansion117_of(r)), 117),
    ensures
        r_117 == r,
{
    let e = crate::encoding::exp_field(r);
    vstd::arithmetic::div_mod::lemma_fundamental_div_mod(r as int, hidden64() as int);
    assert(958 <= e <= 1022);
    let sig = significand(r);
    lemma2_to64();
    lemma2_to64_rest();
    // ulps(r) == sig · 2^(e - 1) == (sig · 2^(e - 958)) · 2¹¹ · 2⁹⁴⁶
    let q = sig * pow2((e - 958) as nat);
    crate::encoding::lemma_mul_pow2_pow2(sig, (e - 958) as nat, 11);
    crate::encoding::lemma_mul_pow2_pow2(sig, (e - 947) as nat, 946);
    crate::encoding::lemma_mul_pow2_pow2(q, 11, 946);
    assert((e - 947) as nat + 946 == (e - 1) as nat);
    assert((e - 958) as nat + 11 == (e - 947) as nat);
    let x = q * pow2(11);
    vstd::arithmetic::power2::lemma_pow2_pos(946);
    vstd::arithmetic::div_mod::lemma_div_by_multiple(x as int, pow2(946) as int);
    assert(ulps(r) / pow2(946) == x);
    // x < 2¹²⁸
    lemma_ulps_below_one(r);
    vstd::arithmetic::power2::lemma_pow2_pos(11);
    lemma_pow2_adds(128, 946);
    if x >= pow2(128) {
        vstd::arithmetic::mul::lemma_mul_inequality(pow2(128) as int, x as int, pow2(946) as int);
    }
    assert(x < pow2(64 * 2));
    crate::sources::lemma_expansion_prefix(x, 2, 2);
    assert(pow2(0) == 1);
    assert(expansion117_of(r) == crate::sources::expansion(x, 2));
    assert(prefix(expansion117_of(r), 2) == x / pow2(0));
    vstd::arithmetic::div_mod::lemma_div_by_multiple(x as int, 1);
    vstd::arithmetic::mul::lemma_mul_basics(x as int);
    assert(prefix(expansion117_of(r), 2) == x);
    assert(fixed117(expansion117_of(r)) == q) by {
        vstd::arithmetic::div_mod::lemma_div_by_multiple(q as int, pow2(11) as int);
    }
    // q · 2¹⁰⁷⁴ == ulps(r) · 2¹¹⁷
    crate::encoding::lemma_mul_pow2_pow2(sig, (e - 958) as nat, 1074);
    crate::encoding::lemma_mul_pow2_pow2(sig, (e - 1) as nat, 117);
    assert((e - 958) as nat + 1074 == (e - 1) as nat + 117);
    lemma_exact_rounds_down(r, q, 117);
    crate::encoding::lemma_rounds_down_unique(r_117, r, q, 117);
}

/// Below 2⁻¹², the results of [`f64_64`] are the multiples of 2⁻⁶⁴: a word
/// below 2⁵² rounds down to its exact value `u / 2⁶⁴`.
pub proof fn law_f64_64_exact_below(u: u64, r: u64)
    requires
        rounds_down(r, u as nat, 64),
        (u as nat) < 0x10_0000_0000_0000,
    ensures
        encodes_exactly(r, u as nat, 64),
{
    if u == 0 {
        vstd::arithmetic::mul::lemma_mul_basics(pow2(1074) as int);
        vstd::arithmetic::power2::lemma_pow2_pos(64);
        if ulps(r) > 0 {
            vstd::arithmetic::mul::lemma_mul_strictly_positive(ulps(r) as int, pow2(64) as int);
        }
    } else {
        lemma_fast_path(u);
        lemma_leading_zeros(u);
        let l = u64_leading_zeros(u);
        lemma2_to64();
        lemma2_to64_rest();
        if l < 12 {
            vstd::arithmetic::power2::lemma_pow2_strictly_increases(52, (63 - l) as nat);
        }
        let b = (((1022 - l) as u64) << 52) | (((u << (l as u64)) << 1) >> 12);
        crate::encoding::lemma_rounds_down_unique(r, b, u as nat, 64);
    }
}

/// Below 2⁻⁶⁵, the results of [`f64_117`] are the multiples of 2⁻¹¹⁷: a
/// 117-bit number below 2⁵² rounds down to its exact value `x / 2¹¹⁷`.
pub proof fn law_f64_117_exact_below(x: nat, r: u64)
    requires
        rounds_down(r, x, 117),
        x < 0x10_0000_0000_0000,
    ensures
        encodes_exactly(r, x, 117),
{
    if x == 0 {
        vstd::arithmetic::mul::lemma_mul_basics(pow2(1074) as int);
        vstd::arithmetic::power2::lemma_pow2_pos(117);
        if ulps(r) > 0 {
            vstd::arithmetic::mul::lemma_mul_strictly_positive(ulps(r) as int, pow2(117) as int);
        }
    } else {
        let m = x as u64;
        lemma_leading_zeros(m);
        let l = u64_leading_zeros(m);
        lemma2_to64();
        lemma2_to64_rest();
        if l < 12 {
            vstd::arithmetic::power2::lemma_pow2_strictly_increases(52, (63 - l) as nat);
        }
        // m · 2ˡ is a multiple of 2¹¹
        lemma_pow2_adds(11, (l - 11) as nat);
        vstd::arithmetic::mul::lemma_mul_is_associative(
            m as int,
            pow2((l - 11) as nat) as int,
            0x800,
        );
        vstd::arithmetic::div_mod::lemma_mod_multiples_basic(
            (m * pow2((l - 11) as nat)) as int,
            0x800,
        );
        crate::bits::lemma_scaled_bits(m, 117);
        let b = crate::bits::scaled_bits(m, 117);
        lemma_exact_rounds_down(b, x, 117);
        crate::encoding::lemma_rounds_down_unique(r, b, x, 117);
    }
}

/// [`f64_64`] is monotone: a larger word gives a larger or equal float.
pub proof fn law_f64_64_monotone(u1: u64, u2: u64, r1: u64, r2: u64)
    requires
        u1 <= u2,
        rounds_down(r1, u1 as nat, 64),
        rounds_down(r2, u2 as nat, 64),
    ensures
        r1 <= r2,
{
    crate::encoding::lemma_rounds_down_monotone(r1, u1 as nat, r2, u2 as nat, 64);
}

/// [`f64_64`] in division form: for a nonzero word `u` with `z` leading
/// zeros, the result is exactly `((u << z) >> 11) · 2⁻⁵³ · 2⁻ᶻ`, the 53 bits
/// from the leading one scaled back.
pub proof fn law_f64_64_division_form(u: u64, r: u64)
    requires
        u != 0,
        rounds_down(r, u as nat, 64),
    ensures
        encodes_exactly(
            r,
            ((u << (u64_leading_zeros(u) as u64)) >> 11) as nat,
            (53 + u64_leading_zeros(u)) as nat,
        ),
{
    lemma_fast_path(u);
    lemma_normalize(u);
    let l = u64_leading_zeros(u) as u64;
    let v = u << l;
    lemma_pack_normal((1022 - l) as u64, v);
    let b = (((1022 - l) as u64) << 52) | ((v << 1) >> 12);
    crate::encoding::lemma_rounds_down_unique(r, b, u as nat, 64);
    vstd::bits::lemma_u64_shr_is_div(v, 11);
    lemma2_to64();
    let sig = significand(b);
    assert(sig == (v >> 11) as nat);
    crate::encoding::lemma_mul_pow2_pow2(sig, (1021 - l) as nat, (53 + l) as nat);
    assert((1021 - l) as nat + (53 + l) as nat == 1074);
}

/// Above 2⁻⁶⁴ the 117-bit grid is finer than the floats: an encoding whose
/// value is at least 2⁻⁶⁴ is a whole multiple of 2⁻¹¹⁷.
proof fn lemma_coarse_ulps(b: u64) -> (m: nat)
    requires
        ulps(b) >= pow2(1010),
    ensures
        ulps(b) == m * pow2(957),
{
    let e = crate::encoding::exp_field(b);
    let sig = significand(b);
    lemma2_to64();
    lemma2_to64_rest();
    assert(sig < pow2(53));
    if e <= 958 {
        let s = scale(b);
        if s < 957 {
            vstd::arithmetic::power2::lemma_pow2_strictly_increases(s, 957);
        }
        vstd::arithmetic::power2::lemma_pow2_pos(s);
        vstd::arithmetic::mul::lemma_mul_strict_inequality(sig as int, pow2(53) as int, pow2(s) as int);
        vstd::arithmetic::mul::lemma_mul_inequality(pow2(s) as int, pow2(957) as int, pow2(53) as int);
        vstd::arithmetic::mul::lemma_mul_is_commutative(pow2(s) as int, pow2(53) as int);
        vstd::arithmetic::mul::lemma_mul_is_commutative(pow2(957) as int, pow2(53) as int);
        lemma_pow2_adds(53, 957);
        assert(false);
    }
    let m = sig * pow2((e - 958) as nat);
    crate::encoding::lemma_mul_pow2_pow2(sig, (e - 958) as nat, 957);
    m
}

/// [`f64_117`] and [`f64_full`] agree when the first word is nonzero: they
/// read the same number of words and, on the same words, two results that
/// meet their contracts are equal.
pub proof fn law_f64_117_is_full(w: spec_fn(nat) -> u64, r_117: u64, r_full: u64)
    requires
        w(0) != 0,
        rounds_down(r_117, fixed117(w), 117),
        rounds_down_all(r_full, prefix(w, full_count(w)), 64 * full_count(w)),
    ensures
        count117(w(0)) == full_count(w),
        r_117 == r_full,
{
    crate::sources::lemma_first_nonzero(w, 0, 17);
    crate::sources::lemma_prefix_short(w);
    lemma2_to64();
    lemma2_to64_rest();
    let x = prefix(w, 2);
    let q = fixed117(w);
    // r_full rounds down x / 2¹²⁸
    if full_count(w) == 1 {
        vstd::arithmetic::mul::lemma_mul_is_distributive_add_other_way(
            pow2(64) as int,
            w(0) as int,
            1,
        );
        lemma_rounds_down_extend(r_full, w(0) as nat, 64, x, 64);
    }
    // r_117 rounds down x / 2¹²⁸: the 11 bits dropped lie below its unit
    vstd::arithmetic::power2::lemma_pow2_pos(11);
    lemma_floor_div(x, pow2(11));
    crate::encoding::lemma_scale_le(ulps(r_117), 117, q, 1074, 11);
    crate::encoding::lemma_mul_pow2_pow2(q, 11, 1074);
    crate::encoding::lemma_mul_pow2_pow2(q, 1074, 11);
    vstd::arithmetic::power2::lemma_pow2_pos(1074);
    vstd::arithmetic::mul::lemma_mul_inequality((q * pow2(11)) as int, x as int, pow2(1074) as int);
    let b = (r_117 + 1) as u64;
    // q ≥ 2⁵³, so the value of b is above 2⁻⁶⁴
    vstd::arithmetic::div_mod::lemma_div_is_ordered(pow2(64) as int, x as int, pow2(11) as int);
    lemma_pow2_adds(53, 11);
    vstd::arithmetic::div_mod::lemma_div_by_multiple(pow2(53) as int, pow2(11) as int);
    assert(q >= pow2(53));
    lemma_pow2_adds(53, 1074);
    lemma_pow2_adds(1010, 117);
    vstd::arithmetic::mul::lemma_mul_inequality(pow2(53) as int, q as int, pow2(1074) as int);
    if ulps(b) < pow2(1010) {
        vstd::arithmetic::power2::lemma_pow2_pos(117);
        vstd::arithmetic::mul::lemma_mul_inequality(ulps(b) as int, pow2(1010) as int, pow2(117) as int);
    }
    let m = lemma_coarse_ulps(b);
    lemma_pow2_adds(957, 117);
    vstd::arithmetic::mul::lemma_mul_is_associative(m as int, pow2(957) as int, pow2(117) as int);
    if m <= q {
        vstd::arithmetic::mul::lemma_mul_inequality(m as int, q as int, pow2(1074) as int);
    }
    assert(q + 1 <= m);
    vstd::arithmetic::mul::lemma_mul_inequality((q + 1) as int, m as int, pow2(11) as int);
    assert(x < m * pow2(11));
    vstd::arithmetic::mul::lemma_mul_strict_inequality(x as int, (m * pow2(11)) as int, pow2(1074) as int);
    crate::encoding::lemma_mul_pow2_pow2(m, 11, 1074);
    crate::encoding::lemma_mul_pow2_pow2(m, 1074, 11);
    crate::encoding::lemma_mul_pow2_pow2(ulps(b), 117, 11);
    crate::encoding::lemma_mul_pow2_pow2(m, 957, 117);
    assert(ulps(r_117) * pow2(128) <= x * pow2(1074));
    assert(x * pow2(1074) < ulps(b) * pow2(128));
    crate::encoding::lemma_rounds_down_unique(r_117, r_full, x, 128);
}

} // verus!
