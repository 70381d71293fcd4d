use rand_float::campbell::{
    consttime, consttime_cmove, fast, fastdet, random_real, TWO_M128, TWO_M64,
};
use rand_float::sources::{Replay, Weyl, WordSource};

fn replay(words: &[u64]) -> Replay {
    Replay::new(words.to_vec())
}

/// A word that no known-value sequence holds, placed after its words.
const SENTINEL: u64 = 0x5EAD_BEEF_0BAD_F00D;

/// The words random_real reads: the zero run and the first nonzero word,
/// one more when that word has leading zeros; 16 when the first 16 are zero.
fn real_count(words: &[u64]) -> usize {
    let w = |i: usize| words.get(i).copied().unwrap_or(0);
    match (0..16).find(|&i| w(i) != 0) {
        None => 16,
        Some(j) if w(j).leading_zeros() == 0 => j + 1,
        Some(j) => j + 2,
    }
}

#[test]
fn test_stays_in_closed_unit_interval() {
    let mut rng = Weyl(42);
    for _ in 0..100_000 {
        let x = f64::from_bits(fast(&mut rng));
        assert!(x > 0.0 && x <= 1.0, "fast: {x}");
        let x = f64::from_bits(consttime_cmove(&mut rng));
        assert!(x > 0.0 && x <= 1.0, "consttime_cmove: {x}");
        let x = f64::from_bits(consttime(&mut rng));
        assert!(x > 0.0 && x <= 1.0, "consttime: {x}");
    }
}

/// The two const-time variants must agree on every input.
#[test]
fn test_consttime_variants_agree() {
    let mut rng = Weyl(0xDEAD_BEEF);
    for _ in 0..100_000 {
        let words = [rng.next_u64(), rng.next_u64(), rng.next_u64()];
        assert_eq!(
            consttime_cmove(&mut replay(&words)),
            consttime(&mut replay(&words))
        );
    }
}

/// With a nonzero m, the const-time variants must agree with the branchy
/// variant (which then ignores the third word).
#[test]
fn test_consttime_agrees_with_fast() {
    let mut rng = Weyl(0xBADC_0FFE);
    for _ in 0..100_000 {
        let words = [rng.next_u64(), rng.next_u64().max(1), rng.next_u64()];
        assert_eq!(
            fast(&mut replay(&words[..2])),
            consttime_cmove(&mut replay(&words))
        );
    }
}

/// With m = 0 the scale must become 2⁻¹²⁸ (not go negative as with the
/// unsigned `(t - 1)`).
#[test]
fn test_consttime_zero_mantissa_rescales() {
    let u = 0x0123_4567_89AB_CDEF;
    let m2 = 0x8000_0000_0000_0000u64; // power of two: d = 2^63
    let x = consttime_cmove(&mut replay(&[u, 0, m2]));
    assert!(f64::from_bits(x) > 0.0, "scale went negative: {x}");
    // s ≈ 2^63, f = 2^-128, d = 2^63  ⇒  x ≈ 2^-128.
    assert_eq!(x, fastdet(TWO_M128, m2, u));
    // And with m ≠ 0, m2 must be ignored.
    assert_eq!(
        consttime_cmove(&mut replay(&[u, 3, m2])),
        fastdet(TWO_M64, 3, u)
    );
}

/// Known values of `random_real`.
#[test]
fn test_real_known_values() {
    // Top bit set: one word, no refill; 2^63 | 1 rounds to 2^63.
    assert_eq!(f64::from_bits(random_real(&mut replay(&[1 << 63]))), 0.5);
    // All ones rounds up to 2^64: the maximum output, exactly 1.
    assert_eq!(f64::from_bits(random_real(&mut replay(&[!0]))), 1.0);
    // Smallest first word: 63 leading zeros shifted out and refilled.
    assert_eq!(
        f64::from_bits(random_real(&mut replay(&[1, 0]))),
        f64::from_bits((1023 - 64) << 52)
    ); // 2^-64
    // 15 zero words then a 1: deep subnormal, 2^-1024.
    let mut words = [0u64; 17];
    words[15] = 1;
    assert_eq!(
        f64::from_bits(random_real(&mut replay(&words))),
        f64::from_bits(1 << 50)
    );
    // 16 zero words: the exponent falls below -1074 and the result is 0.
    assert_eq!(f64::from_bits(random_real(&mut replay(&[0u64; 16]))), 0.0);
}

/// The known-value sequences of `random_real` are read exactly as far as
/// needed, and never past their end.
#[test]
fn test_real_known_values_words_read() {
    let mut deep = vec![0u64; 17];
    deep[15] = 1;
    for words in [vec![1 << 63], vec![!0], vec![1, 0], deep, vec![0u64; 16]] {
        let mut src = Replay::new([&words[..], &[SENTINEL]].concat());
        random_real(&mut src);
        let n = real_count(&words);
        assert!(n <= words.len(), "read past the words {words:x?}");
        assert_eq!(src.next_u64(), words.get(n).copied().unwrap_or(SENTINEL));
    }
}

#[test]
fn test_real_stays_in_closed_unit_interval() {
    let mut rng = Weyl(7);
    for _ in 0..100_000 {
        let x = f64::from_bits(random_real(&mut rng));
        assert!(x > 0.0 && x <= 1.0, "real: {x}");
    }
}

/// fastdet is the float computation `s * f / d`: the significand
/// converted with rounding to nearest, scaled by f, divided by the lowest set
/// bit of m.
#[test]
fn test_fastdet_matches_float_arithmetic() {
    let mut rng = Weyl(99);
    for i in 0..100_000u64 {
        let u = rng.next_u64();
        let m = rng.next_u64() >> (i % 64);
        let f = if i % 2 == 0 { TWO_M64 } else { TWO_M128 };
        let mm = m | (1 << 63);
        let d = (mm & mm.wrapping_neg()) as f64;
        let s = (u | (1 << 63) | 1) as f64;
        let expected = s * f64::from_bits(f) / d;
        assert_eq!(fastdet(f, m, u), expected.to_bits());
    }
}

/// The words consumed: two for fast with a nonzero m, three otherwise, and
/// always three for the const-time variants.
#[test]
fn test_campbell_words_consumed() {
    let mut src = replay(&[5, 1, 7, 8]);
    fast(&mut src);
    assert_eq!(src.next_u64(), 7);
    let mut src = replay(&[5, 0, 7, 8]);
    fast(&mut src);
    assert_eq!(src.next_u64(), 8);
    let mut src = replay(&[5, 1, 7, 8]);
    consttime(&mut src);
    assert_eq!(src.next_u64(), 8);
}
