use rand_float::campbell::{consttime, fast, random_real, TWO_M128};
use rand_float::pekkizen::{f64_117, f64_64, f64_full};
use rand_float::reinerp::f64_round_down;
use rand_float::sources::Replay;

fn replay(words: &[u64]) -> Replay {
    Replay::new(words.to_vec())
}

/// 2⁻¹² is the value of the word 2⁵²; 1 - 2⁻⁵³ that of the all-ones word.
#[test]
fn test_f64_64_complete_examples() {
    assert_eq!(f64_64(&mut replay(&[1 << 52])), 0x3F30_0000_0000_0000);
    assert_eq!(f64_64(&mut replay(&[!0 << 11])), 0x3FEF_FFFF_FFFF_FFFF);
}

/// Below 2⁻¹², a word gives exactly its fixed-point value.
#[test]
fn test_f64_64_exact_below() {
    for u in [1u64, 3, 12345, (1 << 52) - 1] {
        assert_eq!(f64::from_bits(f64_64(&mut replay(&[u]))), u as f64 * 2f64.powi(-64));
    }
}

/// 2⁻⁶⁵ is read from the words 0, 2⁶³ by f64_117.
#[test]
fn test_f64_117_complete_example() {
    assert_eq!(f64_117(&mut replay(&[0, 1 << 63])), 0x3BE0_0000_0000_0000);
}

/// The smallest subnormal is read from its 18-word expansion, by f64_full
/// and by f64_round_down.
#[test]
fn test_f64_full_complete_smallest_subnormal() {
    let words = [vec![0; 16], vec![1 << 14, 0]].concat();
    assert_eq!(f64_full(&mut replay(&words)), 1);
    assert_eq!(f64_round_down(&mut replay(&words)), 1);
}

/// Rounding down does not depend on the words after those read.
#[test]
fn test_f64_full_interval() {
    let a = f64_full(&mut replay(&[0x8000_0000_0000_0000, 0]));
    let b = f64_full(&mut replay(&[0x8000_0000_0000_07FF, !0]));
    assert_eq!(a, b);
}

/// 2⁻¹²⁸ and 1 are results of fast (and of consttime).
#[test]
fn test_fast_complete_examples() {
    let words = [1 << 63, 0, 1 << 63];
    assert_eq!(fast(&mut replay(&words)), TWO_M128);
    assert_eq!(consttime(&mut replay(&words)), TWO_M128);
    assert_eq!(f64::from_bits(fast(&mut replay(&[!0, 1, 0]))), 1.0);
}

/// 2⁻¹⁰²⁴ is a result of random_real; it never returns 0 on a nonzero word
/// among the first 16.
#[test]
fn test_random_real_complete_example() {
    let mut words = [0u64; 17];
    words[15] = 1;
    assert_eq!(random_real(&mut replay(&words)), 0x0004_0000_0000_0000);
    let mut words = [0u64; 17];
    words[15] = 1 << 63;
    assert_ne!(random_real(&mut replay(&words)), 0);
}

/// Correct rounding to nearest: the significand word rounds up exactly when
/// its 11 low bits are above half of a unit in the last place.
#[test]
fn test_fast_rounds_to_nearest() {
    // 2⁶³ + 2¹⁰ + 1 rounds up; 2⁶³ + 2¹⁰ - 1 rounds down.
    let up = fast(&mut replay(&[(1 << 63) | (1 << 10), 1]));
    let down = fast(&mut replay(&[(1 << 63) | ((1 << 10) - 2), 1]));
    assert_eq!(up, 0x3FE0_0000_0000_0001);
    assert_eq!(down, 0x3FE0_0000_0000_0000);
}

/// f64_117 and f64_full agree on a nonzero first word, result and words
/// read.
#[test]
fn test_f64_117_is_full() {
    let mut rng = rand_float::sources::Weyl(5);
    for i in 0..100_000u64 {
        let w0 = rand_float::sources::WordSource::next_u64(&mut rng) >> (i % 64);
        let w1 = rand_float::sources::WordSource::next_u64(&mut rng);
        let words = [w0.max(1), w1, 0x1234];
        let mut a = replay(&words);
        let mut b = replay(&words);
        assert_eq!(f64_117(&mut a), f64_full(&mut b));
        assert_eq!(
            rand_float::sources::WordSource::next_u64(&mut a),
            rand_float::sources::WordSource::next_u64(&mut b)
        );
    }
}

/// f64_64 in division form, and monotone.
#[test]
fn test_f64_64_division_form_and_monotone() {
    let mut prev = 0;
    for k in 0..64 {
        for u in [1u64 << k, (1u64 << k) | 1, u64::MAX >> k] {
            let z = u.leading_zeros();
            let expected = ((u << z) >> 11) as f64 * 2f64.powi(-(53 + z as i32));
            assert_eq!(f64::from_bits(f64_64(&mut replay(&[u]))), expected);
        }
    }
    for u in (0..u64::MAX - (1 << 50)).step_by(1 << 50) {
        let r = f64_64(&mut replay(&[u]));
        assert!(prev <= r);
        prev = r;
    }
}
