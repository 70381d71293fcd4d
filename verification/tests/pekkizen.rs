use rand_float::pekkizen::{f64_117, f64_64, f64_full};
use rand_float::sources::{Replay, Weyl, WordSource};

fn replay(words: &[u64]) -> Replay {
    Replay::new(words.to_vec())
}

/// A word that no golden sequence holds, placed after the words of a test.
const SENTINEL: u64 = 0x5EAD_BEEF_0BAD_F00D;

/// A replay of `words` followed by the sentinel.
fn replay_then_sentinel(words: &[u64]) -> Replay {
    Replay::new([words, &[SENTINEL]].concat())
}

/// The words f64_full reads: one on the fast path; otherwise the zero run,
/// the first nonzero word and the next, unless 1074 zero bits come first.
fn full_count(words: &[u64]) -> usize {
    let w = |i: usize| words.get(i).copied().unwrap_or(0);
    if w(0).leading_zeros() <= 11 {
        return 1;
    }
    let j = (0..17).find(|&i| w(i) != 0).unwrap_or(17);
    if j == 0 {
        2
    } else if j >= 17 {
        17
    } else if 64 * j + w(j).leading_zeros() as usize >= 1074 {
        j + 1
    } else {
        j + 2
    }
}

/// After a call that read `n` of `words`, the next word is the `n`-th (or the
/// sentinel): no word beyond those needed was read.
fn assert_read(src: &mut Replay, words: &[u64], n: usize) {
    assert!(n <= words.len(), "read past the words {words:x?}");
    let next = words.get(n).copied().unwrap_or(SENTINEL);
    assert_eq!(src.next_u64(), next, "words {words:x?}");
}

/// The bit-building form must agree with Pulkkinen's division form,
/// `float64(u << z >> 11) / 2^53 / 2^z` with z = leadingZeros(u).
#[test]
fn test_matches_reference_division_form() {
    let division_form = |u: u64| {
        let z = u.leading_zeros();
        let m = ((u << z) >> 11) as f64;
        m / (1u64 << 53) as f64 / (1u64 << z) as f64
    };
    let mut rng = Weyl(7);
    for _ in 0..100_000 {
        let u = rng.0.wrapping_add(0x9E3779B97F4A7C15);
        assert_eq!(f64::from_bits(f64_64(&mut rng)), division_form(u));
    }
}

#[test]
fn test_range() {
    let mut rng = Weyl(42);
    for _ in 0..100_000 {
        let x = f64::from_bits(f64_64(&mut rng));
        assert!((0.0..1.0).contains(&x), "f64_64: {x}");
    }
}

/// Extremes of the leading-zeros count.
#[test]
fn test_edge_cases() {
    assert_eq!(f64::from_bits(f64_64(&mut replay(&[1 << 63]))), 0.5);
    assert_eq!(
        f64::from_bits(f64_64(&mut replay(&[u64::MAX]))),
        f64::from_bits(1.0f64.to_bits() - 1)
    );
    assert_eq!(
        f64::from_bits(f64_64(&mut replay(&[1]))),
        f64::from_bits((1023 - 64) << 52)
    ); // 2^-64
    assert_eq!(f64::from_bits(f64_64(&mut replay(&[0]))), 0.0);
}

/// Golden values, one per
/// branch (fast path, slow path, extreme leading-zero counts, zero words).
#[test]
fn test_known_values_117() {
    for (words, expected) in [
        (&[0x8000000000000000, 0][..], 0x3fe0000000000000u64),
        (&[0xDEADBEEFDEADBEEF, 0][..], 0x3febd5b7ddfbd5b7),
        (&[1 << 52, 0][..], 0x3f30000000000000),
        (&[1 << 51, 0xC0FFEE0DDF00D5ED][..], 0x3f20000000000001),
        (&[1, 0xC0FFEE0DDF00D5ED][..], 0x3bfc0ffee0ddf00d),
        (&[3, 0xFFFFFFFFFFFFFFFF][..], 0x3c0fffffffffffff),
        (&[0, 0xC0FFEE0DDF00D5ED][..], 0x3be81ffdc1bbe01a),
        (&[0, 0][..], 0),
    ] {
        assert_eq!(f64_117(&mut replay(words)), expected, "words {words:x?}");
    }
}

/// The golden sequences of f64_117 are read exactly as far as needed.
#[test]
fn test_known_values_117_words_read() {
    for words in [
        &[0x8000000000000000, 0][..],
        &[0xDEADBEEFDEADBEEF, 0][..],
        &[1 << 52, 0][..],
        &[1 << 51, 0xC0FFEE0DDF00D5ED][..],
        &[1, 0xC0FFEE0DDF00D5ED][..],
        &[3, 0xFFFFFFFFFFFFFFFF][..],
        &[0, 0xC0FFEE0DDF00D5ED][..],
        &[0, 0][..],
    ] {
        let mut src = replay_then_sentinel(words);
        f64_117(&mut src);
        let n = if words[0].leading_zeros() <= 11 { 1 } else { 2 };
        assert_read(&mut src, words, n);
    }
}

/// Golden values; the deep
/// sequences exercise the zero-word zoom, the subnormal construction and the
/// all-zeros cutoff (which fires before the final exponent add).
#[test]
fn test_known_values_full() {
    for (words, expected) in [
        (vec![0x8000000000000000], 0x3fe0000000000000u64),
        (vec![0xDEADBEEFDEADBEEF], 0x3febd5b7ddfbd5b7),
        (vec![1 << 52], 0x3f30000000000000),
        (vec![1 << 51, 0xC0FFEE0DDF00D5ED], 0x3f20000000000001),
        (vec![1, 0xC0FFEE0DDF00D5ED], 0x3bfc0ffee0ddf00d),
        (vec![3, 0xFFFFFFFFFFFFFFFF], 0x3c0fffffffffffff),
        (vec![0, 0xC0FFEE0DDF00D5ED, 0xABCD], 0x3be81ffdc1bbe01a),
        (vec![0, 0, 0xC0FFEE0DDF00D5ED, 0xAB], 0x37e81ffdc1bbe01a),
        ([vec![0; 15], vec![2, u64::MAX]].concat(), 0x000bffffffffffff),
        ([vec![0; 15], vec![1, u64::MAX]].concat(), 0x0007ffffffffffff),
        (
            [vec![0; 16], vec![1 << 50, 0xFFFFFFFFFFFFF]].concat(),
            0x0000001000000000,
        ),
        ([vec![0; 16], vec![3, 0]].concat(), 0),
        (vec![0; 18], 0),
    ] {
        assert_eq!(f64_full(&mut replay(&words)), expected, "words {words:x?}");
    }
}

/// The golden sequences of f64_full are read exactly as far as needed, and
/// never past their end.
#[test]
fn test_known_values_full_words_read() {
    for words in [
        vec![0x8000000000000000],
        vec![0xDEADBEEFDEADBEEF],
        vec![1 << 52],
        vec![1 << 51, 0xC0FFEE0DDF00D5ED],
        vec![1, 0xC0FFEE0DDF00D5ED],
        vec![3, 0xFFFFFFFFFFFFFFFF],
        vec![0, 0xC0FFEE0DDF00D5ED, 0xABCD],
        vec![0, 0, 0xC0FFEE0DDF00D5ED, 0xAB],
        [vec![0; 15], vec![2, u64::MAX]].concat(),
        [vec![0; 15], vec![1, u64::MAX]].concat(),
        [vec![0; 16], vec![1 << 50, 0xFFFFFFFFFFFFF]].concat(),
        [vec![0; 16], vec![3, 0]].concat(),
        vec![0; 18],
    ] {
        let mut src = replay_then_sentinel(&words);
        f64_full(&mut src);
        assert_read(&mut src, &words, full_count(&words));
    }
}

/// XOR-rotate hash over 10⁶ draws from the same Weyl source. The two variants agree on any
/// zero-free source stream.
#[test]
fn test_matches_go_reference_hash() {
    let mut rng = Weyl(42);
    let mut h = 0u64;
    for _ in 0..1_000_000 {
        h = h.rotate_left(1) ^ f64_117(&mut rng);
    }
    assert_eq!(h, 0xf9b6db6017240be7);

    let mut rng = Weyl(42);
    let mut h = 0u64;
    for _ in 0..1_000_000 {
        h = h.rotate_left(1) ^ f64_full(&mut rng);
    }
    assert_eq!(h, 0xf9b6db6017240be7);
}

#[test]
fn test_range_117_full() {
    let mut rng = Weyl(42);
    for _ in 0..100_000 {
        let x = f64::from_bits(f64_117(&mut rng));
        assert!((0.0..1.0).contains(&x), "f64_117: {x}");
        let x = f64::from_bits(f64_full(&mut rng));
        assert!((0.0..1.0).contains(&x), "f64_full: {x}");
    }
}

/// The number of words read: one on the fast path, two on the slow path of
/// f64_117, and the zero run plus two for f64_full.
#[test]
fn test_words_consumed() {
    let mut src = replay(&[1 << 63, 5, 6]);
    f64_full(&mut src);
    assert_eq!(src.next_u64(), 5);
    let mut src = replay(&[1 << 40, 5, 6]);
    f64_117(&mut src);
    assert_eq!(src.next_u64(), 6);
    let mut src = replay(&[0, 0, 1, 7, 9]);
    f64_full(&mut src);
    assert_eq!(src.next_u64(), 9);
}

/// The rounding down of the real read from the words: a word sequence and
/// the same sequence with an extra nonzero tail give the same result.
#[test]
fn test_full_ignores_tail() {
    let a = f64_full(&mut replay(&[0, 0x1234, 0x0, 0x0]));
    let b = f64_full(&mut replay(&[0, 0x1234, 0x0, 0xFFFF_FFFF]));
    assert_eq!(a, b);
    // 0x1234 has 51 leading zeros: value 0x1234 · 2⁻¹²⁸
    assert_eq!(f64::from_bits(a), 0x1234 as f64 * 2f64.powi(-128));
}
