use rand_float::pekkizen;
use rand_float::reinerp::f64_round_down;
use rand_float::sources::{Replay, Weyl};

fn replay(words: &[u64]) -> Replay {
    Replay::new(words.to_vec())
}

fn shifted_pattern(pattern: u64, shift: usize) -> Vec<u64> {
    let whole_words = shift / 64;
    let intra_word = shift % 64;
    let mut words = vec![0; whole_words];
    if intra_word == 0 {
        words.push(pattern);
    } else {
        words.push(pattern >> intra_word);
        words.push(pattern << (64 - intra_word));
    }
    // Reference implementations may fetch a lookahead word to fill the
    // significand even when all its useful bits are already available.
    words.extend([0; 2]);
    words
}

#[test]
fn test_dynamic_range_against_reference_implementations() {
    let mut patterns = vec![
        0x8000_0000_0000_0000, // 1.000...000
        0x8000_0000_0000_0001, // 1.000...001
        0xffff_ffff_ffff_ffff, // 1.111...111
        0xc000_0000_0000_0000, // 1.100...000
        0xaaaa_aaaa_aaaa_aaaa,
        0xdead_beef_cafe_babe,
    ];
    // Exercise every possible position of a second set bit in the
    // normalized significand, including the rounding and sticky bits.
    patterns.extend((0..63).map(|bit| 1 << 63 | 1 << bit));

    for pattern in patterns {
        for shift in 0..=1140 {
            let words = shifted_pattern(pattern, shift);

            let down = f64_round_down(&mut replay(&words));
            let expected_down = pekkizen::f64_full(&mut replay(&words));
            assert_eq!(
                down, expected_down,
                "round down: pattern={pattern:#018x}, shift={shift}"
            );
        }
    }
}

/// The fast path is the float product of the top 53 bits from the leading
/// one and 2⁻⁶⁴.
#[test]
fn test_fast_path_is_exact_product() {
    let mut rng = Weyl(11);
    for _ in 0..100_000 {
        let u = rng.0.wrapping_add(0x9E3779B97F4A7C15);
        let r = f64_round_down(&mut rng);
        let z = u.leading_zeros();
        if z <= 11 {
            let m = u & (0xFFFF_FFFF_FFFF_F800u64 >> z);
            assert_eq!(r, (m as f64 * 2f64.powi(-64)).to_bits());
        }
    }
}
