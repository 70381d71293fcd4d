use rand_float::division::{f32_24bits, f64_53bits};
use rand_float::sources::{Replay, Weyl};

/// 2⁻⁵³.
const TWO_M53: f64 = 1.0 / (1u64 << 53) as f64;
/// 2⁻²⁴.
const TWO_M24: f32 = 1.0 / (1u32 << 24) as f32;

fn word(w: u64) -> Replay {
    Replay::new(vec![w])
}

#[test]
fn range_and_distribution() {
    let mut rng = Weyl(42);
    for _ in 0..100_000 {
        let x = f64::from_bits(f64_53bits(&mut rng));
        assert!((0.0..1.0).contains(&x), "f64_53bits: {x}");
        // Every value is a multiple of 2^-53.
        assert_eq!(x, (x / TWO_M53).round() * TWO_M53);
        let y = f32::from_bits(f32_24bits(&mut rng));
        assert!((0.0..1.0).contains(&y), "f32_24bits: {y}");
        assert_eq!(y, (y / TWO_M24).round() * TWO_M24);
    }
}

#[test]
fn extremes() {
    assert_eq!(f64::from_bits(f64_53bits(&mut word(0))), 0.0);
    assert_eq!(f64::from_bits(f64_53bits(&mut word(!0u64))), 1.0 - TWO_M53);
    assert_eq!(f32::from_bits(f32_24bits(&mut word(0))), 0.0);
    assert_eq!(f32::from_bits(f32_24bits(&mut word(!0u64))), 1.0 - TWO_M24);
}

/// The encoding is that of the float product of the technique.
#[test]
fn test_matches_float_product() {
    let mut rng = Weyl(3);
    for _ in 0..100_000 {
        let w = rng.0.wrapping_add(0x9E3779B97F4A7C15);
        let x = f64_53bits(&mut rng);
        assert_eq!(x, ((w >> 11) as f64 * TWO_M53).to_bits());
    }
    let mut rng = Weyl(4);
    for _ in 0..100_000 {
        let w = rng.0.wrapping_add(0x9E3779B97F4A7C15);
        let y = f32_24bits(&mut rng);
        assert_eq!(y, ((w >> 40) as f32 * TWO_M24).to_bits());
    }
}

/// The smallest nonzero values: 2⁻⁵³ and 2⁻²⁴.
#[test]
fn test_smallest_nonzero() {
    assert_eq!(f64::from_bits(f64_53bits(&mut word(1 << 11))), TWO_M53);
    assert_eq!(f64_53bits(&mut word((1 << 11) - 1)), 0);
    assert_eq!(f32::from_bits(f32_24bits(&mut word(1 << 40))), TWO_M24);
}
