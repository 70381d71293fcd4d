use rand_float::sources::{Replay, Weyl, WordSource, WEYL_INCREMENT};

/// A Weyl sequence adds the increment, wrapping, and returns the new state.
#[test]
fn test_weyl_steps() {
    let mut w = Weyl(u64::MAX);
    assert_eq!(w.next_u64(), WEYL_INCREMENT - 1);
    assert_eq!(w.0, WEYL_INCREMENT - 1);
    let mut w = Weyl(0);
    assert_eq!(WordSource::next_u64(&mut w), WEYL_INCREMENT);
    assert_eq!(w.next_u64(), WEYL_INCREMENT.wrapping_mul(2));
}

/// A replay returns its words in order, then zeros.
#[test]
fn test_replay_then_zeros() {
    let mut r = Replay::new(vec![3, 4]);
    assert_eq!(r.next_u64(), 3);
    assert_eq!(r.next_u64(), 4);
    assert_eq!(r.next_u64(), 0);
    assert_eq!(r.next_u64(), 0);
}
