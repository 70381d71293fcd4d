use rand_float::pekkizen::f64_full;
use rand_float::sources::Weyl;
use rand_float::uniform::unif_01;

/// The function form of `unif_01` must agree with `f64_full` on the same word
/// stream.
#[test]
fn test_unif_01_matches_f64_full() {
    let mut src = Weyl(42);
    let mut src2 = Weyl(42);
    for _ in 0..100_000 {
        let expected = f64_full(&mut src);
        assert_eq!(unif_01(&mut src2), expected);
    }
}

/// The example of the documentation.
#[test]
fn test_unif_01_in_unit_interval() {
    let mut src = Weyl(42);
    let x = f64::from_bits(unif_01(&mut src));
    assert!((0.0..1.0).contains(&x));
}

/// [`Weyl`] as a [`rand_core::Rng`] (via an infallible [`rand_core::TryRng`]).
struct WeylRng(Weyl);

impl rand_core::TryRng for WeylRng {
    type Error = core::convert::Infallible;

    fn try_next_u32(&mut self) -> Result<u32, Self::Error> {
        Ok(self.0.next_u64() as u32)
    }

    fn try_next_u64(&mut self) -> Result<u64, Self::Error> {
        Ok(self.0.next_u64())
    }

    fn try_fill_bytes(&mut self, dst: &mut [u8]) -> Result<(), Self::Error> {
        for chunk in dst.chunks_mut(8) {
            let bytes = self.0.next_u64().to_le_bytes();
            chunk.copy_from_slice(&bytes[..chunk.len()]);
        }
        Ok(())
    }
}

/// A generator of `rand_core` as a source of words.
struct RngWords<'a, R: rand_core::Rng>(&'a mut R);

impl<R: rand_core::Rng> rand_float::sources::WordSource for RngWords<'_, R> {
    fn peek(&self, _i: rand_float::sources::nat) -> u64 {
        unreachable!("the stream model of a source has no run-time value")
    }

    fn next_u64(&mut self) -> u64 {
        self.0.next_u64()
    }
}

/// Through a `rand_core` generator, `unif_01` agrees with `f64_full` on the
/// same word stream.
#[test]
fn test_unif_01_through_rand_core() {
    let mut rng = WeylRng(Weyl(42));
    let mut src = Weyl(42);
    for _ in 0..100_000 {
        let expected = f64_full(&mut src);
        assert_eq!(unif_01(&mut RngWords(&mut rng)), expected);
    }
}
