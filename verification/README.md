# rand_float

Uniform random floating-point numbers in [0 . . 1) from a stream of random
64-bit words, written in Verus: every conversion states, and proves, which
float it returns for which words.

## Layout

- `src/encoding.rs`: the binary64 and binary32 encodings as integers, the
  value of an encoding in units of 2⁻¹⁰⁷⁴, and the three relations the
  contracts use: exact value, rounding down (of a number, and of every real
  an expansion may continue into), rounding to nearest; their uniqueness.
- `src/sources.rs`: the `WordSource` trait (a source described by the words
  it is about to return), the Weyl sequence, a replaying source, and the
  number formed by the first words of a stream.
- `src/bits.rs`: leading zeros, shifts, windows of two words, and the packing
  of exponent and significand.
- `src/division.rs`, `src/pekkizen.rs`, `src/reinerp.rs`, `src/campbell.rs`,
  `src/uniform.rs`: the techniques. Each returns the encoding of its float
  (`f64::from_bits` gives the float); the contracts state the rounding of
  the real read from the words, and how many words are consumed.
- `src/cold.rs`: the compiler barrier of the rare paths.
- `app/`: the `f64`-valued functions over any `FnMut() -> u64`, and the
  `unif_01` method for every `rand_core::Rng`.
- `tests/`: golden values, agreement between techniques, ranges.
