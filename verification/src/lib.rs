//! Uniform random floating-point numbers in [0 . . 1) from a stream of random
//! 64-bit words.
//!
//! Every technique reads its words from a [`sources::WordSource`] and returns
//! the encoding of its float (`f64::from_bits` turns it into the float). Each
//! contract states which real the words spell out, how that real is rounded
//! (down, or to nearest) and how many words are read; see [`encoding`] for
//! the relations the contracts use.
pub mod encoding;
pub mod sources;
pub mod bits;
pub mod cold;
pub mod division;
pub mod pekkizen;
pub mod reinerp;
pub mod campbell;
pub mod uniform;
