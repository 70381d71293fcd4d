//! The technique of choice.
//!
//! This module re-exports [`crate::pekkizen`], whose leading-zeros technique
//! provides complete coverage of [0 . . 1) at almost the cost of the 53-bit
//! [`crate::division`] scaling, consuming one 64-bit word per call with
//! probability 1 − 2⁻¹².
//!
//! The [`unif_01`] function converts any [`WordSource`].
pub use crate::pekkizen::{count117, f64_117, f64_64, f64_full, fixed117, full_count};
use crate::encoding::{rounds_down_all, F64_ONE};
use crate::sources::{advanced, prefix, words, WordSource};
use vstd::prelude::*;

verus! {

/// Returns a random binary64 encoding distributed as a uniform real in
/// [0 . . 1) rounded down to the nearest representable value: every float in
/// [0 . . 1) is reachable, subnormals and 0 included, with probability equal
/// to the measure of the reals that round down to it.
///
/// An alias for [`f64_full`], the technique of choice.
#[inline(always)]
pub fn unif_01<S: WordSource>(bits: &mut S) -> (r: u64)
    ensures
        advanced(*old(bits), *final(bits), full_count(words(*old(bits)))),
        rounds_down_all(
            r,
            prefix(words(*old(bits)), full_count(words(*old(bits)))),
            64 * full_count(words(*old(bits))),
        ),
        r < F64_ONE,
{
    f64_full(bits)
}

/// [`unif_01`] returns what [`f64_full`] returns: on the same words, two
/// results that meet their contracts are equal.
pub proof fn law_unif_01_is_full(w: spec_fn(nat) -> u64, r_unif: u64, r_full: u64)
    requires
        rounds_down_all(r_unif, prefix(w, full_count(w)), 64 * full_count(w)),
        rounds_down_all(r_full, prefix(w, full_count(w)), 64 * full_count(w)),
    ensures
        r_unif == r_full,
{
    crate::encoding::lemma_rounds_down_unique(r_unif, r_full, prefix(w, full_count(w)), 64 * full_count(w));
}

} // verus!
