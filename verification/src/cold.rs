//! A compiler barrier against if-conversion of rare branches.
use vstd::prelude::*;

verus! {

/// `core::hint::black_box` is, by its documentation, an identity function:
/// it returns its argument unchanged (it only hides it from the optimizer).
pub assume_specification<T>[ core::hint::black_box::<T> ](dummy: T) -> (r: T)
    ensures
        r == dummy,
;

/// A do-nothing function that forces the compiler to keep the branch arm
/// calling it a real branch.
///
/// It is here for speed only. Techniques that draw further words from the
/// source on a rare path make the next source state depend on which path was
/// taken; without a genuine call in the rare arm, the compiler may if-convert
/// it in bulk-generation loops, putting the whole conversion on the
/// loop-carried dependency chain of the source. A call that is never inlined
/// cannot be flattened, and `black_box` keeps the body from being inferred
/// side-effect-free.
#[inline(never)]
pub fn cold_barrier() {
    core::hint::black_box(());
}

} // verus!
