//! Sources of random 64-bit words.
//!
//! Every conversion of this crate reads its words from a [`WordSource`]. The
//! trait describes a source by the words it is about to return: `peek(i)` is
//! the word that the `i`-th call of `next_u64` from now returns. The
//! conversions state their results as functions of those words, and how many
//! of them they consume.
use vstd::arithmetic::div_mod::{lemma_add_mod_noop, lemma_mod_twice};
use vstd::arithmetic::power2::pow2;
use vstd::prelude::*;

/// The natural numbers that index the words of a source in
/// [`WordSource::peek`].
pub use vstd::prelude::nat;

verus! {

/// A source of 64-bit words.
pub trait WordSource {
    /// The word that the `i`-th call of [`WordSource::next_u64`] from now
    /// returns.
    ///
    /// Sources defined in verified code define it and prove `next_u64`
    /// against it. A source implemented in ordinary Rust (a closure, a
    /// generator of another crate) is trusted to return, from its successive
    /// calls of `next_u64`, the words `peek(0)`, `peek(1)`, … in order: the
    /// contracts of the conversions hold of its words as far as it does.
    spec fn peek(&self, i: nat) -> u64;

    /// Returns the next word, and moves on to the following one.
    fn next_u64(&mut self) -> (w: u64)
        ensures
            w == old(self).peek(0),
            forall|i: nat| #[trigger] final(self).peek(i) == old(self).peek(i + 1),
    ;
}

/// `after` is `before` once `n` words have been read.
pub open spec fn advanced<S: WordSource>(before: S, after: S, n: nat) -> bool {
    forall|i: nat| #[trigger] after.peek(i) == before.peek(i + n)
}

/// The words that `s` is about to return, as a sequence indexed from 0.
pub open spec fn words<S: WordSource>(s: S) -> spec_fn(nat) -> u64 {
    |i: nat| s.peek(i)
}

/// The first `k` words of `w`, read as the digits of a `64k`-bit natural
/// number, most significant first: `x / 2⁶⁴ᵏ` is the real in [0 . . 1) whose
/// binary expansion begins with these words.
pub open spec fn prefix(w: spec_fn(nat) -> u64, k: nat) -> nat
    decreases k,
{
    if k == 0 {
        0
    } else {
        prefix(w, (k - 1) as nat) * pow2(64) + w((k - 1) as nat) as nat
    }
}

/// The index of the first nonzero word of `w` from index `i` on, among the
/// first `n` words; `n` when there is none.
pub open spec fn first_nonzero(w: spec_fn(nat) -> u64, i: nat, n: nat) -> nat
    decreases n - i,
{
    if i >= n {
        n
    } else if w(i) != 0 {
        i
    } else {
        first_nonzero(w, i + 1, n)
    }
}

/// The first nonzero word lies between `i` and `n`, and is nonzero.
pub proof fn lemma_first_nonzero(w: spec_fn(nat) -> u64, i: nat, n: nat)
    requires
        i <= n,
    ensures
        i <= first_nonzero(w, i, n) <= n,
        first_nonzero(w, i, n) < n ==> w(first_nonzero(w, i, n)) != 0,
    decreases n - i,
{
    if i < n && w(i) == 0 {
        lemma_first_nonzero(w, i + 1, n);
    }
}

/// Zero words make zero, and are skipped by the search for a nonzero word.
pub proof fn lemma_leading_zero_words(w: spec_fn(nat) -> u64, j: nat, n: nat)
    requires
        forall|i: nat| i < j ==> #[trigger] w(i) == 0,
        j < n,
        w(j) != 0,
    ensures
        prefix(w, j) == 0,
        first_nonzero(w, 0, n) == j,
{
    lemma_prefix_zeros(w, j);
    lemma_first_nonzero_skips(w, 0, j, n);
}

proof fn lemma_prefix_zeros(w: spec_fn(nat) -> u64, j: nat)
    requires
        forall|i: nat| i < j ==> #[trigger] w(i) == 0,
    ensures
        prefix(w, j) == 0,
    decreases j,
{
    if j > 0 {
        lemma_prefix_zeros(w, (j - 1) as nat);
        vstd::arithmetic::mul::lemma_mul_basics(pow2(64) as int);
        assert(w((j - 1) as nat) == 0);
    }
}

proof fn lemma_first_nonzero_skips(w: spec_fn(nat) -> u64, i: nat, j: nat, n: nat)
    requires
        forall|k: nat| k < j ==> #[trigger] w(k) == 0,
        i <= j < n,
        w(j) != 0,
    ensures
        first_nonzero(w, i, n) == j,
    decreases j - i,
{
    if i < j {
        assert(w(i) == 0);
        lemma_first_nonzero_skips(w, i + 1, j, n);
    }
}

/// `k` words make a number below 2⁶⁴ᵏ.
pub proof fn lemma_prefix_bound(w: spec_fn(nat) -> u64, k: nat)
    ensures
        prefix(w, k) < pow2(64 * k),
    decreases k,
{
    vstd::arithmetic::power2::lemma2_to64();
    if k > 0 {
        let p = prefix(w, (k - 1) as nat);
        lemma_prefix_bound(w, (k - 1) as nat);
        vstd::arithmetic::power2::lemma2_to64_rest();
        vstd::arithmetic::power2::lemma_pow2_adds(64 * (k - 1) as nat, 64);
        vstd::arithmetic::mul::lemma_mul_inequality(
            (p + 1) as int,
            pow2(64 * (k - 1) as nat) as int,
            pow2(64) as int,
        );
        vstd::arithmetic::mul::lemma_mul_is_distributive_add_other_way(
            pow2(64) as int,
            p as int,
            1,
        );
        assert(64 * (k - 1) as nat + 64 == 64 * k);
    }
}

/// A value read from whole words is below 1, and so is its rounding down.
pub proof fn lemma_words_below_one(r: u64, w: spec_fn(nat) -> u64, n: nat)
    requires
        crate::encoding::rounds_down(r, prefix(w, n), 64 * n),
    ensures
        r < crate::encoding::F64_ONE,
{
    lemma_prefix_bound(w, n);
    crate::encoding::lemma_rounds_down_below_one(r, prefix(w, n), 64 * n);
}

/// The `n` words whose digits, most significant first, make the natural
/// number `x` (for `x < 2⁶⁴ⁿ`), followed by zeros.
pub open spec fn expansion(x: nat, n: nat) -> spec_fn(nat) -> u64 {
    |i: nat|
        if i < n {
            ((x / pow2((64 * (n - 1 - i)) as nat)) % pow2(64)) as u64
        } else {
            0u64
        }
}

/// The first `c` words of the expansion of `x` make the top digits of `x`.
pub proof fn lemma_expansion_prefix(x: nat, n: nat, c: nat)
    requires
        x < pow2(64 * n),
        c <= n,
    ensures
        prefix(expansion(x, n), c) == x / pow2((64 * (n - c)) as nat),
    decreases c,
{
    let w = expansion(x, n);
    vstd::arithmetic::power2::lemma_pow2_pos((64 * (n - c)) as nat);
    if c == 0 {
        vstd::arithmetic::div_mod::lemma_basic_div(x as int, pow2(64 * n) as int);
    } else {
        let c1 = (c - 1) as nat;
        lemma_expansion_prefix(x, n, c1);
        let y = x / pow2((64 * (n - c)) as nat);
        vstd::arithmetic::power2::lemma2_to64_rest();
        vstd::arithmetic::power2::lemma_pow2_pos(64);
        // x / 2^(64(n - c + 1)) == y / 2⁶⁴
        crate::bits::lemma_div_div(x, (64 * (n - c)) as nat, 64);
        assert((64 * (n - c)) as nat + 64 == (64 * (n - c1)) as nat);
        vstd::arithmetic::div_mod::lemma_fundamental_div_mod(y as int, pow2(64) as int);
        vstd::arithmetic::div_mod::lemma_mod_pos_bound(y as int, pow2(64) as int);
        assert(w(c1) as nat == y % pow2(64));
        vstd::arithmetic::mul::lemma_mul_is_commutative(pow2(64) as int, (y / pow2(64)) as int);
    }
}

/// The first one and two words as numbers.
pub proof fn lemma_prefix_short(w: spec_fn(nat) -> u64)
    ensures
        prefix(w, 1) == w(0) as nat,
        prefix(w, 2) == w(0) * pow2(64) + w(1),
{
    assert(prefix(w, 0) == 0);
    vstd::arithmetic::mul::lemma_mul_basics(pow2(64) as int);
    assert(prefix(w, 1) == w(0) as nat);
}

/// The increment of [`Weyl`]: 2⁶⁴ divided by the golden ratio, made odd.
pub const WEYL_INCREMENT: u64 = 0x9E37_79B9_7F4A_7C15;

/// A Weyl sequence: the state advances by [`WEYL_INCREMENT`] modulo 2⁶⁴ at
/// each call, and the new state is the word returned. Statistically weak, but
/// cheap and reproducible; it is the source the tests and benchmarks use.
pub struct Weyl(pub u64);

/// The state of a Weyl sequence after `n` steps from `s`.
pub open spec fn weyl_state(s: u64, n: nat) -> u64 {
    ((s + n * WEYL_INCREMENT) % 0x1_0000_0000_0000_0000) as u64
}

impl Weyl {
    /// Advances the state by [`WEYL_INCREMENT`] (wrapping) and returns it.
    pub fn next_u64(&mut self) -> (w: u64)
        ensures
            final(self).0 == weyl_state(old(self).0, 1),
            w == final(self).0,
    {
        self.0 = self.0.wrapping_add(WEYL_INCREMENT);
        self.0
    }
}

impl WordSource for Weyl {
    open spec fn peek(&self, i: nat) -> u64 {
        weyl_state(self.0, i + 1)
    }

    fn next_u64(&mut self) -> (w: u64) {
        let w = Weyl::next_u64(self);
        proof {
            let m: int = 0x1_0000_0000_0000_0000;
            let s = old(self).0 as int;
            assert forall|i: nat| #[trigger] self.peek(i) == old(self).peek(i + 1) by {
                let a = s + WEYL_INCREMENT;
                let b = (i + 1) * WEYL_INCREMENT;
                lemma_add_mod_noop(a, b, m);
                lemma_mod_twice(a, m);
                lemma_add_mod_noop(a % m, b, m);
                assert((i + 1 + 1) * WEYL_INCREMENT == b + WEYL_INCREMENT) by (nonlinear_arith)
                    requires
                        b == (i + 1) * WEYL_INCREMENT,
                ;
            }
        }
        w
    }
}

/// A source that replays a fixed sequence of words, then returns zeros.
pub struct Replay {
    words: Vec<u64>,
    pos: usize,
}

impl Replay {
    /// A source returning `words` in order, then zeros.
    pub fn new(words: Vec<u64>) -> (r: Self)
        ensures
            forall|i: nat| #[trigger]
                r.peek(i) == if i < words.len() {
                    words@[i as int]
                } else {
                    0u64
                },
    {
        Replay { words, pos: 0 }
    }
}

impl WordSource for Replay {
    closed spec fn peek(&self, i: nat) -> u64 {
        if self.pos + i < self.words.len() {
            self.words@[self.pos + i]
        } else {
            0u64
        }
    }

    fn next_u64(&mut self) -> (w: u64) {
        if self.pos < self.words.len() {
            let w = self.words[self.pos];
            self.pos = self.pos + 1;
            w
        } else {
            0
        }
    }
}

} // verus!
