//! A seeded pseudo-random stream with an explicit model.
//!
//! The generator draws every random value from one `StreamRng`.  The
//! stream is a pseudo-random generator seeded from a single integer, so
//! each value drawn is a function of the seed and of the draws already
//! made.  The model of a stream is therefore its seed together with the
//! record of the uses made of it so far; the uninterpreted functions
//! below name the value that each kind of use produces.

use crate::Statement;
use rand::seq::SliceRandom;
use rand::Rng;
use rand::SeedableRng;
use vstd::prelude::*;

verus! {

/// One recorded use of the random stream.
pub ghost enum RngUse {
    /// One machine word was drawn and its value used or discarded.
    Word,
    /// A value was drawn uniformly from the half-open range `[lo, hi)`.
    Range { lo: usize, hi: usize },
    /// A slice of the given length was shuffled in place.
    Shuffle { len: nat },
}

/// The state of a seeded random stream: the seed it was built from and
/// the uses made of it so far, oldest first.
pub ghost struct RngModel {
    pub seed: u64,
    pub uses: Seq<RngUse>,
}

/// The machine word that a stream with the given seed yields after the
/// given uses.
pub uninterp spec fn rng_word(seed: u64, uses: Seq<RngUse>) -> usize;

/// The value in `[lo, hi)` that a stream with the given seed yields
/// after the given uses.
pub uninterp spec fn rng_range(seed: u64, uses: Seq<RngUse>, lo: usize, hi: usize) -> usize;

/// The permutation (as a sequence of source indices) that shuffling a
/// slice of the given length applies, for a stream with the given seed
/// after the given uses.
pub uninterp spec fn rng_perm(seed: u64, uses: Seq<RngUse>, len: nat) -> Seq<int>;

/// `p` maps the positions `0..n` onto themselves without repetition.
pub open spec fn is_perm(p: Seq<int>, n: nat) -> bool {
    &&& p.len() == n
    &&& forall|i: int| 0 <= i < n ==> 0 <= #[trigger] p[i] < n
    &&& forall|i: int, j: int| 0 <= i < j < n ==> p[i] != p[j]
}

/// The sequence whose element at `i` is `s[p[i]]`.
pub open spec fn apply_perm<T>(s: Seq<T>, p: Seq<int>) -> Seq<T>
    recommends
        is_perm(p, s.len()),
{
    Seq::new(s.len(), |i: int| s[p[i]])
}

#[verifier::external_type_specification]
#[verifier::external_body]
pub struct ExStdRng(rand::rngs::StdRng);

/// Relies on rand's `StdRng::seed_from_u64`: the stream built from a
/// seed is a deterministic function of that seed.  What the draws from
/// it yield is stated by the methods of [`StreamRng`], over the seed and
/// the record of uses.
#[verifier::external_body]
fn make_std_rng(seed: u64) -> rand::rngs::StdRng {
    rand::rngs::StdRng::seed_from_u64(seed)
}

/// A seeded pseudo-random stream together with the ghost record of the
/// uses made of it.
pub struct StreamRng {
    inner: rand::rngs::StdRng,
    seed: u64,
    uses: Ghost<Seq<RngUse>>,
}

impl StreamRng {
    /// The model of this stream: its seed and its uses so far.
    pub closed spec fn model(&self) -> RngModel {
        RngModel { seed: self.seed, uses: self.uses@ }
    }

    /// A fresh stream seeded from the given integer, with no uses yet.
    pub fn new(seed: u64) -> (r: StreamRng)
        ensures
            r.model() == (RngModel { seed, uses: Seq::<RngUse>::empty() }),
    {
        StreamRng { inner: make_std_rng(seed), seed, uses: Ghost(Seq::empty()) }
    }

    /// Relies on rand's `Rng::gen::<usize>`: the word drawn is a
    /// function of the seed and of the uses made of the stream so far.
    #[verifier::external_body]
    pub fn next_word(&mut self) -> (r: usize)
        ensures
            r == rng_word(old(self).model().seed, old(self).model().uses),
            final(self).model() == (RngModel {
                seed: old(self).model().seed,
                uses: old(self).model().uses.push(RngUse::Word),
            }),
    {
        self.inner.gen()
    }

    /// Relies on rand's `Rng::gen_range(lo, hi)`: the value drawn lies
    /// in `[lo, hi)` and is a function of the seed, the uses made of the
    /// stream so far and the two bounds.
    #[verifier::external_body]
    pub fn next_in_range(&mut self, lo: usize, hi: usize) -> (r: usize)
        requires
            lo < hi,
        ensures
            lo <= r < hi,
            r == rng_range(old(self).model().seed, old(self).model().uses, lo, hi),
            final(self).model() == (RngModel {
                seed: old(self).model().seed,
                uses: old(self).model().uses.push(RngUse::Range { lo, hi }),
            }),
    {
        self.inner.gen_range(lo, hi)
    }

    /// Relies on rand's `SliceRandom::shuffle`: a Fisher-Yates shuffle
    /// that swaps by position, so the permutation applied is a function
    /// of the seed, the uses made of the stream so far and the slice
    /// length alone, and every element of the input ends at exactly one
    /// position of the output.
    #[verifier::external_body]
    pub fn shuffle_statements(&mut self, v: &mut Vec<Statement>)
        ensures
            is_perm(
                rng_perm(old(self).model().seed, old(self).model().uses, old(v)@.len()),
                old(v)@.len(),
            ),
            final(v)@ == apply_perm(
                old(v)@,
                rng_perm(old(self).model().seed, old(self).model().uses, old(v)@.len()),
            ),
            final(self).model() == (RngModel {
                seed: old(self).model().seed,
                uses: old(self).model().uses.push(RngUse::Shuffle { len: old(v)@.len() }),
            }),
    {
        v.as_mut_slice().shuffle(&mut self.inner);
    }
}

} // verus!
