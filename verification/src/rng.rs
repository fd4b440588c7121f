//! The seeded random number generator behind every random decision of
//! the generator, with ghost bookkeeping that makes each draw a stated
//! function of the seed and the requests served before it.

use rand::seq::SliceRandom;
use rand::Rng;
use vstd::prelude::*;

verus! {

#[verifier::external_type_specification]
#[verifier::external_body]
pub struct ExStdRng(rand::rngs::StdRng);

/// The value that the pinned ChaCha12-based standard generator draws for an
/// inclusive integer range, as a function of the seed it was created from,
/// the requests it has already served, and the range bounds. The generator
/// is a pure function of its seed, so the draw is fixed by these arguments.
pub uninterp spec fn range_draw(seed: u64, history: Seq<(int, int, int)>, lo: usize, hi: usize) -> usize;

/// The permutation that the pinned generator applies when shuffling a slice
/// of coordinate pairs, as a function of the seed, the requests already
/// served, and the slice contents.
pub uninterp spec fn shuffle_draw(
    seed: u64,
    history: Seq<(int, int, int)>,
    items: Seq<(usize, usize)>,
) -> Seq<(usize, usize)>;

/// A seeded random number generator threaded through the whole generation
/// pipeline. The ghost fields record the seed and the requests served so
/// far, so that contracts can state that every draw is determined by them.
pub struct LevelRng {
    pub inner: rand::rngs::StdRng,
    pub seed: Ghost<u64>,
    pub history: Ghost<Seq<(int, int, int)>>,
}

/// Relies on rand's `SeedableRng::seed_from_u64` for `StdRng`: a fixed seed
/// always yields the same generator state.
#[verifier::external_body]
fn seeded_generator(seed: u64) -> rand::rngs::StdRng {
    <rand::rngs::StdRng as rand::SeedableRng>::seed_from_u64(seed)
}

impl LevelRng {
    pub fn new(seed: u64) -> (r: LevelRng)
        ensures
            r.seed@ == seed,
            r.history@ == Seq::<(int, int, int)>::empty(),
    {
        LevelRng {
            inner: seeded_generator(seed),
            seed: Ghost(seed),
            history: Ghost(Seq::empty()),
        }
    }

    /// Relies on rand's `Rng::random_range` over an inclusive `usize` range
    /// on `StdRng`: it returns a value in `[lo, hi]`, panics only on an
    /// empty range, and draws a pure function of the generator state.
    #[verifier::external_body]
    pub fn range_usize(&mut self, lo: usize, hi: usize) -> (r: usize)
        requires
            lo <= hi,
        ensures
            lo <= r <= hi,
            r == range_draw(old(self).seed@, old(self).history@, lo, hi),
            final(self).seed@ == old(self).seed@,
            final(self).history@ == old(self).history@.push((0int, lo as int, hi as int)),
    {
        self.inner.random_range(lo..=hi)
    }

    /// Relies on rand's `SliceRandom::shuffle` on `StdRng`: it permutes the
    /// slice in place, and the permutation is a pure function of the
    /// generator state and the slice length.
    #[verifier::external_body]
    pub fn shuffle_pairs(&mut self, items: &mut Vec<(usize, usize)>)
        ensures
            final(items)@ == shuffle_draw(old(self).seed@, old(self).history@, old(items)@),
            final(items)@.to_multiset() == old(items)@.to_multiset(),
            final(items)@.len() == old(items)@.len(),
            final(self).seed@ == old(self).seed@,
            final(self).history@ == old(self).history@.push(
                (1int, old(items)@.len() as int, 0int),
            ),
    {
        items.shuffle(&mut self.inner);
    }
}

} // verus!
