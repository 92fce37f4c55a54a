//! The seeded random generator that reorders the table of moves between two
//! attempts of the solver.
//!
//! Nothing in this file is proved: each contract states what the sources of
//! `rand` and `rand_pcg` show of the function that the body calls.

use crate::moves::Move;
use rand::seq::SliceRandom;
use rand::{Rng, SeedableRng};
use rand_pcg::Pcg64Mcg;
use vstd::prelude::*;

verus! {

/// The generator `Pcg64Mcg` of `rand_pcg`, of which nothing is known but
/// that it is one.
#[verifier::external_type_specification]
#[verifier::external_body]
pub struct ExPcg64Mcg(Pcg64Mcg);

/// The state of a generator, from which all its further output follows.
pub uninterp spec fn generator_state(rng: Pcg64Mcg) -> int;

/// The state of the generator that `seed_from_u64` makes of a seed.
pub uninterp spec fn seeded_state(seed: u64) -> int;

/// What a shuffle of `len` elements does with a generator in the given
/// state: for each place of the shuffled slice the place from which its
/// element comes, and the state of the generator afterwards.
pub uninterp spec fn shuffle_outcome(state: int, len: int) -> (Seq<int>, int);

/// The elements of `before` in the order that says for each place where its
/// element comes from.
pub open spec fn reordered(before: Seq<Move>, order: Seq<int>) -> Seq<Move> {
    Seq::new(before.len(), |i: int| before[order[i]])
}

/// `SeedableRng::seed_from_u64` of `Pcg64Mcg`: a generator whose state, and
/// so whose whole output, is fixed by the seed. Nothing is stated of the
/// numbers that it yields.
#[verifier::external_body]
pub(crate) fn seeded_generator(seed: u64) -> (rng: Pcg64Mcg)
    ensures
        generator_state(rng) == seeded_state(seed),
{
    Pcg64Mcg::seed_from_u64(seed)
}

/// `SliceRandom::shuffle` of a slice: it swaps elements in place, so that the
/// table holds the same moves as before, each as often as before. Which
/// element goes where depends on nothing but the state of the generator and
/// the length of the slice, on every machine: `rand` draws the places as
/// 32-bit numbers.
#[verifier::external_body]
pub(crate) fn shuffle_moves(moves: &mut [Move; 76], rng: &mut Pcg64Mcg)
    ensures
        final(moves)@.to_multiset() == old(moves)@.to_multiset(),
        final(moves)@ == reordered(
            old(moves)@,
            shuffle_outcome(generator_state(*old(rng)), 76).0,
        ),
        generator_state(*final(rng)) == shuffle_outcome(generator_state(*old(rng)), 76).1,
{
    moves.shuffle(rng);
}

/// What a draw of a number below `bound` gives with a generator in the given
/// state: the number, and the state of the generator afterwards.
pub uninterp spec fn draw_outcome(state: int, bound: int) -> (int, int);

/// `Rng::random_range` over the range below `bound`: a number below the
/// bound, which depends on nothing but the state of the generator and the
/// bound. It panics if the range is empty.
#[verifier::external_body]
pub(crate) fn random_below(rng: &mut Pcg64Mcg, bound: usize) -> (r: usize)
    requires
        bound > 0,
    ensures
        r < bound,
        r == draw_outcome(generator_state(*old(rng)), bound as int).0,
        generator_state(*final(rng)) == draw_outcome(generator_state(*old(rng)), bound as int).1,
{
    rng.random_range(..bound)
}

} // verus!
