//! The path cache: the last known way to solve the current position, kept
//! up to date move by move so that the solver runs only when the player
//! leaves the known path.

use crate::bloom::BloomFilter;
use crate::coord::{on_board, Coord};
use crate::moves::{two_apart, Move};
use crate::position::Position;
use crate::bits::lemma_popcount_two_bits;
use crate::position::{
    lemma_apply_then_inverse, lemma_inverse_count, lemma_inverse_move, lemma_inverse_then_apply,
    lemma_move_changes_count, lemma_move_holes, lemma_move_needs_pegs,
    lemma_start_and_end_counts,
};
use crate::solver::{
    guided, lemma_guided_length, lemma_guided_plays, lemma_play_backwards, play, playable, rejected_at_once, search_start, solve_with_bloom_filter, spec_movable,
    spec_moved, spec_solve, Direction, SolveResult, Verdict,
};
use vstd::prelude::*;

verus! {

/// The number of moves in a solution from the start position.
pub const PATH_LEN: usize = 31;

/// Is the current position solvable, i.e. does a path exist from the current
/// position to the end?
#[derive(Debug, Clone, Copy, PartialEq, Eq, Structural)]
pub enum Solvability {
    /// Yes, the position is solvable.
    Solvable,
    /// Yes, we have already reached the target position.
    Solved,
    /// No, the position is not solvable.
    Unsolvable,
    /// Maybe. Either we haven't computed the solution path yet, or the
    /// solver gave up.
    Unknown,
}

impl Solvability {
    /// The position is solvable or already solved.
    pub open spec fn spec_solvable(self) -> bool {
        self == Solvability::Solvable || self == Solvability::Solved
    }

    /// Check if the position is either solvable or already solved.
    pub fn solvable(self) -> (r: bool)
        ensures
            r == self.spec_solvable(),
    {
        match self {
            Solvability::Solvable => true,
            Solvability::Solved => true,
            Solvability::Unsolvable => false,
            Solvability::Unknown => false,
        }
    }
}

/// The two ends of move `i` of the reference solution, which passes via the
/// heart shape: the column and row of its source and of its destination.
pub open spec fn reference_ends(i: usize) -> ((int, int), (int, int)) {
    match i {
        0 => ((0, -2), (0, 0)),
        1 => ((-2, -1), (0, -1)),
        2 => ((-1, -3), (-1, -1)),
        3 => ((-1, 0), (-1, -2)),
        4 => ((1, -3), (-1, -3)),
        5 => ((-1, -3), (-1, -1)),
        6 => ((-1, 2), (-1, 0)),
        7 => ((-3, 1), (-1, 1)),
        8 => ((0, 1), (-2, 1)),
        9 => ((-3, -1), (-3, 1)),
        10 => ((-3, 1), (-1, 1)),
        11 => ((2, 1), (0, 1)),
        12 => ((1, 3), (1, 1)),
        13 => ((1, 0), (1, 2)),
        14 => ((-1, 3), (1, 3)),
        15 => ((1, 3), (1, 1)),
        16 => ((1, -2), (1, 0)),
        17 => ((3, -1), (1, -1)),
        18 => ((0, -1), (2, -1)),
        19 => ((3, 1), (3, -1)),
        20 => ((3, -1), (1, -1)),
        21 => ((0, 1), (2, 1)),
        22 => ((2, 1), (2, -1)),
        23 => ((2, -1), (0, -1)),
        24 => ((0, -1), (-2, -1)),
        25 => ((-2, -1), (-2, 1)),
        26 => ((-2, 1), (0, 1)),
        27 => ((0, 0), (-2, 0)),
        28 => ((0, 2), (0, 0)),
        29 => ((1, 0), (-1, 0)),
        _ => ((-2, 0), (0, 0)),
    }
}

/// Move `i` of the reference solution.
pub open spec fn reference_move(i: int) -> Move {
    let ends = reference_ends(i as usize);
    Move::jump(Coord::at(ends.0.0, ends.0.1), Coord::at(ends.1.0, ends.1.1))
}

fn reference_ends_at(i: usize) -> (r: ((i8, i8), (i8, i8)))
    requires
        i < 31,
    ensures
        ((r.0.0 as int, r.0.1 as int), (r.1.0 as int, r.1.1 as int)) == reference_ends(i),
        on_board(r.0.0 as int, r.0.1 as int),
        on_board(r.1.0 as int, r.1.1 as int),
        two_apart(r.0.0 as int, r.0.1 as int, r.1.0 as int, r.1.1 as int),
{
    match i {
        0 => ((0, -2), (0, 0)),
        1 => ((-2, -1), (0, -1)),
        2 => ((-1, -3), (-1, -1)),
        3 => ((-1, 0), (-1, -2)),
        4 => ((1, -3), (-1, -3)),
        5 => ((-1, -3), (-1, -1)),
        6 => ((-1, 2), (-1, 0)),
        7 => ((-3, 1), (-1, 1)),
        8 => ((0, 1), (-2, 1)),
        9 => ((-3, -1), (-3, 1)),
        10 => ((-3, 1), (-1, 1)),
        11 => ((2, 1), (0, 1)),
        12 => ((1, 3), (1, 1)),
        13 => ((1, 0), (1, 2)),
        14 => ((-1, 3), (1, 3)),
        15 => ((1, 3), (1, 1)),
        16 => ((1, -2), (1, 0)),
        17 => ((3, -1), (1, -1)),
        18 => ((0, -1), (2, -1)),
        19 => ((3, 1), (3, -1)),
        20 => ((3, -1), (1, -1)),
        21 => ((0, 1), (2, 1)),
        22 => ((2, 1), (2, -1)),
        23 => ((2, -1), (0, -1)),
        24 => ((0, -1), (-2, -1)),
        25 => ((-2, -1), (-2, 1)),
        26 => ((-2, 1), (0, 1)),
        27 => ((0, 0), (-2, 0)),
        28 => ((0, 2), (0, 0)),
        29 => ((1, 0), (-1, 0)),
        _ => ((-2, 0), (0, 0)),
    }
}

/// The moves of the reference solution, from the start position to the
/// target.
pub fn default_solve_path() -> (r: [Move; 31])
    ensures
        forall|i: int| 0 <= i < 31 ==> r@[i] == #[trigger] reference_move(i),
{
    let mut path: [Move; 31] = [Move::from_raw_coords((0, -2), (0, 0));31];
    let mut i: usize = 0;
    while i < 31
        invariant
            0 <= i <= 31,
            forall|j: int| 0 <= j < i ==> path@[j] == #[trigger] reference_move(j),
        decreases 31 - i,
    {
        let ends = reference_ends_at(i);
        path[i] = Move::from_raw_coords(ends.0, ends.1);
        i += 1;
    }
    path
}

/// The position after the first `i` moves of the reference solution.
pub open spec fn reference_position(i: usize) -> Position {
    match i {
        0 => Position(0x1_fffe_ffff),
        1 => Position(0x1_ffff_fdef),
        2 => Position(0x1_ffff_fe6f),
        3 => Position(0x1_ffff_ff66),
        4 => Position(0x1_ffff_7e6e),
        5 => Position(0x1_ffff_7e69),
        6 => Position(0x1_ffff_7f60),
        7 => Position(0x1_f7bf_ff60),
        8 => Position(0x1_f7cf_ff60),
        9 => Position(0x1_f72f_ff60),
        10 => Position(0x1_f73f_df20),
        11 => Position(0x1_f74f_df20),
        12 => Position(0x1_f4cf_df20),
        13 => Position(0x0_d5cf_df20),
        14 => Position(0x0_f4cd_df20),
        15 => Position(0x1_34cd_df20),
        16 => Position(0x0_15cd_df20),
        17 => Position(0x0_15cf_db00),
        18 => Position(0x0_15cf_c700),
        19 => Position(0x0_15cf_c900),
        20 => Position(0x0_11c7_d900),
        21 => Position(0x0_11c7_c500),
        22 => Position(0x0_1247_c500),
        23 => Position(0x0_1043_cd00),
        24 => Position(0x0_1043_c300),
        25 => Position(0x0_1043_c080),
        26 => Position(0x0_1063_8000),
        27 => Position(0x0_1083_8000),
        28 => Position(0x0_1082_4000),
        29 => Position(0x0_0003_4000),
        30 => Position(0x0_0000_c000),
        _ => Position(0x0_0001_0000),
    }
}

proof fn lemma_reference_bits()
    by (bit_vector)
    ensures
        0x1_fffe_ffffu64 & ((1u64 << 4u64) | (1u64 << 9u64)) == ((1u64 << 4u64) | (1u64 << 9u64)),
        0x1_fffe_ffffu64 & (1u64 << 16u64) == 0,
        (0x1_fffe_ffffu64 & !((1u64 << 4u64) | (1u64 << 9u64))) | (1u64 << 16u64) == 0x1_ffff_fdef,
        0x1_ffff_fdefu64 & ((1u64 << 7u64) | (1u64 << 8u64)) == ((1u64 << 7u64) | (1u64 << 8u64)),
        0x1_ffff_fdefu64 & (1u64 << 9u64) == 0,
        (0x1_ffff_fdefu64 & !((1u64 << 7u64) | (1u64 << 8u64))) | (1u64 << 9u64) == 0x1_ffff_fe6f,
        0x1_ffff_fe6fu64 & ((1u64 << 0u64) | (1u64 << 3u64)) == ((1u64 << 0u64) | (1u64 << 3u64)),
        0x1_ffff_fe6fu64 & (1u64 << 8u64) == 0,
        (0x1_ffff_fe6fu64 & !((1u64 << 0u64) | (1u64 << 3u64))) | (1u64 << 8u64) == 0x1_ffff_ff66,
        0x1_ffff_ff66u64 & ((1u64 << 15u64) | (1u64 << 8u64)) == ((1u64 << 15u64) | (1u64 << 8u64)),
        0x1_ffff_ff66u64 & (1u64 << 3u64) == 0,
        (0x1_ffff_ff66u64 & !((1u64 << 15u64) | (1u64 << 8u64))) | (1u64 << 3u64) == 0x1_ffff_7e6e,
        0x1_ffff_7e6eu64 & ((1u64 << 2u64) | (1u64 << 1u64)) == ((1u64 << 2u64) | (1u64 << 1u64)),
        0x1_ffff_7e6eu64 & (1u64 << 0u64) == 0,
        (0x1_ffff_7e6eu64 & !((1u64 << 2u64) | (1u64 << 1u64))) | (1u64 << 0u64) == 0x1_ffff_7e69,
        0x1_ffff_7e69u64 & ((1u64 << 0u64) | (1u64 << 3u64)) == ((1u64 << 0u64) | (1u64 << 3u64)),
        0x1_ffff_7e69u64 & (1u64 << 8u64) == 0,
        (0x1_ffff_7e69u64 & !((1u64 << 0u64) | (1u64 << 3u64))) | (1u64 << 8u64) == 0x1_ffff_7f60,
        0x1_ffff_7f60u64 & ((1u64 << 27u64) | (1u64 << 22u64)) == ((1u64 << 27u64) | (1u64 << 22u64)),
        0x1_ffff_7f60u64 & (1u64 << 15u64) == 0,
        (0x1_ffff_7f60u64 & !((1u64 << 27u64) | (1u64 << 22u64))) | (1u64 << 15u64) == 0x1_f7bf_ff60,
        0x1_f7bf_ff60u64 & ((1u64 << 20u64) | (1u64 << 21u64)) == ((1u64 << 20u64) | (1u64 << 21u64)),
        0x1_f7bf_ff60u64 & (1u64 << 22u64) == 0,
        (0x1_f7bf_ff60u64 & !((1u64 << 20u64) | (1u64 << 21u64))) | (1u64 << 22u64) == 0x1_f7cf_ff60,
        0x1_f7cf_ff60u64 & ((1u64 << 23u64) | (1u64 << 22u64)) == ((1u64 << 23u64) | (1u64 << 22u64)),
        0x1_f7cf_ff60u64 & (1u64 << 21u64) == 0,
        (0x1_f7cf_ff60u64 & !((1u64 << 23u64) | (1u64 << 22u64))) | (1u64 << 21u64) == 0x1_f72f_ff60,
        0x1_f72f_ff60u64 & ((1u64 << 6u64) | (1u64 << 13u64)) == ((1u64 << 6u64) | (1u64 << 13u64)),
        0x1_f72f_ff60u64 & (1u64 << 20u64) == 0,
        (0x1_f72f_ff60u64 & !((1u64 << 6u64) | (1u64 << 13u64))) | (1u64 << 20u64) == 0x1_f73f_df20,
        0x1_f73f_df20u64 & ((1u64 << 20u64) | (1u64 << 21u64)) == ((1u64 << 20u64) | (1u64 << 21u64)),
        0x1_f73f_df20u64 & (1u64 << 22u64) == 0,
        (0x1_f73f_df20u64 & !((1u64 << 20u64) | (1u64 << 21u64))) | (1u64 << 22u64) == 0x1_f74f_df20,
        0x1_f74f_df20u64 & ((1u64 << 25u64) | (1u64 << 24u64)) == ((1u64 << 25u64) | (1u64 << 24u64)),
        0x1_f74f_df20u64 & (1u64 << 23u64) == 0,
        (0x1_f74f_df20u64 & !((1u64 << 25u64) | (1u64 << 24u64))) | (1u64 << 23u64) == 0x1_f4cf_df20,
        0x1_f4cf_df20u64 & ((1u64 << 32u64) | (1u64 << 29u64)) == ((1u64 << 32u64) | (1u64 << 29u64)),
        0x1_f4cf_df20u64 & (1u64 << 24u64) == 0,
        (0x1_f4cf_df20u64 & !((1u64 << 32u64) | (1u64 << 29u64))) | (1u64 << 24u64) == 0x0_d5cf_df20,
        0x0_d5cf_df20u64 & ((1u64 << 17u64) | (1u64 << 24u64)) == ((1u64 << 17u64) | (1u64 << 24u64)),
        0x0_d5cf_df20u64 & (1u64 << 29u64) == 0,
        (0x0_d5cf_df20u64 & !((1u64 << 17u64) | (1u64 << 24u64))) | (1u64 << 29u64) == 0x0_f4cd_df20,
        0x0_f4cd_df20u64 & ((1u64 << 30u64) | (1u64 << 31u64)) == ((1u64 << 30u64) | (1u64 << 31u64)),
        0x0_f4cd_df20u64 & (1u64 << 32u64) == 0,
        (0x0_f4cd_df20u64 & !((1u64 << 30u64) | (1u64 << 31u64))) | (1u64 << 32u64) == 0x1_34cd_df20,
        0x1_34cd_df20u64 & ((1u64 << 32u64) | (1u64 << 29u64)) == ((1u64 << 32u64) | (1u64 << 29u64)),
        0x1_34cd_df20u64 & (1u64 << 24u64) == 0,
        (0x1_34cd_df20u64 & !((1u64 << 32u64) | (1u64 << 29u64))) | (1u64 << 24u64) == 0x0_15cd_df20,
        0x0_15cd_df20u64 & ((1u64 << 5u64) | (1u64 << 10u64)) == ((1u64 << 5u64) | (1u64 << 10u64)),
        0x0_15cd_df20u64 & (1u64 << 17u64) == 0,
        (0x0_15cd_df20u64 & !((1u64 << 5u64) | (1u64 << 10u64))) | (1u64 << 17u64) == 0x0_15cf_db00,
        0x0_15cf_db00u64 & ((1u64 << 12u64) | (1u64 << 11u64)) == ((1u64 << 12u64) | (1u64 << 11u64)),
        0x0_15cf_db00u64 & (1u64 << 10u64) == 0,
        (0x0_15cf_db00u64 & !((1u64 << 12u64) | (1u64 << 11u64))) | (1u64 << 10u64) == 0x0_15cf_c700,
        0x0_15cf_c700u64 & ((1u64 << 9u64) | (1u64 << 10u64)) == ((1u64 << 9u64) | (1u64 << 10u64)),
        0x0_15cf_c700u64 & (1u64 << 11u64) == 0,
        (0x0_15cf_c700u64 & !((1u64 << 9u64) | (1u64 << 10u64))) | (1u64 << 11u64) == 0x0_15cf_c900,
        0x0_15cf_c900u64 & ((1u64 << 26u64) | (1u64 << 19u64)) == ((1u64 << 26u64) | (1u64 << 19u64)),
        0x0_15cf_c900u64 & (1u64 << 12u64) == 0,
        (0x0_15cf_c900u64 & !((1u64 << 26u64) | (1u64 << 19u64))) | (1u64 << 12u64) == 0x0_11c7_d900,
        0x0_11c7_d900u64 & ((1u64 << 12u64) | (1u64 << 11u64)) == ((1u64 << 12u64) | (1u64 << 11u64)),
        0x0_11c7_d900u64 & (1u64 << 10u64) == 0,
        (0x0_11c7_d900u64 & !((1u64 << 12u64) | (1u64 << 11u64))) | (1u64 << 10u64) == 0x0_11c7_c500,
        0x0_11c7_c500u64 & ((1u64 << 23u64) | (1u64 << 24u64)) == ((1u64 << 23u64) | (1u64 << 24u64)),
        0x0_11c7_c500u64 & (1u64 << 25u64) == 0,
        (0x0_11c7_c500u64 & !((1u64 << 23u64) | (1u64 << 24u64))) | (1u64 << 25u64) == 0x0_1247_c500,
        0x0_1247_c500u64 & ((1u64 << 25u64) | (1u64 << 18u64)) == ((1u64 << 25u64) | (1u64 << 18u64)),
        0x0_1247_c500u64 & (1u64 << 11u64) == 0,
        (0x0_1247_c500u64 & !((1u64 << 25u64) | (1u64 << 18u64))) | (1u64 << 11u64) == 0x0_1043_cd00,
        0x0_1043_cd00u64 & ((1u64 << 11u64) | (1u64 << 10u64)) == ((1u64 << 11u64) | (1u64 << 10u64)),
        0x0_1043_cd00u64 & (1u64 << 9u64) == 0,
        (0x0_1043_cd00u64 & !((1u64 << 11u64) | (1u64 << 10u64))) | (1u64 << 9u64) == 0x0_1043_c300,
        0x0_1043_c300u64 & ((1u64 << 9u64) | (1u64 << 8u64)) == ((1u64 << 9u64) | (1u64 << 8u64)),
        0x0_1043_c300u64 & (1u64 << 7u64) == 0,
        (0x0_1043_c300u64 & !((1u64 << 9u64) | (1u64 << 8u64))) | (1u64 << 7u64) == 0x0_1043_c080,
        0x0_1043_c080u64 & ((1u64 << 7u64) | (1u64 << 14u64)) == ((1u64 << 7u64) | (1u64 << 14u64)),
        0x0_1043_c080u64 & (1u64 << 21u64) == 0,
        (0x0_1043_c080u64 & !((1u64 << 7u64) | (1u64 << 14u64))) | (1u64 << 21u64) == 0x0_1063_8000,
        0x0_1063_8000u64 & ((1u64 << 21u64) | (1u64 << 22u64)) == ((1u64 << 21u64) | (1u64 << 22u64)),
        0x0_1063_8000u64 & (1u64 << 23u64) == 0,
        (0x0_1063_8000u64 & !((1u64 << 21u64) | (1u64 << 22u64))) | (1u64 << 23u64) == 0x0_1083_8000,
        0x0_1083_8000u64 & ((1u64 << 16u64) | (1u64 << 15u64)) == ((1u64 << 16u64) | (1u64 << 15u64)),
        0x0_1083_8000u64 & (1u64 << 14u64) == 0,
        (0x0_1083_8000u64 & !((1u64 << 16u64) | (1u64 << 15u64))) | (1u64 << 14u64) == 0x0_1082_4000,
        0x0_1082_4000u64 & ((1u64 << 28u64) | (1u64 << 23u64)) == ((1u64 << 28u64) | (1u64 << 23u64)),
        0x0_1082_4000u64 & (1u64 << 16u64) == 0,
        (0x0_1082_4000u64 & !((1u64 << 28u64) | (1u64 << 23u64))) | (1u64 << 16u64) == 0x0_0003_4000,
        0x0_0003_4000u64 & ((1u64 << 17u64) | (1u64 << 16u64)) == ((1u64 << 17u64) | (1u64 << 16u64)),
        0x0_0003_4000u64 & (1u64 << 15u64) == 0,
        (0x0_0003_4000u64 & !((1u64 << 17u64) | (1u64 << 16u64))) | (1u64 << 15u64) == 0x0_0000_c000,
        0x0_0000_c000u64 & ((1u64 << 14u64) | (1u64 << 15u64)) == ((1u64 << 14u64) | (1u64 << 15u64)),
        0x0_0000_c000u64 & (1u64 << 16u64) == 0,
        (0x0_0000_c000u64 & !((1u64 << 14u64) | (1u64 << 15u64))) | (1u64 << 16u64) == 0x0_0001_0000,
{
}

/// Each move of the reference solution can be made in the position that the
/// moves before it give, and gives the next position.
pub proof fn lemma_reference_step(i: int)
    requires
        0 <= i < 31,
    ensures
        reference_move(i).valid(),
        reference_position(i as usize).spec_can_move(reference_move(i)),
        reference_position(i as usize).spec_apply_move(reference_move(i)) == reference_position(
            (i + 1) as usize,
        ),
{
    let ends = reference_ends(i as usize);
    let src = Coord::at(ends.0.0, ends.0.1);
    let dst = Coord::at(ends.1.0, ends.1.1);
    Coord::lemma_at_view(ends.0.0, ends.0.1);
    Coord::lemma_at_view(ends.1.0, ends.1.1);
    Move::lemma_jump_valid(src, dst);
    let mv = reference_move(i);
    lemma_move_holes(mv);
    lemma_popcount_two_bits(
        reference_position(i as usize).0,
        mv.spec_source().spec_hole_idx() as u64,
        mv.spec_middle().spec_hole_idx() as u64,
    );
    lemma_reference_bits();
}

/// The reference solution from its move number `i` on.
pub open spec fn reference_moves_from(i: int) -> Seq<Move> {
    Seq::new((31 - i) as nat, |j: int| reference_move(i + j))
}

/// The reference solution from move `i` on can be played from the position
/// after its first `i` moves and leads to the target.
pub proof fn lemma_reference_solves(i: int)
    requires
        0 <= i <= 31,
    ensures
        playable(reference_position(i as usize), reference_moves_from(i)),
        play(reference_position(i as usize), reference_moves_from(i))
            == Position::spec_default_end(),
        reference_position(0) == Position::spec_default_start(),
        reference_position(31) == Position::spec_default_end(),
    decreases 31 - i,
{
    if i < 31 {
        lemma_reference_step(i);
        lemma_reference_solves(i + 1);
        assert(reference_moves_from(i).drop_first() =~= reference_moves_from(i + 1));
    }
}

/// Store the path to solve the current position.
///
/// This data structure updates the known solve path if a move is taken. If
/// the move follows the known solve path, then we remain on that path and no
/// new solve run is required. If we leave the known path, then we might have
/// to recompute.
///
/// The path is kept in 31 slots, one for each move of a game from 32 pegs
/// down to one: the move that leads from `n` pegs to `n - 1` stands in slot
/// `32 - n`. The moves towards the target are the slots from the current
/// one up, the moves back towards the start are the slots below it.
#[derive(Debug, Clone, Copy, PartialEq)]
pub struct SolvePath {
    path: [Move; 31],
    forward: Solvability,
    backward: Solvability,
    current_nr_pegs: i32,
}

/// The slot of the next move in the given direction from a position with
/// `nr_pegs` pegs, if there is a move left in that direction.
pub open spec fn spec_slot(nr_pegs: int, dir: Direction) -> Option<int> {
    match dir {
        Direction::Forward => if nr_pegs > 1 {
            Some(32 - nr_pegs)
        } else {
            None
        },
        Direction::Backward => if nr_pegs < 32 {
            Some(32 - nr_pegs - 1)
        } else {
            None
        },
    }
}

/// What is known of a direction in which the path is known: the position is
/// solvable if a move is left in that direction, and solved if none is.
pub open spec fn spec_settled(nr_pegs: int, dir: Direction) -> Solvability {
    if spec_slot(nr_pegs, dir) is Some {
        Solvability::Solvable
    } else {
        Solvability::Solved
    }
}

/// The number of pegs after a move in the given direction.
pub open spec fn spec_pegs_after(nr_pegs: int, dir: Direction) -> int {
    match dir {
        Direction::Forward => nr_pegs - 1,
        Direction::Backward => nr_pegs + 1,
    }
}

impl SolvePath {
    /// The cache speaks of a position with 1 to 32 pegs.
    #[verifier::type_invariant]
    pub closed spec fn wf(self) -> bool {
        1 <= self.current_nr_pegs <= 32
    }

    /// What a cache is made of: it speaks of a position with 1 to 32 pegs and
    /// has 31 slots, of which it holds one for each move that is left
    /// towards the target and one for each move back towards the start.
    pub proof fn lemma_wf(self)
        requires
            self.wf(),
        ensures
            1 <= self.spec_nr_pegs() <= 32,
            self.spec_path().len() == 31,
            self.spec_moves_towards(Direction::Forward).len() == self.spec_nr_pegs() - 1,
            self.spec_moves_towards(Direction::Backward).len() == 32 - self.spec_nr_pegs(),
    {
    }

    /// The 31 slots of the path.
    pub closed spec fn spec_path(self) -> Seq<Move> {
        self.path@
    }

    /// The number of pegs of the current position.
    pub closed spec fn spec_nr_pegs(self) -> int {
        self.current_nr_pegs as int
    }

    /// What is known of the given direction.
    pub closed spec fn spec_status(self, dir: Direction) -> Solvability {
        match dir {
            Direction::Forward => self.forward,
            Direction::Backward => self.backward,
        }
    }

    /// The move to take next in the given direction, if the position is known
    /// to be solvable in that direction and is not solved yet.
    pub open spec fn spec_next_move(self, dir: Direction) -> Option<Move> {
        if self.spec_status(dir) == Solvability::Solvable && spec_slot(self.spec_nr_pegs(), dir)
            is Some {
            Some(self.spec_path()[spec_slot(self.spec_nr_pegs(), dir)->0])
        } else {
            None
        }
    }

    /// The moves that the cache holds for the given direction, in the order
    /// in which they would be made: towards the target the slots from the
    /// current one up, towards the start the slots below it from the top
    /// down.
    pub open spec fn spec_moves_towards(self, dir: Direction) -> Seq<Move> {
        match dir {
            Direction::Forward => self.spec_path().subrange(32 - self.spec_nr_pegs(), 31),
            Direction::Backward => self.spec_path().subrange(0, 32 - self.spec_nr_pegs()).reverse(),
        }
    }

    /// What the cache says of the direction `dir` is true of the position
    /// `pos`: if it takes the position to be solvable or solved in that
    /// direction, then the moves that it holds for the direction can be
    /// played from the start of a search in that direction and lead to the
    /// target. Towards the target the moves are played from the position
    /// itself; towards the start of the game they are played from its
    /// inverse, which is to take them back from the position itself.
    pub open spec fn consistent(self, pos: Position, dir: Direction) -> bool {
        self.spec_status(dir).spec_solvable() ==> {
            &&& playable(search_start(pos, dir), self.spec_moves_towards(dir))
            &&& play(search_start(pos, dir), self.spec_moves_towards(dir))
                == Position::spec_default_end()
        }
    }

    /// The next move in a direction is the first of the moves that the cache
    /// holds for it.
    pub proof fn lemma_next_move_first(self, dir: Direction)
        requires
            self.wf(),
            self.spec_next_move(dir) is Some,
        ensures
            self.spec_moves_towards(dir).len() > 0,
            self.spec_moves_towards(dir)[0] == self.spec_next_move(dir)->0,
            self.spec_status(dir) == Solvability::Solvable,
    {
    }

    /// The cache after a move `mv` in direction `dir` that follows the known
    /// path: the path stays, the direction of the move stays known, and the
    /// opposite direction stays known if it was.
    pub open spec fn follows_path(self, before: SolvePath, dir: Direction) -> bool {
        let pegs = spec_pegs_after(before.spec_nr_pegs(), dir);
        &&& self.spec_nr_pegs() == pegs
        &&& self.spec_path() == before.spec_path()
        &&& self.spec_status(dir) == spec_settled(pegs, dir)
        &&& self.spec_status(dir.opposite()) == if before.spec_status(
            dir.opposite(),
        ).spec_solvable() {
            spec_settled(pegs, dir.opposite())
        } else {
            Solvability::Unknown
        }
    }

    /// The cache after a move `mv` in direction `dir` that leaves the known
    /// path: nothing is known of the direction of the move any more. If the
    /// opposite direction was known, it still is, and its next move is to
    /// take `mv` back.
    pub open spec fn leaves_path(self, before: SolvePath, mv: Move, dir: Direction) -> bool {
        let pegs = spec_pegs_after(before.spec_nr_pegs(), dir);
        &&& self.spec_nr_pegs() == pegs
        &&& self.spec_status(dir) == Solvability::Unknown
        &&& if before.spec_status(dir.opposite()).spec_solvable() {
            &&& self.spec_status(dir.opposite()) == Solvability::Solvable
            &&& self.spec_path() == before.spec_path().update(
                spec_slot(pegs, dir.opposite())->0,
                mv,
            )
        } else {
            &&& self.spec_status(dir.opposite()) == Solvability::Unknown
            &&& self.spec_path() == before.spec_path()
        }
    }

    /// The cache is a new one for the position `pos`: it holds the reference
    /// solution, and takes the start position and the target to be on it
    /// and knows nothing of any other position.
    pub open spec fn is_new_for(self, pos: Position) -> bool {
        &&& self.spec_nr_pegs() == pos.spec_count()
        &&& forall|i: int| 0 <= i < 31 ==> self.spec_path()[i] == #[trigger] reference_move(i)
        &&& self.spec_status(Direction::Forward) == if pos == Position::spec_default_start() {
            Solvability::Solvable
        } else if pos == Position::spec_default_end() {
            Solvability::Solved
        } else {
            Solvability::Unknown
        }
        &&& self.spec_status(Direction::Backward) == if pos == Position::spec_default_start() {
            Solvability::Solved
        } else if pos == Position::spec_default_end() {
            Solvability::Solvable
        } else {
            Solvability::Unknown
        }
    }

    /// Construct a new `SolvePath` that starts at the given position, which
    /// must have between 1 and 32 pegs.
    ///
    /// From the start position and from the target the reference solution is
    /// known; of any other position nothing is known.
    pub fn new(pos: Position) -> (r: SolvePath)
        requires
            1 <= pos.spec_count() <= 32,
        ensures
            r.is_new_for(pos),
            r.consistent(pos, Direction::Forward),
            r.consistent(pos, Direction::Backward),
    {
        let forward;
        let backward;

        if pos == Position::default_start() {
            forward = Solvability::Solvable;
            backward = Solvability::Solved;
        } else if pos == Position::default_end() {
            forward = Solvability::Solved;
            backward = Solvability::Solvable;
        } else {
            forward = Solvability::Unknown;
            backward = Solvability::Unknown;
        }

        let current_nr_pegs = pos.count();

        let r = SolvePath { path: default_solve_path(), forward, backward, current_nr_pegs };
        proof {
            let whole = reference_moves_from(0);
            let none = reference_moves_from(31);
            let start = Position::spec_default_start();
            let end = Position::spec_default_end();
            lemma_start_and_end_counts();
            lemma_reference_solves(0);
            lemma_reference_solves(31);
            assert(r.spec_path() =~= whole);
            if pos == start {
                assert(r.spec_moves_towards(Direction::Forward) =~= whole);
                assert(r.spec_moves_towards(Direction::Backward) =~= none);
            } else if pos == end {
                assert(r.spec_moves_towards(Direction::Forward) =~= none);
                assert(r.spec_moves_towards(Direction::Backward) =~= whole.reverse());
                lemma_play_backwards(start, whole);
            }
        }
        r
    }

    /// If the current position is solvable in the given direction, return the
    /// next move that should be taken in order to solve the game.
    pub fn next_move(&self, dir: Direction) -> (r: Option<Move>)
        ensures
            r == self.spec_next_move(dir),
    {
        proof {
            use_type_invariant(self);
        }
        let status = match dir {
            Direction::Forward => self.forward,
            Direction::Backward => self.backward,
        };
        match self.get_index_in_direction(dir) {
            Some(idx) => if status == Solvability::Solvable {
                Some(self.path[idx])
            } else {
                None
            },
            None => None,
        }
    }

    /// Check if the backwards and forwards directions are solvable.
    pub fn is_solvable(&self) -> (r: (Solvability, Solvability))
        ensures
            r.0 == self.spec_status(Direction::Backward),
            r.1 == self.spec_status(Direction::Forward),
    {
        (self.backward, self.forward)
    }

    /// Apply a move to the current state.
    ///
    /// If the move follows the next move that was already suggested by the
    /// solver, then the solver can keep the current solve path cached and
    /// doesn't have to recompute anything.
    pub fn apply_move(&mut self, mv: Move, dir: Direction)
        requires
            1 <= spec_pegs_after(old(self).spec_nr_pegs(), dir) <= 32,
        ensures
            if old(self).spec_next_move(dir) == Some(mv) {
                final(self).follows_path(*old(self), dir)
            } else {
                final(self).leaves_path(*old(self), mv, dir)
            },
    {
        proof {
            use_type_invariant(&*self);
        }
        let next_move = self.next_move(dir);
        let on_path = match next_move {
            Some(next) => next == mv,
            None => false,
        };
        self.current_nr_pegs = match dir {
            Direction::Forward => self.current_nr_pegs - 1,
            Direction::Backward => self.current_nr_pegs + 1,
        };

        if on_path {
            // we moved along the known path
            match dir {
                Direction::Forward => {
                    self.forward = self.get_solvability_in_direction(Direction::Forward);
                    if self.backward.solvable() {
                        self.backward = self.get_solvability_in_direction(Direction::Backward);
                    } else {
                        self.backward = Solvability::Unknown;
                    }
                },
                Direction::Backward => {
                    if self.forward.solvable() {
                        self.forward = self.get_solvability_in_direction(Direction::Forward);
                    } else {
                        self.forward = Solvability::Unknown;
                    }
                    self.backward = self.get_solvability_in_direction(Direction::Backward);
                },
            }
        } else {
            // we left the last computed solve path
            match dir {
                Direction::Forward => {
                    self.forward = Solvability::Unknown;
                    let backward = self.backward;
                    self.backward = self.append_to_solvability(backward, Direction::Backward, mv);
                },
                Direction::Backward => {
                    let forward = self.forward;
                    self.forward = self.append_to_solvability(forward, Direction::Forward, mv);
                    self.backward = Solvability::Unknown;
                },
            }
        }
    }

    /// Takes down what the solver found for the direction `dir`: the moves of
    /// a solution replace the cached moves of that direction, and a proof
    /// that there is none is noted. A search that timed out changes nothing.
    /// What is cached for the opposite direction stays in any case.
    pub fn record(&mut self, dir: Direction, result: SolveResult)
        requires
            result.verdict() == Verdict::Solved ==> result.path().len() == match dir {
                Direction::Forward => old(self).spec_nr_pegs() - 1,
                Direction::Backward => 32 - old(self).spec_nr_pegs(),
            },
        ensures
            final(self).spec_nr_pegs() == old(self).spec_nr_pegs(),
            final(self).spec_status(dir.opposite()) == old(self).spec_status(dir.opposite()),
            final(self).spec_moves_towards(dir.opposite()) == old(self).spec_moves_towards(
                dir.opposite(),
            ),
            final(self).spec_status(dir) == match result.verdict() {
                Verdict::Solved => spec_settled(old(self).spec_nr_pegs(), dir),
                Verdict::Unsolvable => Solvability::Unsolvable,
                Verdict::TimedOut => old(self).spec_status(dir),
            },
            final(self).spec_moves_towards(dir) == if result.verdict() == Verdict::Solved {
                result.path()
            } else {
                old(self).spec_moves_towards(dir)
            },
    {
        proof {
            use_type_invariant(&*self);
        }
        let ghost before = *self;
        match result {
            SolveResult::Solved(moves) => {
                let count = moves.len();
                match self.get_index_in_direction(dir) {
                    Some(idx) => {
                        let mut j: usize = 0;
                        while j < count
                            invariant
                                0 <= j <= count,
                                count == moves@.len(),
                                idx < 31,
                                self.wf(),
                                self.current_nr_pegs == before.current_nr_pegs,
                                self.forward == before.forward,
                                self.backward == before.backward,
                                Some(idx as int) == spec_slot(self.spec_nr_pegs(), dir),
                                dir == Direction::Forward ==> idx + count == 31,
                                dir == Direction::Backward ==> idx + 1 == count,
                                forall|i: int|
                                    0 <= i < 31 ==> self.path@[i] == if dir == Direction::Forward
                                        && idx <= i < idx + j {
                                        moves@[i - idx]
                                    } else if dir == Direction::Backward && idx - j < i <= idx {
                                        moves@[idx - i]
                                    } else {
                                        before.path@[i]
                                    },
                            decreases count - j,
                        {
                            match dir {
                                Direction::Forward => {
                                    self.path[idx + j] = moves[j];
                                },
                                Direction::Backward => {
                                    self.path[idx - j] = moves[j];
                                },
                            }
                            j += 1;
                        }
                    },
                    None => {},
                }
                let settled = self.get_solvability_in_direction(dir);
                match dir {
                    Direction::Forward => {
                        self.forward = settled;
                    },
                    Direction::Backward => {
                        self.backward = settled;
                    },
                }
                proof {
                    assert(self.spec_moves_towards(dir) =~= moves@);
                    assert(self.spec_moves_towards(dir.opposite()) =~= before.spec_moves_towards(
                        dir.opposite(),
                    ));
                }
            },
            SolveResult::Unsolvable => {
                match dir {
                    Direction::Forward => {
                        self.forward = Solvability::Unsolvable;
                    },
                    Direction::Backward => {
                        self.backward = Solvability::Unsolvable;
                    },
                }
            },
            SolveResult::TimedOut => {},
        }
    }

    /// Recompute the solution path if needed.
    ///
    /// The given position must correspond to the position that the
    /// `SolvePath` state is already in. For each direction of which nothing
    /// is known the solver is asked; what is known of a direction stays.
    /// Afterwards a direction is known to be solvable only with a cached
    /// path that the search can follow from the position to the target, and
    /// newly known to be unsolvable only if the search found that there is
    /// no such path.
    pub fn recompute(&mut self, bloom_filter: &BloomFilter, pos: Position)
        requires
            bloom_filter.wf(),
            bloom_filter.spec_nr_bits() > 0,
            pos.wf(),
            pos.spec_count() == old(self).spec_nr_pegs(),
        ensures
            final(self).spec_nr_pegs() == old(self).spec_nr_pegs(),
            final(self).asked(*old(self), *bloom_filter, pos, Direction::Forward),
            final(self).asked(*old(self), *bloom_filter, pos, Direction::Backward),
            final(self).recomputed(*old(self), *bloom_filter, pos, Direction::Forward),
            final(self).recomputed(*old(self), *bloom_filter, pos, Direction::Backward),
            old(self).consistent(pos, Direction::Forward) ==> final(self).consistent(
                pos,
                Direction::Forward,
            ),
            old(self).consistent(pos, Direction::Backward) ==> final(self).consistent(
                pos,
                Direction::Backward,
            ),
    {
        proof {
            use_type_invariant(&*self);
            lemma_inverse_count(pos);
            lemma_start_and_end_counts();
        }
        let ghost end = Position::spec_default_end();
        if self.forward == Solvability::Unknown {
            let solve_result = solve_with_bloom_filter(pos, bloom_filter, Direction::Forward, 0).0;
            proof {
                if solve_result.verdict() == Verdict::Solved && pos != end {
                    lemma_guided_length(*bloom_filter, pos, solve_result.path());
                    lemma_guided_plays(*bloom_filter, end, pos, solve_result.path());
                }
            }
            self.record(Direction::Forward, solve_result);
        }
        if self.backward == Solvability::Unknown {
            let solve_result = solve_with_bloom_filter(pos, bloom_filter, Direction::Backward, 0).0;
            proof {
                if solve_result.verdict() == Verdict::Solved && pos.spec_inverse() != end {
                    lemma_guided_length(*bloom_filter, pos.spec_inverse(), solve_result.path());
                    lemma_guided_plays(
                        *bloom_filter,
                        end,
                        pos.spec_inverse(),
                        solve_result.path(),
                    );
                }
            }
            self.record(Direction::Backward, solve_result);
        }
    }

    /// What the cache holds for the direction `dir` after it has asked the
    /// solver. What was known stays. Where nothing was known, the solver ran
    /// with the seed 0: the moves that it found are cached, and the
    /// direction is solvable, or solved if no move is left; if it found
    /// that there is no path, the direction is unsolvable; and if it timed
    /// out, nothing is known as before.
    pub open spec fn asked(
        self,
        before: SolvePath,
        filter: BloomFilter,
        pos: Position,
        dir: Direction,
    ) -> bool {
        let found = spec_solve(pos, filter, dir, 0);
        if before.spec_status(dir) != Solvability::Unknown {
            &&& self.spec_status(dir) == before.spec_status(dir)
            &&& self.spec_moves_towards(dir) == before.spec_moves_towards(dir)
        } else {
            &&& self.spec_status(dir) == match found.0 {
                Verdict::Solved => spec_settled(before.spec_nr_pegs(), dir),
                Verdict::Unsolvable => Solvability::Unsolvable,
                Verdict::TimedOut => Solvability::Unknown,
            }
            &&& self.spec_moves_towards(dir) == if found.0 == Verdict::Solved {
                found.1
            } else {
                before.spec_moves_towards(dir)
            }
        }
    }

    /// What recomputing does to the direction `dir`. What was known stays.
    /// Where nothing was known: if the direction is solvable now, the cached
    /// moves are a path that the search can follow from the start of the
    /// search to the target, or there are none and the start is the target;
    /// if it is unsolvable now, the position was turned away at once or
    /// there is no such path.
    pub open spec fn recomputed(
        self,
        before: SolvePath,
        filter: BloomFilter,
        pos: Position,
        dir: Direction,
    ) -> bool {
        let end = Position::spec_default_end();
        let start = search_start(pos, dir);
        let moves = self.spec_moves_towards(dir);
        if before.spec_status(dir) != Solvability::Unknown {
            &&& self.spec_status(dir) == before.spec_status(dir)
            &&& moves == before.spec_moves_towards(dir)
        } else {
            &&& self.spec_status(dir).spec_solvable() ==> self.spec_status(dir) == spec_settled(
                self.spec_nr_pegs(),
                dir,
            ) && if start == end {
                moves.len() == 0
            } else {
                guided(filter, end, start, moves)
            }
            &&& self.spec_status(dir) == Solvability::Unsolvable ==> rejected_at_once(filter, pos, dir)
                || (start != end && forall|path: Seq<Move>| !guided(filter, end, start, path))
            &&& self.spec_status(dir) == Solvability::Unknown ==> moves
                == before.spec_moves_towards(dir)
        }
    }

    /// After a move has been made away from a known solvable position, then
    /// we know that we can solve backwards from this new position through the
    /// old solvable position. Here we update the path accordingly and return
    /// the new `Solvability`.
    fn append_to_solvability(&mut self, solvability: Solvability, dir: Direction, mv: Move) -> (r:
        Solvability)
        requires
            spec_slot(old(self).spec_nr_pegs(), dir) is Some,
        ensures
            final(self).spec_nr_pegs() == old(self).spec_nr_pegs(),
            final(self).spec_status(Direction::Forward) == old(self).spec_status(Direction::Forward),
            final(self).spec_status(Direction::Backward) == old(self).spec_status(
                Direction::Backward,
            ),
            solvability.spec_solvable() ==> r == Solvability::Solvable && final(self).spec_path()
                == old(self).spec_path().update(spec_slot(old(self).spec_nr_pegs(), dir)->0, mv),
            !solvability.spec_solvable() ==> r == Solvability::Unknown && final(self).spec_path()
                == old(self).spec_path(),
    {
        if solvability.solvable() {
            match self.get_index_in_direction(dir) {
                Some(idx) => {
                    self.path[idx] = mv;
                },
                None => {},
            }
            Solvability::Solvable
        } else {
            Solvability::Unknown
        }
    }

    /// Get the index into the path. This returns `None` if there are no more
    /// moves in this direction because we've already reached the end.
    fn get_index_in_direction(&self, dir: Direction) -> (r: Option<usize>)
        ensures
            r is Some == spec_slot(self.spec_nr_pegs(), dir) is Some,
            r matches Some(idx) ==> idx == spec_slot(self.spec_nr_pegs(), dir)->0 && idx < 31,
    {
        proof {
            use_type_invariant(self);
        }
        let current_nr_pegs = self.current_nr_pegs as usize;
        match dir {
            Direction::Forward => if current_nr_pegs > 1 {
                Some(32 - current_nr_pegs)
            } else {
                None
            },
            Direction::Backward => if current_nr_pegs < 32 {
                Some(32 - current_nr_pegs - 1)
            } else {
                None
            },
        }
    }

    /// Given that the current position is either solvable or already solved
    /// in that direction, and that the path has been computed, get the
    /// `Solvability`.
    fn get_solvability_in_direction(&self, dir: Direction) -> (r: Solvability)
        ensures
            r == spec_settled(self.spec_nr_pegs(), dir),
    {
        match self.get_index_in_direction(dir) {
            Some(_) => Solvability::Solvable,
            None => Solvability::Solved,
        }
    }
}

/// A possible move leads from the start of a search in its direction to the
/// start of the search after it, and back from there against its direction.
proof fn lemma_search_start_moves(pos: Position, mv: Move, dir: Direction)
    requires
        pos.wf(),
        mv.valid(),
        spec_movable(pos, mv, dir),
    ensures
        spec_moved(pos, mv, dir).wf(),
        search_start(pos, dir).spec_can_move(mv),
        search_start(pos, dir).spec_apply_move(mv) == search_start(spec_moved(pos, mv, dir), dir),
        search_start(spec_moved(pos, mv, dir), dir.opposite()).spec_can_move(mv),
        search_start(spec_moved(pos, mv, dir), dir.opposite()).spec_apply_move(mv) == search_start(
            pos,
            dir.opposite(),
        ),
{
    let after = spec_moved(pos, mv, dir);
    lemma_move_changes_count(pos, mv);
    lemma_inverse_move(pos, mv);
    lemma_inverse_move(after, mv);
    match dir {
        Direction::Forward => {
            lemma_apply_then_inverse(pos, mv);
        },
        Direction::Backward => {
            lemma_inverse_then_apply(pos, mv);
        },
    }
}

/// What the cache says stays true when a possible move is made: if it was
/// consistent with the position before the move, it is consistent with the
/// position after it, in both directions.
pub proof fn lemma_move_keeps_consistent(
    before: SolvePath,
    after: SolvePath,
    pos: Position,
    mv: Move,
    dir: Direction,
)
    requires
        before.wf(),
        pos.wf(),
        mv.valid(),
        spec_movable(pos, mv, dir),
        before.spec_nr_pegs() == pos.spec_count(),
        before.consistent(pos, Direction::Forward),
        before.consistent(pos, Direction::Backward),
        if before.spec_next_move(dir) == Some(mv) {
            after.follows_path(before, dir)
        } else {
            after.leaves_path(before, mv, dir)
        },
    ensures
        after.spec_nr_pegs() == spec_moved(pos, mv, dir).spec_count(),
        1 <= after.spec_nr_pegs() <= 32,
        after.consistent(spec_moved(pos, mv, dir), Direction::Forward),
        after.consistent(spec_moved(pos, mv, dir), Direction::Backward),
{
    let n = before.spec_nr_pegs();
    let next = spec_moved(pos, mv, dir);
    let other = dir.opposite();
    lemma_move_changes_count(pos, mv);
    lemma_move_needs_pegs(pos, mv);
    lemma_search_start_moves(pos, mv, dir);
    let single = seq![mv];
    // towards the other direction the move is put in front of what was known
    if before.spec_status(other).spec_solvable() {
        let known = before.spec_moves_towards(other);
        let now = after.spec_moves_towards(other);
        assert(now =~= single + known);
        assert(now[0] == mv);
        assert(now.drop_first() =~= known);
    }
    // in its own direction the move is taken off what was known
    if before.spec_next_move(dir) == Some(mv) {
        let known = before.spec_moves_towards(dir);
        let now = after.spec_moves_towards(dir);
        assert(known[0] == mv);
        assert(known.drop_first() =~= now);
    }
}

/// A move along the cached path can be taken back along the cache: if the
/// opposite direction was known before the move, its next move afterwards
/// is the move that was just made.
pub proof fn lemma_move_along_path(before: SolvePath, after: SolvePath, mv: Move, dir: Direction)
    requires
        before.wf(),
        1 <= spec_pegs_after(before.spec_nr_pegs(), dir) <= 32,
        before.spec_next_move(dir) == Some(mv),
        before.spec_status(dir.opposite()).spec_solvable(),
        after.follows_path(before, dir),
    ensures
        after.spec_next_move(dir.opposite()) == Some(mv),
        after.spec_status(dir).spec_solvable(),
{
}

/// After a move that leaves the cached path nothing is known of the
/// direction of the move, so that no next move is offered in it. If the
/// opposite direction was known before the move, its next move afterwards
/// is the move that was just made.
pub proof fn lemma_move_off_path(before: SolvePath, after: SolvePath, mv: Move, dir: Direction)
    requires
        before.wf(),
        1 <= spec_pegs_after(before.spec_nr_pegs(), dir) <= 32,
        before.spec_next_move(dir) != Some(mv),
        after.leaves_path(before, mv, dir),
    ensures
        after.spec_status(dir) == Solvability::Unknown,
        after.spec_next_move(dir) is None,
        before.spec_status(dir.opposite()).spec_solvable() ==> after.spec_next_move(
            dir.opposite(),
        ) == Some(mv),
        !before.spec_status(dir.opposite()).spec_solvable() ==> after.spec_status(
            dir.opposite(),
        ) == Solvability::Unknown,
{
}

} // verus!
