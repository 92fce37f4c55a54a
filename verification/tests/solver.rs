use peg_solitaire::bloom::BloomFilter;
use peg_solitaire::moves::{all_moves, Move};
use peg_solitaire::position::Position;
use peg_solitaire::solve_path::{default_solve_path, Solvability, SolvePath};
use peg_solitaire::solver::{
    depth_first_search, solve_with_bloom_filter, Direction, SolveResult,
};

/// An index that holds the positions of the reference solution and their
/// images under the symmetries of the board.
fn reference_index() -> BloomFilter {
    let mut filter = BloomFilter::new(1_000_003, 1);
    let mut pos = Position::default_start();
    filter.insert(pos.normalize());
    for mv in default_solve_path() {
        pos = pos.apply_move(mv);
        filter.insert(pos.normalize());
    }
    filter
}

fn follow(mut pos: Position, moves: &[Move]) -> Position {
    for &mv in moves {
        assert!(pos.can_move(mv));
        pos = pos.apply_move(mv);
    }
    pos
}

#[test]
fn test_solver_returns_valid_sequence_of_moves() {
    let filter = BloomFilter::always_true();

    let mut pos = Position::from_ascii([
        "    ...    ",
        "    ...    ",
        "  .......  ",
        "  ..###..  ",
        "  ...#...  ",
        "    .#.    ",
        "    ...    ",
    ]);

    let SolveResult::Solved(moves) =
        solve_with_bloom_filter(pos, &filter, Direction::Forward, 0).0
    else {
        panic!("should be solvable");
    };
    assert_eq!(moves.len(), 4);

    for mv in moves {
        assert!(pos.can_move(mv));
        pos = pos.apply_move(mv);
    }

    assert_eq!(pos, Position::default_end());
}

#[test]
fn solving_the_start_position_forward() {
    let filter = reference_index();
    let start = Position::default_start();
    let (result, info) = solve_with_bloom_filter(start, &filter, Direction::Forward, 0);
    let SolveResult::Solved(path) = result else {
        panic!("the start position should be solvable");
    };
    assert_eq!(path.len(), 31);
    assert_eq!(follow(start, &path), Position::default_end());
    assert!(info.nr_attempts >= 1);
    assert!(info.nr_steps >= 31);
}

#[test]
fn solving_is_reproducible() {
    let filter = reference_index();
    let start = Position::default_start();
    for seed in [0u64, 1, 99] {
        let (first, first_info) = solve_with_bloom_filter(start, &filter, Direction::Forward, seed);
        let (second, second_info) =
            solve_with_bloom_filter(start, &filter, Direction::Forward, seed);
        assert!(first == second);
        assert_eq!(first_info.nr_steps, second_info.nr_steps);
        assert_eq!(first_info.nr_attempts, second_info.nr_attempts);
    }
}

#[test]
fn solving_backward_after_one_move() {
    let filter = reference_index();
    let jump = Move::from_raw_coords((2, 0), (0, 0));
    let pos = Position::default_start().apply_move(jump);

    let (result, info) = solve_with_bloom_filter(pos, &filter, Direction::Backward, 0);
    assert!(result == SolveResult::Solved(vec![jump]));
    assert_eq!(info.nr_attempts, 1);
    assert_eq!(info.nr_steps, 1);
    // taking the jump back leads to the start
    assert_eq!(pos.apply_move_inverse(jump), Position::default_start());

    let mut cache = SolvePath::new(pos);
    assert_eq!(
        cache.is_solvable(),
        (Solvability::Unknown, Solvability::Unknown)
    );
    cache.recompute(&filter, pos);
    assert_eq!(
        cache.is_solvable(),
        (Solvability::Solvable, Solvability::Solvable)
    );
    assert_eq!(cache.next_move(Direction::Backward), Some(jump));

    // the forward path that was found leads to the target
    let mut at = pos;
    while let Some(mv) = cache.next_move(Direction::Forward) {
        assert!(at.can_move(mv));
        at = at.apply_move(mv);
        cache.apply_move(mv, Direction::Forward);
    }
    assert_eq!(at, Position::default_end());
    assert_eq!(cache.is_solvable().1, Solvability::Solved);
}

#[test]
fn solving_the_target_takes_no_move() {
    let filter = BloomFilter::always_true();
    let (result, info) =
        solve_with_bloom_filter(Position::default_end(), &filter, Direction::Forward, 0);
    assert!(result == SolveResult::Solved(vec![]));
    assert_eq!((info.nr_steps, info.nr_attempts), (0, 0));
    let (result, info) =
        solve_with_bloom_filter(Position::default_start(), &filter, Direction::Backward, 0);
    assert!(result == SolveResult::Solved(vec![]));
    assert_eq!((info.nr_steps, info.nr_attempts), (0, 0));
}

#[test]
fn a_position_of_another_class_is_rejected_at_once() {
    let filter = BloomFilter::always_true();
    for pos in [Position(0), Position(1 << 17), Position(0b111)] {
        for dir in [Direction::Forward, Direction::Backward] {
            let (result, info) = solve_with_bloom_filter(pos, &filter, dir, 0);
            assert!(result == SolveResult::Unsolvable);
            assert_eq!((info.nr_steps, info.nr_attempts), (0, 0));
        }
    }
}

#[test]
fn a_position_that_the_index_lacks_is_rejected_at_once() {
    let filter = BloomFilter::new(1_000_003, 1);
    let (result, info) =
        solve_with_bloom_filter(Position::default_start(), &filter, Direction::Forward, 0);
    assert!(result == SolveResult::Unsolvable);
    assert_eq!((info.nr_steps, info.nr_attempts), (0, 0));
    // even the target itself
    let (result, _) =
        solve_with_bloom_filter(Position::default_end(), &filter, Direction::Forward, 0);
    assert!(result == SolveResult::Unsolvable);
}

#[test]
fn a_dead_end_is_unsolvable_after_one_attempt() {
    // one peg in a hole with the class of the centre: no move is possible
    let filter = BloomFilter::always_true();
    let (result, info) = solve_with_bloom_filter(Position(2), &filter, Direction::Forward, 0);
    assert!(result == SolveResult::Unsolvable);
    assert_eq!((info.nr_steps, info.nr_attempts), (1, 1));
}

#[test]
fn without_pruning_the_start_times_out() {
    // with an index that lets everything pass the search is lost
    let filter = BloomFilter::always_true();
    let start = Position::default_start();
    let (result, info) = solve_with_bloom_filter(start, &filter, Direction::Forward, 0);
    match result {
        SolveResult::Solved(path) => {
            assert_eq!(follow(start, &path), Position::default_end());
            assert!(info.nr_attempts >= 1 && info.nr_attempts <= 100);
        }
        SolveResult::TimedOut => {
            assert_eq!(info.nr_attempts, 100);
            assert_eq!(info.nr_steps, 99 * 51 + 10001);
        }
        SolveResult::Unsolvable => panic!("the start position is solvable"),
    }
}

#[test]
fn reshuffling_lets_a_later_attempt_succeed() {
    // without an index to prune the search, the first attempt from this
    // position runs out of steps; only another order of the moves helps
    let filter = BloomFilter::always_true();
    let mut pos = Position::default_start();
    for mv in &default_solve_path()[..22] {
        pos = pos.apply_move(*mv);
    }
    let moves = all_moves();
    let mut steps = 0;
    let first = depth_first_search(pos, &filter, Position::default_end(), &mut steps, &moves, 50);
    assert!(first == SolveResult::TimedOut);
    assert_eq!(steps, 51);

    let mut attempts = vec![];
    for seed in [0u64, 1, 2] {
        let (result, info) = solve_with_bloom_filter(pos, &filter, Direction::Forward, seed);
        let SolveResult::Solved(path) = result else {
            panic!("should be solved");
        };
        assert_eq!(follow(pos, &path), Position::default_end());
        assert!(info.nr_attempts >= 2 && info.nr_attempts < 100);
        assert!(info.nr_steps > 51 * (info.nr_attempts - 1));
        assert!(info.nr_steps <= 51 * info.nr_attempts);
        attempts.push(info.nr_attempts);
    }
    // the seed decides which attempt it is
    assert!(attempts[0] != attempts[1] || attempts[1] != attempts[2]);
}

#[test]
fn one_attempt_counts_its_steps() {
    let filter = BloomFilter::always_true();
    let moves = all_moves();
    let end = Position::default_end();

    // one jump from the target: found while the first position is explored
    let pos = Position((1 << 17) | (1 << 18));
    let mut steps = 0;
    let result = depth_first_search(pos, &filter, end, &mut steps, &moves, 50);
    assert!(result == SolveResult::Solved(vec![Move::from_raw_coords((2, 0), (0, 0))]));
    assert_eq!(steps, 1);

    // a budget that is used up before the search begins
    let mut steps = 51;
    let result = depth_first_search(pos, &filter, end, &mut steps, &moves, 50);
    assert!(result == SolveResult::TimedOut);
    assert_eq!(steps, 51);

    // the last step of the budget may still be taken
    let mut steps = 50;
    let result = depth_first_search(pos, &filter, end, &mut steps, &moves, 50);
    assert!(matches!(result, SolveResult::Solved(_)));
    assert_eq!(steps, 51);

    // the moves come back last move first
    let pos = Position::from_ascii([
        "    ...    ",
        "    ...    ",
        "  .......  ",
        "  ..###..  ",
        "  ...#...  ",
        "    .#.    ",
        "    ...    ",
    ]);
    let mut steps = 0;
    let SolveResult::Solved(mut list) =
        depth_first_search(pos, &filter, end, &mut steps, &moves, 10000)
    else {
        panic!("should be solvable");
    };
    list.reverse();
    assert_eq!(follow(pos, &list), end);
    assert!(steps >= 4);
}

#[test]
fn the_search_runs_dry_with_an_empty_index() {
    let filter = BloomFilter::new(1_000_003, 1);
    let moves = all_moves();
    let mut steps = 0;
    let result = depth_first_search(
        Position::default_start(),
        &filter,
        Position::default_end(),
        &mut steps,
        &moves,
        50,
    );
    assert!(result == SolveResult::Unsolvable);
    assert_eq!(steps, 1);
}

#[test]
fn not_turns_the_direction_round() {
    assert_eq!(!Direction::Forward, Direction::Backward);
    assert_eq!(!Direction::Backward, Direction::Forward);
}

#[test]
fn recompute_notes_what_cannot_be_solved() {
    let filter = reference_index();
    // a position with the class of the target that is not in the index
    let pos = Position(2);
    let mut cache = SolvePath::new(pos);
    cache.recompute(&filter, pos);
    assert_eq!(
        cache.is_solvable(),
        (Solvability::Unsolvable, Solvability::Unsolvable)
    );
    assert_eq!(cache.next_move(Direction::Forward), None);
    // what is known is not asked again
    cache.recompute(&BloomFilter::always_true(), pos);
    assert_eq!(
        cache.is_solvable(),
        (Solvability::Unsolvable, Solvability::Unsolvable)
    );
}

#[test]
fn recompute_at_the_start_keeps_the_reference_path() {
    let filter = reference_index();
    let mut cache = SolvePath::new(Position::default_start());
    cache.recompute(&filter, Position::default_start());
    assert_eq!(
        cache.is_solvable(),
        (Solvability::Solved, Solvability::Solvable)
    );
    assert_eq!(
        cache.next_move(Direction::Forward),
        Some(default_solve_path()[0])
    );
}

#[test]
fn searching_backward_looks_up_the_inverse() {
    let jump = Move::from_raw_coords((2, 0), (0, 0));
    let pos = Position::default_start().apply_move(jump);

    // an index that holds the position itself and not its inverse turns the
    // search backward away at once
    let mut own = BloomFilter::new(1_000_003, 1);
    own.insert(pos.normalize());
    assert!(own.query(pos.normalize()));
    assert!(!own.query(pos.inverse().normalize()));
    let (result, info) = solve_with_bloom_filter(pos, &own, Direction::Backward, 0);
    assert!(result == SolveResult::Unsolvable);
    assert_eq!((info.nr_steps, info.nr_attempts), (0, 0));
    // and lets the search forward begin
    let (_, info) = solve_with_bloom_filter(pos, &own, Direction::Forward, 0);
    assert!(info.nr_attempts >= 1);

    // an index that holds the inverse and not the position itself lets the
    // search backward find the way
    let mut inverse = BloomFilter::new(1_000_003, 1);
    inverse.insert(pos.inverse().normalize());
    assert!(!inverse.query(pos.normalize()));
    let (result, info) = solve_with_bloom_filter(pos, &inverse, Direction::Backward, 0);
    assert!(result == SolveResult::Solved(vec![jump]));
    assert_eq!((info.nr_steps, info.nr_attempts), (1, 1));
    // and turns the search forward away
    let (result, info) = solve_with_bloom_filter(pos, &inverse, Direction::Forward, 0);
    assert!(result == SolveResult::Unsolvable);
    assert_eq!((info.nr_steps, info.nr_attempts), (0, 0));
}
