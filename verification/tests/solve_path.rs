use peg_solitaire::moves::Move;
use peg_solitaire::position::Position;
use peg_solitaire::solve_path::{default_solve_path, Solvability, SolvePath};
use peg_solitaire::solver::Direction;

#[test]
fn test_forwards_backwards_move_preserves_solution_path() {
    let mut solve_path = SolvePath::new(Position::default_start());

    let mv = Move::from_raw_coords((0, -2), (0, 0));
    solve_path.apply_move(mv, Direction::Forward);
    assert!(matches!(solve_path.next_move(Direction::Forward), Some(_)));
    assert_eq!(solve_path.next_move(Direction::Backward), Some(mv));

    solve_path.apply_move(mv, Direction::Backward);
    assert_eq!(solve_path.next_move(Direction::Forward), Some(mv));
    assert_eq!(solve_path.next_move(Direction::Backward), None);
}

#[test]
fn test_moving_off_path_invalidates_cached_path() {
    let mut solve_path = SolvePath::new(Position::default_start());

    let second_move = Move::from_raw_coords((2, 0), (0, 0));
    solve_path.apply_move(second_move, Direction::Forward);

    assert_eq!(
        solve_path.is_solvable(),
        (Solvability::Solvable, Solvability::Unknown)
    );

    // Path back to the start should be known because that's where we
    // came from.
    assert_eq!(solve_path.next_move(Direction::Backward), Some(second_move));
}

#[test]
fn test_backwards_from_unknown_is_unknown() {
    let pos = Position::from_ascii([
        "    ###    ",
        "    .#.    ",
        "  ..#..##  ",
        "  ....#.#  ",
        "  .##.#..  ",
        "    #..    ",
        "    ###    ",
    ]);
    let mut solve_path = SolvePath::new(pos);
    let mv = Move::from_raw_coords((-1, -1), (1, -1));

    solve_path.apply_move(mv, Direction::Backward);
    assert_eq!(solve_path.is_solvable().1, Solvability::Unknown);
}

#[test]
fn the_reference_path_solves_the_game() {
    let path = default_solve_path();
    assert_eq!(path.len(), 31);
    assert_eq!(path[0], Move::from_raw_coords((0, -2), (0, 0)));
    assert_eq!(path[30], Move::from_raw_coords((-2, 0), (0, 0)));
    let mut pos = Position::default_start();
    for mv in path {
        assert!(pos.can_move(mv));
        pos = pos.apply_move(mv);
    }
    assert_eq!(pos, Position::default_end());
}

#[test]
fn new_knows_the_start_and_the_target_only() {
    let start = SolvePath::new(Position::default_start());
    assert_eq!(
        start.is_solvable(),
        (Solvability::Solved, Solvability::Solvable)
    );
    assert_eq!(
        start.next_move(Direction::Forward),
        Some(Move::from_raw_coords((0, -2), (0, 0)))
    );
    assert_eq!(start.next_move(Direction::Backward), None);

    let end = SolvePath::new(Position::default_end());
    assert_eq!(
        end.is_solvable(),
        (Solvability::Solvable, Solvability::Solved)
    );
    assert_eq!(end.next_move(Direction::Forward), None);
    assert_eq!(
        end.next_move(Direction::Backward),
        Some(Move::from_raw_coords((-2, 0), (0, 0)))
    );

    let other = SolvePath::new(Position(0b111));
    assert_eq!(
        other.is_solvable(),
        (Solvability::Unknown, Solvability::Unknown)
    );
    assert_eq!(other.next_move(Direction::Forward), None);
    assert_eq!(other.next_move(Direction::Backward), None);
}

#[test]
fn walking_the_whole_path_and_back() {
    let path = default_solve_path();
    let mut cache = SolvePath::new(Position::default_start());
    for (i, mv) in path.iter().enumerate() {
        assert_eq!(cache.next_move(Direction::Forward), Some(*mv));
        cache.apply_move(*mv, Direction::Forward);
        // round trip: the way back begins with the move just made
        assert_eq!(cache.next_move(Direction::Backward), Some(*mv));
        let expected = if i == 30 {
            Solvability::Solved
        } else {
            Solvability::Solvable
        };
        assert_eq!(cache.is_solvable(), (Solvability::Solvable, expected));
    }
    assert_eq!(cache.next_move(Direction::Forward), None);
    for (i, mv) in path.iter().enumerate().rev() {
        assert_eq!(cache.next_move(Direction::Backward), Some(*mv));
        cache.apply_move(*mv, Direction::Backward);
        assert_eq!(cache.next_move(Direction::Forward), Some(*mv));
        let expected = if i == 0 {
            Solvability::Solved
        } else {
            Solvability::Solvable
        };
        assert_eq!(cache.is_solvable(), (expected, Solvability::Solvable));
    }
    assert_eq!(cache.next_move(Direction::Backward), None);
}

#[test]
fn going_back_along_the_cache_does_not_make_forward_known() {
    let mut cache = SolvePath::new(Position::default_start());
    let off = Move::from_raw_coords((2, 0), (0, 0));
    cache.apply_move(off, Direction::Forward);
    assert_eq!(cache.next_move(Direction::Forward), None);
    assert_eq!(cache.is_solvable().1, Solvability::Unknown);
    // going back follows the cached backward path, so forward stays unknown
    cache.apply_move(off, Direction::Backward);
    assert_eq!(
        cache.is_solvable(),
        (Solvability::Solved, Solvability::Unknown)
    );
    assert_eq!(cache.next_move(Direction::Forward), None);
}

#[test]
fn off_path_without_a_known_way_back_knows_nothing() {
    let mut cache = SolvePath::new(Position(0b11 | (1 << 20)));
    let mv = Move::from_raw_coords((-1, -3), (1, -3));
    cache.apply_move(mv, Direction::Forward);
    assert_eq!(
        cache.is_solvable(),
        (Solvability::Unknown, Solvability::Unknown)
    );
    assert_eq!(cache.next_move(Direction::Backward), None);
}

#[test]
fn solvable_is_true_for_solvable_and_solved() {
    assert!(Solvability::Solvable.solvable());
    assert!(Solvability::Solved.solvable());
    assert!(!Solvability::Unsolvable.solvable());
    assert!(!Solvability::Unknown.solvable());
}
