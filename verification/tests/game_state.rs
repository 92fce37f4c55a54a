use peg_solitaire::bloom::BloomFilter;
use peg_solitaire::coord::Coord;
use peg_solitaire::game_state::{GameAction, GameState, Mode};
use peg_solitaire::moves::Move;
use peg_solitaire::position::Position;
use peg_solitaire::solve_path::{default_solve_path, Solvability};
use peg_solitaire::solver::Direction;
use std::rc::Rc;

fn game_state() -> GameState {
    GameState::new()
}
fn click_action(x: i8, y: i8) -> GameAction {
    GameAction::ClickHole {
        coord: Coord::new(x, y).unwrap(),
    }
}
fn game_state_after_one_move() -> GameState {
    let gs = game_state();
    let gs = gs.reduce(click_action(2, 0));
    let gs = gs.reduce(click_action(0, 0));
    gs
}

#[test]
fn game_state_test_select_deselect() {
    let gs = game_state();

    let gs = gs.reduce(click_action(2, 0));
    assert_eq!(gs.selected_coord(), Some(Coord::new(2, 0).unwrap()));

    let gs = gs.reduce(click_action(2, 0));
    assert_eq!(
        gs.selected_coord(),
        None,
        "clicking the same position again should deselect"
    );
}

#[test]
fn test_cannot_select_empty_hole() {
    let gs = game_state();

    let gs = gs.reduce(click_action(0, 0));
    assert_eq!(gs.selected_coord(), None);
}

#[test]
fn game_state_test_move() {
    let gs = game_state_after_one_move();

    let expected = Position::from_ascii([
        "    ###    ",
        "    ###    ",
        "  #######  ",
        "  ####..#  ",
        "  #######  ",
        "    ###    ",
        "    ###    ",
    ]);
    assert_eq!(gs.as_position(), expected);
}

#[test]
fn game_state_test_undo_move() {
    let gs = game_state_after_one_move();
    assert!(gs.can_undo());

    let gs = gs.reduce(GameAction::Undo);

    assert_eq!(gs.as_position(), Position::default_start());
    assert!(!gs.can_undo());
}

#[test]
fn test_invalid_undo_is_ignored() {
    let gs = game_state();
    gs.reduce(GameAction::Undo);
}

#[test]
fn game_state_test_redo_move() {
    let gs = game_state_after_one_move();
    let position = gs.as_position();

    assert!(!gs.can_redo());
    let gs = gs.reduce(GameAction::Undo);

    assert!(gs.can_redo());
    let gs = gs.reduce(GameAction::Redo);
    assert_eq!(position, gs.as_position());

    assert!(!gs.can_redo());
}

#[test]
fn game_state_test_edit_mode() {
    let gs = game_state();
    let gs = gs.reduce(GameAction::SetMode { mode: Mode::Edit });

    assert_eq!(gs.as_position(), Position::default_start());

    let gs = gs.reduce(click_action(1, 2));

    let expected = Position::from_ascii([
        "    ###    ",
        "    ###    ",
        "  #######  ",
        "  ###.###  ",
        "  #######  ",
        "    ##.    ",
        "    ###    ",
    ]);
    assert_eq!(gs.as_position(), expected);

    let gs = gs.reduce(click_action(0, 2)).reduce(click_action(1, 2));

    let expected = Position::from_ascii([
        "    ###    ",
        "    ###    ",
        "  #######  ",
        "  ###.###  ",
        "  #######  ",
        "    #.#    ",
        "    ###    ",
    ]);
    assert_eq!(gs.as_position(), expected);
}

#[test]
fn game_state_test_reset() {
    let gs = game_state_after_one_move().reduce(click_action(-1, -1));

    assert!(gs.selected_coord().is_some());

    let gs = gs.reduce(GameAction::Reset);

    assert!(gs.selected_coord().is_none());
    assert_eq!(gs.as_position(), Position::default_start());
}

#[test]
fn game_state_test_undo_resets_selection() {
    let gs = game_state_after_one_move().reduce(click_action(-1, -1));

    assert!(gs.selected_coord().is_some());

    let gs = gs.reduce(GameAction::Undo);
    assert!(gs.selected_coord().is_none());
}

#[test]
fn game_state_test_multiple_edits_count_as_one_undo_step() {
    let gs = game_state();
    let gs = gs
        .reduce(GameAction::SetMode { mode: Mode::Edit })
        .reduce(click_action(1, 2))
        .reduce(click_action(2, 0));

    let gs = gs.reduce(GameAction::Undo);
    assert_eq!(gs.as_position(), Position::default_start());
    assert!(!gs.can_undo());
}

#[test]
fn game_state_test_has_made_first_move() {
    let gs = game_state();

    // selecting a peg does not count as a move
    let gs = gs.reduce(click_action(2, 0));
    assert!(!gs.has_made_first_move());

    let gs = gs.reduce(click_action(0, 0));
    assert!(gs.has_made_first_move());

    // resetting does not reset first move flag
    let gs = gs.reduce(GameAction::Reset);
    assert!(gs.has_made_first_move());
}

#[test]
fn game_state_test_nr_pegs() {
    assert_eq!(game_state().nr_pegs(), 32);
    assert_eq!(game_state_after_one_move().nr_pegs(), 31);
}

#[test]
fn game_state_undo_and_redo_keeps_solve_path_intact() {
    let gs = game_state();
    assert_eq!(
        gs.is_solvable(),
        (Solvability::Solved, Solvability::Solvable)
    );

    // a move along the reference solution
    let gs = gs.reduce(click_action(0, -2)).reduce(click_action(0, 0));
    assert_eq!(
        gs.is_solvable(),
        (Solvability::Solvable, Solvability::Solvable)
    );

    let gs = gs.reduce(GameAction::Undo);
    assert_eq!(gs.as_position(), Position::default_start());
    assert_eq!(
        gs.is_solvable(),
        (Solvability::Solved, Solvability::Solvable)
    );

    let gs = gs.reduce(GameAction::Redo);
    assert_eq!(
        gs.is_solvable(),
        (Solvability::Solvable, Solvability::Solvable)
    );
}

fn reference_index() -> Rc<BloomFilter> {
    let mut filter = BloomFilter::new(1_000_003, 1);
    let mut pos = Position::default_start();
    filter.insert(pos.normalize());
    for mv in default_solve_path() {
        pos = pos.apply_move(mv);
        filter.insert(pos.normalize());
    }
    Rc::new(filter)
}

#[test]
fn a_fresh_game() {
    let gs = game_state();
    assert_eq!(gs.as_position(), Position::default_start());
    assert_eq!(gs.selected_coord(), None);
    assert_eq!(gs.mode, Mode::Play);
    assert!(!gs.can_undo());
    assert!(!gs.can_redo());
    assert!(!gs.has_made_first_move());
    assert_eq!(gs.nr_pegs(), 32);
    let pegs = gs.pegs();
    assert_eq!(pegs.iter().filter(|p| p.alive).count(), 32);
    assert!(!pegs[16].alive);
}

#[test]
fn clicks_that_change_nothing() {
    let gs = game_state().reduce(click_action(2, 0));
    // the hole is not two apart
    let gs = gs.reduce(click_action(0, 0)).reduce(GameAction::Undo);
    let gs = gs.reduce(click_action(3, 0)).reduce(click_action(0, 0));
    assert_eq!(gs.as_position(), Position::default_start());
    assert_eq!(gs.selected_coord(), Some(Coord::new(3, 0).unwrap()));
    assert!(!gs.can_undo());

    // another peg takes the selection
    let gs = gs.reduce(click_action(-1, -1));
    assert_eq!(gs.selected_coord(), Some(Coord::new(-1, -1).unwrap()));

    // two apart, but nothing to jump over
    let gs = game_state_after_one_move();
    let gs = gs.reduce(click_action(0, 0)).reduce(click_action(2, 0));
    assert_eq!(gs.selected_coord(), Some(Coord::center()));
    assert_eq!(gs.nr_pegs(), 31);
}

#[test]
fn a_move_clears_what_could_be_redone() {
    let gs = game_state_after_one_move().reduce(GameAction::Undo);
    assert!(gs.can_redo());
    let gs = gs.reduce(click_action(-2, 0)).reduce(click_action(0, 0));
    assert!(!gs.can_redo());
    assert!(gs.can_undo());
    let gs = gs.reduce(GameAction::Redo);
    assert_eq!(gs.nr_pegs(), 31);
}

#[test]
fn set_mode_drops_the_selection() {
    let gs = game_state().reduce(click_action(2, 0));
    let same = gs.clone().reduce(GameAction::SetMode { mode: Mode::Play });
    assert_eq!(same.selected_coord(), Some(Coord::new(2, 0).unwrap()));
    let edit = gs.reduce(GameAction::SetMode { mode: Mode::Edit });
    assert_eq!(edit.mode, Mode::Edit);
    assert_eq!(edit.selected_coord(), None);
}

#[test]
fn edits_are_undone_and_redone_as_one() {
    let gs = game_state_after_one_move()
        .reduce(GameAction::SetMode { mode: Mode::Edit })
        .reduce(click_action(1, 2))
        .reduce(click_action(-3, 0));
    let edited = gs.as_position();
    assert_eq!(gs.nr_pegs(), 29);
    // what is known of an edited board is nothing
    assert_eq!(
        gs.is_solvable(),
        (Solvability::Unknown, Solvability::Unknown)
    );

    let gs = gs.reduce(GameAction::Undo);
    assert_eq!(gs.nr_pegs(), 31);
    assert!(gs.can_undo());
    assert!(gs.can_redo());
    let gs = gs.reduce(GameAction::Redo);
    assert_eq!(gs.as_position(), edited);
    let gs = gs.reduce(GameAction::Undo).reduce(GameAction::Undo);
    assert_eq!(gs.as_position(), Position::default_start());
    assert!(!gs.can_undo());
    let gs = gs.reduce(GameAction::Redo).reduce(GameAction::Redo);
    assert_eq!(gs.as_position(), edited);
    assert!(!gs.can_redo());
}

#[test]
fn stepping_along_the_solution() {
    let mut gs = game_state();
    let mut pos = Position::default_start();
    for mv in default_solve_path() {
        gs = gs.reduce(GameAction::StepSolution {
            dir: Direction::Forward,
        });
        pos = pos.apply_move(mv);
        assert_eq!(gs.as_position(), pos);
    }
    assert_eq!(gs.as_position(), Position::default_end());
    assert_eq!(
        gs.is_solvable(),
        (Solvability::Solvable, Solvability::Solved)
    );
    // at the target there is no step forward
    let gs = gs.reduce(GameAction::StepSolution {
        dir: Direction::Forward,
    });
    assert_eq!(gs.as_position(), Position::default_end());

    // and all the way back
    let mut gs = gs;
    for _ in 0..31 {
        gs = gs.reduce(GameAction::StepSolution {
            dir: Direction::Backward,
        });
    }
    assert_eq!(gs.as_position(), Position::default_start());
    // each step can be undone
    assert!(gs.can_undo());
    let gs = gs.reduce(GameAction::Undo);
    assert_eq!(gs.nr_pegs(), 31);
}

#[test]
fn a_registered_index_solves_after_each_move() {
    let gs = game_state().reduce(GameAction::RegisterSolver {
        solver: reference_index(),
    });
    assert_eq!(
        gs.is_solvable(),
        (Solvability::Solved, Solvability::Solvable)
    );
    // a first move that is not the one of the reference solution
    let gs = gs.reduce(click_action(2, 0)).reduce(click_action(0, 0));
    assert_eq!(
        gs.is_solvable(),
        (Solvability::Solvable, Solvability::Solvable)
    );
    // the solution that was found can be walked to the end
    let mut gs = gs;
    for _ in 0..30 {
        gs = gs.reduce(GameAction::StepSolution {
            dir: Direction::Forward,
        });
    }
    assert_eq!(gs.as_position(), Position::default_end());

    // the index survives a reset
    let gs = gs.reduce(GameAction::Reset);
    let gs = gs.reduce(click_action(-2, 0)).reduce(click_action(0, 0));
    assert_eq!(gs.is_solvable().1, Solvability::Solvable);
    let jump = Move::from_raw_coords((-2, 0), (0, 0));
    assert_eq!(gs.as_position(), Position::default_start().apply_move(jump));
}

#[test]
fn an_edit_into_a_dead_end_is_noticed() {
    let gs = game_state()
        .reduce(GameAction::RegisterSolver {
            solver: reference_index(),
        })
        .reduce(GameAction::SetMode { mode: Mode::Edit })
        .reduce(click_action(3, 0));
    assert_eq!(
        gs.is_solvable(),
        (Solvability::Unsolvable, Solvability::Unsolvable)
    );
}

#[test]
fn the_actions_can_be_called_by_name() {
    let gs = game_state().move_along_solve_path(Direction::Forward);
    assert_eq!(gs.nr_pegs(), 31);
    let gs = gs.undo();
    assert_eq!(gs.as_position(), Position::default_start());
    let gs = gs.redo();
    assert_eq!(gs.nr_pegs(), 31);
    let gs = gs.edit_toggle_peg(Coord::center());
    assert_eq!(gs.nr_pegs(), 30);
    assert!(gs.can_undo());
    let gs = gs.undo().undo();
    assert_eq!(gs.as_position(), Position::default_start());
    assert!(!gs.can_undo());
}

#[test]
fn test_default_position() {
    let gs = GameState::new();

    assert_eq!(gs.as_position(), Position::default_start());
}

#[test]
fn the_game_answers_for_its_board() {
    let gs = game_state();
    assert_eq!(gs.lookup(Coord::center()), None);
    assert_eq!(gs.lookup(Coord::new(2, 0).unwrap()), Some(18));
    let info = gs
        .check_move(Coord::new(2, 0).unwrap(), Coord::center())
        .unwrap();
    assert_eq!(info.moved_idx(), 18);
    assert_eq!(info.eliminated_idx(), 17);
    assert_eq!(gs.check_move(Coord::center(), Coord::new(2, 0).unwrap()), None);

    let gs = game_state_after_one_move();
    assert_eq!(gs.lookup(Coord::center()), Some(18));
    assert_eq!(gs.nr_pegs(), gs.as_position().count());
}

#[test]
fn scrolling_steps_towards_the_target() {
    let gs = game_state();
    assert_eq!(gs.scroll_direction(1), Some(Direction::Forward));
    assert_eq!(gs.scroll_direction(31), Some(Direction::Forward));
    assert_eq!(gs.scroll_direction(32), None);
    let gs = game_state_after_one_move();
    assert_eq!(gs.scroll_direction(32), Some(Direction::Backward));
    assert_eq!(gs.scroll_direction(31), None);
    // a step in that direction arrives
    let gs = gs.reduce(GameAction::StepSolution {
        dir: Direction::Backward,
    });
    assert_eq!(gs.scroll_direction(32), None);
}
