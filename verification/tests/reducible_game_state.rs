use peg_solitaire::coord::Coord;
use peg_solitaire::game_state::{GameAction, GameState, Mode};
use peg_solitaire::position::Position;
use peg_solitaire::solver::Direction;

fn game_state() -> GameState {
    GameState::new()
}
fn click_action(x: i8, y: i8) -> GameAction {
    GameAction::ClickHole {
        coord: Coord::new(x, y).unwrap(),
    }
}
fn game_state_after_one_move() -> GameState {
    let gs = game_state();
    let gs = gs.reduce(click_action(2, 0));
    let gs = gs.reduce(click_action(0, 0));
    gs
}

#[test]
fn reducible_game_state_test_select_deselect() {
    let gs = game_state();

    let gs = gs.reduce(click_action(2, 0));
    assert_eq!(gs.selected_coord(), Some(Coord::new(2, 0).unwrap()));

    let gs = gs.reduce(click_action(2, 0));
    assert_eq!(
        gs.selected_coord(),
        None,
        "clicking the same position again should deselect"
    );
}

#[test]
fn reducible_game_state_test_move() {
    let gs = game_state_after_one_move();

    let expected = Position::from_ascii([
        "    ###    ",
        "    ###    ",
        "  #######  ",
        "  ####..#  ",
        "  #######  ",
        "    ###    ",
        "    ###    ",
    ]);
    assert_eq!(gs.as_position(), expected);
}

#[test]
fn reducible_game_state_test_undo_move() {
    let gs = game_state_after_one_move();
    assert!(gs.can_undo());

    let gs = gs.reduce(GameAction::Undo);

    assert_eq!(gs.as_position(), Position::default_start());
    assert!(!gs.can_undo());
}

#[test]
fn reducible_game_state_test_redo_move() {
    let gs = game_state_after_one_move();
    let position = gs.as_position();

    assert!(!gs.can_redo());
    let gs = gs.reduce(GameAction::Undo);

    assert!(gs.can_redo());
    let gs = gs.reduce(GameAction::Redo);
    assert_eq!(position, gs.as_position());

    assert!(!gs.can_redo());
}

#[test]
fn reducible_game_state_test_edit_mode() {
    let gs = game_state();
    let gs = gs.reduce(GameAction::SetMode { mode: Mode::Edit });

    assert_eq!(gs.as_position(), Position::default_start());

    let gs = gs.reduce(click_action(1, 2));

    let expected = Position::from_ascii([
        "    ###    ",
        "    ###    ",
        "  #######  ",
        "  ###.###  ",
        "  #######  ",
        "    ##.    ",
        "    ###    ",
    ]);
    assert_eq!(gs.as_position(), expected);

    let gs = gs.reduce(click_action(0, 2)).reduce(click_action(1, 2));

    let expected = Position::from_ascii([
        "    ###    ",
        "    ###    ",
        "  #######  ",
        "  ###.###  ",
        "  #######  ",
        "    #.#    ",
        "    ###    ",
    ]);
    assert_eq!(gs.as_position(), expected);
}

#[test]
fn reducible_game_state_test_reset() {
    let gs = game_state_after_one_move().reduce(click_action(-1, -1));

    assert!(gs.selected_coord().is_some());

    let gs = gs.reduce(GameAction::Reset);

    assert!(gs.selected_coord().is_none());
    assert_eq!(gs.as_position(), Position::default_start());
}

#[test]
fn reducible_game_state_test_undo_resets_selection() {
    let gs = game_state_after_one_move().reduce(click_action(-1, -1));

    assert!(gs.selected_coord().is_some());

    let gs = gs.reduce(GameAction::Undo);
    assert!(gs.selected_coord().is_none());
}

#[test]
fn reducible_game_state_test_multiple_edits_count_as_one_undo_step() {
    let gs = game_state();
    let gs = gs
        .reduce(GameAction::SetMode { mode: Mode::Edit })
        .reduce(click_action(1, 2))
        .reduce(click_action(2, 0));

    let gs = gs.reduce(GameAction::Undo);
    assert_eq!(gs.as_position(), Position::default_start());
    assert!(!gs.can_undo());
}

#[test]
fn reducible_game_state_test_has_made_first_move() {
    let gs = game_state();

    // selecting a peg does not count as a move
    let gs = gs.reduce(click_action(2, 0));
    assert!(!gs.has_made_first_move());

    let gs = gs.reduce(click_action(0, 0));
    assert!(gs.has_made_first_move());

    // resetting does not reset first move flag
    let gs = gs.reduce(GameAction::Reset);
    assert!(gs.has_made_first_move());
}

#[test]
fn reducible_game_state_test_nr_pegs() {
    assert_eq!(game_state().nr_pegs(), 32);
    assert_eq!(game_state_after_one_move().nr_pegs(), 31);
}

#[test]
fn reducible_game_state_undo_and_redo_keeps_solve_path_intact() {
    let gs = game_state_after_one_move();
    let known = gs.is_solvable();
    let gs = gs.reduce(GameAction::Undo).reduce(GameAction::Redo);
    assert_eq!(gs.is_solvable(), known);
    // the way back to the start is the move that was made
    let gs = gs.reduce(GameAction::StepSolution {
        dir: Direction::Backward,
    });
    assert_eq!(gs.as_position(), Position::default_start());
}
