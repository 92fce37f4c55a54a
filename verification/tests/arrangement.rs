use peg_solitaire::arrangement::{get_move_middle, Arrangement, MoveError, Peg};
use peg_solitaire::coord::Coord;
use peg_solitaire::moves::Move;
use peg_solitaire::position::Position;
use peg_solitaire::solver::Direction;

#[test]
fn test_reverse_move() {
    let mut a = Arrangement::new();
    a.toggle_hole(Coord::new(1, 0).unwrap());
    // we now have a "__x" situation starting from the centre

    a.perform_move(
        Coord::center(),
        Coord::new(2, 0).unwrap(),
        Direction::Backward,
    )
    .unwrap();

    let expected = Position::from_ascii([
        "    ###    ",
        "    ###    ",
        "  #######  ",
        "  #####.#  ",
        "  #######  ",
        "    ###    ",
        "    ###    ",
    ]);
    let actual = a.as_position();
    assert_eq!(expected, actual);
}

#[test]
fn arrangement_test_nr_pegs() {
    let mut a = Arrangement::new();

    assert_eq!(a.nr_pegs(), 32);
    a.perform_move(
        Coord::new(2, 0).unwrap(),
        Coord::center(),
        Direction::Forward,
    )
    .unwrap();
    assert_eq!(a.nr_pegs(), 31);
}

#[test]
fn test_initial_position() {
    let pos = Arrangement::new().as_position();
    assert_eq!(pos, Position::default_start());
}

#[test]
fn every_peg_starts_in_its_own_hole() {
    let a = Arrangement::new();
    let coords = Coord::all();
    let pegs = a.pegs();
    assert_eq!(pegs.len(), 33);
    for (id, peg) in pegs.iter().enumerate() {
        assert_eq!(peg.coord, coords[id]);
        assert_eq!(peg.alive, id != 16);
        assert_eq!(a.is_occupied(coords[id]), id != 16);
    }
}

#[test]
fn a_peg_keeps_its_identity_when_it_jumps() {
    let mut a = Arrangement::new();
    let src = Coord::new(2, 0).unwrap();
    let mid = Coord::new(1, 0).unwrap();
    let dst = Coord::center();
    a.perform_move(src, dst, Direction::Forward).unwrap();

    let pegs = a.pegs();
    // peg 18 started at (2, 0) and sits in the centre now
    assert_eq!(pegs[18], Peg { coord: dst, alive: true });
    // the invisible peg of the centre has taken its hole
    assert_eq!(pegs[16], Peg { coord: src, alive: false });
    // the peg that was jumped over stays where it was, off the board
    assert_eq!(pegs[17], Peg { coord: mid, alive: false });
    assert!(a.is_occupied(dst));
    assert!(!a.is_occupied(src));
    assert!(!a.is_occupied(mid));

    // taking the move back brings every peg home
    a.perform_move(src, dst, Direction::Backward).unwrap();
    assert!(a == Arrangement::new());
}

#[test]
fn perform_move_does_what_apply_move_does() {
    let mut a = Arrangement::new();
    let mut pos = Position::default_start();
    let jumps = [
        ((0, -2), (0, 0)),
        ((-2, -1), (0, -1)),
        ((-1, -3), (-1, -1)),
        ((-1, 0), (-1, -2)),
        ((1, -3), (-1, -3)),
    ];
    for (from, to) in jumps {
        let mv = Move::from_raw_coords(from, to);
        assert!(pos.can_move(mv));
        a.perform_move(mv.source(), mv.destination(), Direction::Forward)
            .unwrap();
        pos = pos.apply_move(mv);
        assert_eq!(a.as_position(), pos);
        assert_eq!(a.nr_pegs() as i32, pos.count());
    }
    for (from, to) in jumps.iter().rev() {
        let mv = Move::from_raw_coords(*from, *to);
        assert!(pos.can_move_inverse(mv));
        a.perform_move(mv.source(), mv.destination(), Direction::Backward)
            .unwrap();
        pos = pos.apply_move_inverse(mv);
        assert_eq!(a.as_position(), pos);
    }
    assert_eq!(pos, Position::default_start());
}

#[test]
fn perform_move_says_why_it_fails() {
    let c = |x, y| Coord::new(x, y).unwrap();
    let mut a = Arrangement::new();
    let start = a;

    assert_eq!(
        a.perform_move(c(0, 0), c(1, 0), Direction::Forward),
        Err(MoveError::NotTwoApart)
    );
    assert_eq!(
        a.perform_move(c(0, 0), c(1, 1), Direction::Backward),
        Err(MoveError::NotTwoApart)
    );
    assert_eq!(
        a.perform_move(c(0, 0), c(0, 0), Direction::Forward),
        Err(MoveError::NotTwoApart)
    );
    assert_eq!(
        a.perform_move(c(0, 0), c(2, 0), Direction::Forward),
        Err(MoveError::NoPegInSource)
    );
    assert_eq!(
        a.perform_move(c(3, 0), c(1, 0), Direction::Forward),
        Err(MoveError::DestinationOccupied)
    );
    a.toggle_hole(c(1, 0));
    assert_eq!(
        a.perform_move(c(2, 0), c(0, 0), Direction::Forward),
        Err(MoveError::NoPegInMiddle)
    );
    let toggled = a;

    assert_eq!(
        a.perform_move(c(2, 0), c(0, 0), Direction::Backward),
        Err(MoveError::NoHoleInSource)
    );
    assert_eq!(
        a.perform_move(c(0, 0), c(1, 0), Direction::Backward),
        Err(MoveError::NotTwoApart)
    );
    assert_eq!(
        a.perform_move(c(1, 0), c(0, 0), Direction::Backward),
        Err(MoveError::NotTwoApart)
    );
    a.toggle_hole(c(2, 0));
    assert_eq!(
        a.perform_move(c(0, 0), c(2, 0), Direction::Backward),
        Err(MoveError::NoPegInDestination)
    );
    a.toggle_hole(c(2, 0));
    assert_eq!(
        a.perform_move(c(0, 0), c(0, -2), Direction::Backward),
        Err(MoveError::NoHoleInMiddle)
    );
    // a move that fails changes nothing
    assert!(a == toggled);
    assert!(a != start);
}

#[test]
fn toggle_hole_flips_one_hole() {
    let mut a = Arrangement::new();
    for coord in Coord::all() {
        let before = a.as_position();
        a.toggle_hole(coord);
        assert_eq!(a.as_position(), Position(before.0 ^ coord.bitmask()));
        assert_eq!(a.is_occupied(coord), !before.is_occupied(coord));
    }
    assert_eq!(a.as_position(), Position::default_end());
    assert_eq!(a.nr_pegs(), 1);
    a.toggle_hole(Coord::center());
    assert_eq!(a.nr_pegs(), 0);
    assert_eq!(a.as_position(), Position(0));
}

#[test]
fn the_middle_of_two_holes() {
    let c = |x, y| Coord::new(x, y).unwrap();
    assert_eq!(get_move_middle(c(0, 0), c(2, 0)), Some(c(1, 0)));
    assert_eq!(get_move_middle(c(0, 0), c(-2, 0)), Some(c(-1, 0)));
    assert_eq!(get_move_middle(c(1, 1), c(1, 3)), Some(c(1, 2)));
    assert_eq!(get_move_middle(c(-3, 1), c(-3, -1)), Some(c(-3, 0)));
    assert_eq!(get_move_middle(c(0, 0), c(1, 0)), None);
    assert_eq!(get_move_middle(c(0, 0), c(0, 0)), None);
    assert_eq!(get_move_middle(c(0, 0), c(1, 1)), None);
    assert_eq!(get_move_middle(c(-1, 0), c(1, 1)), None);
    assert_eq!(get_move_middle(c(0, -3), c(0, 1)), None);
}

#[test]
fn test_jump_sequence_to_moves_conversion() {
    // three pegs in a row: in the centre, right of it, and two left of it
    let mut a = Arrangement::new();
    for c in Coord::all() {
        let keep = c == Coord::new(1, 0).unwrap() || c == Coord::new(-2, 0).unwrap();
        if !keep {
            a.toggle_hole(c);
        }
    }
    assert_eq!(a.nr_pegs(), 3);

    let jumps = [
        Move::from_coords(Coord::new(1, 0).unwrap(), Coord::new(-1, 0).unwrap()).unwrap(),
        Move::from_coords(Coord::new(-2, 0).unwrap(), Coord::center()).unwrap(),
    ];
    for jump in jumps {
        a.perform_move(jump.source(), jump.destination(), Direction::Forward)
            .unwrap();
    }

    assert_eq!(a.as_position(), Position::default_end());
    assert_eq!(a.nr_pegs(), a.as_position().count() as usize);
}

#[test]
fn the_pegs_on_the_board_are_the_pegs_of_the_position() {
    let mut a = Arrangement::new();
    assert_eq!(a.nr_pegs(), a.as_position().count() as usize);
    a.toggle_hole(Coord::center());
    assert_eq!(a.nr_pegs(), 33);
    assert_eq!(a.as_position().count(), 33);
    a.toggle_hole(Coord::new(-1, 3).unwrap());
    a.toggle_hole(Coord::new(3, 1).unwrap());
    assert_eq!(a.nr_pegs(), 31);
    assert_eq!(a.as_position().count(), 31);
}

#[test]
fn lookup_finds_the_peg_that_sits_in_a_hole() {
    let mut a = Arrangement::new();
    assert_eq!(a.lookup(Coord::center()), None);
    assert_eq!(a.lookup(Coord::new(-1, -3).unwrap()), Some(0));
    assert_eq!(a.lookup(Coord::new(2, 0).unwrap()), Some(18));
    a.perform_move(
        Coord::new(2, 0).unwrap(),
        Coord::center(),
        Direction::Forward,
    )
    .unwrap();
    // the peg has kept its identity on its way into the centre
    assert_eq!(a.lookup(Coord::center()), Some(18));
    assert_eq!(a.lookup(Coord::new(2, 0).unwrap()), None);
    assert_eq!(a.lookup(Coord::new(1, 0).unwrap()), None);
}

#[test]
fn check_move_names_the_pegs_of_a_possible_move() {
    let a = Arrangement::new();
    let src = Coord::new(2, 0).unwrap();
    let info = a.check_move(src, Coord::center()).unwrap();
    assert_eq!(info.moved_idx(), 18);
    assert_eq!(info.eliminated_idx(), 17);
    assert_eq!(info.src(), src);
    assert_eq!(info.dst(), Coord::center());
    // checking changes nothing
    assert_eq!(a, Arrangement::new());
}

#[test]
fn check_move_refuses_what_cannot_be_performed() {
    let mut a = Arrangement::new();
    // not two apart
    assert_eq!(a.check_move(Coord::new(1, 0).unwrap(), Coord::center()), None);
    // the destination holds a peg
    assert_eq!(
        a.check_move(Coord::new(3, 0).unwrap(), Coord::new(1, 0).unwrap()),
        None
    );
    // no peg in the source
    assert_eq!(a.check_move(Coord::center(), Coord::new(2, 0).unwrap()), None);
    // no peg in the middle
    a.toggle_hole(Coord::new(1, 0).unwrap());
    assert_eq!(a.check_move(Coord::new(2, 0).unwrap(), Coord::center()), None);
    assert!(a
        .check_move(Coord::new(-2, 0).unwrap(), Coord::center())
        .is_some());
}
