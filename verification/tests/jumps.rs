use peg_solitaire::coord::Coord;
use peg_solitaire::jumps::{all_jumps, compute_all_jumps, coordinate_to_index, Cell, Jump};
use peg_solitaire::moves::{all_moves, Move};
use peg_solitaire::position::Position;
use peg_solitaire::search::search;

#[test]
fn cli_test_coords() {
    let mut next_idx = 0;
    for y in 0..7 {
        for x in 0..7 {
            if let Some(idx) = coordinate_to_index((x, y)) {
                assert_eq!(next_idx, idx);
                next_idx += 1;
            }
        }
    }

    assert_eq!(next_idx, 33);
}

#[test]
fn cli_test_jumps() {
    assert_eq!(all_jumps().to_vec(), compute_all_jumps());
}

#[test]
fn solver_test_jumps() {
    assert_eq!(all_jumps().to_vec(), compute_all_jumps());
}

#[test]
fn test_parse() {
    let parsed = Position::parse(
        r#"

          ..#
          ###
        #######
        ###.###
        #######
          ###
          ###

        "#,
    );
    assert_eq!(parsed.0, 0b111111111111111101111111111111100);
}

#[test]
fn parse_passes_over_everything_but_pegs_and_holes() {
    assert_eq!(Position::parse("").0, 0);
    assert_eq!(Position::parse("x y z\n\t").0, 0);
    assert_eq!(Position::parse("#").0, 1);
    assert_eq!(Position::parse(".#").0, 2);
    assert_eq!(Position::parse("a#b.c#d").0, 0b101);
    let all = "#".repeat(64);
    assert_eq!(Position::parse(&all).0, u64::MAX);
    let last = ".".repeat(63) + "#";
    assert_eq!(Position::parse(&last).0, 1 << 63);
    assert_eq!(
        Position::parse(&Position::default_start().to_ascii()),
        Position::default_start()
    );
}

#[test]
fn to_ascii_writes_seven_lines() {
    assert_eq!(
        Position::default_start().to_ascii(),
        "  ###  \n  ###  \n#######\n###.###\n#######\n  ###  \n  ###  \n"
    );
    assert_eq!(
        Position(0b101).to_ascii(),
        "  #.#  \n  ...  \n.......\n.......\n.......\n  ...  \n  ...  \n"
    );
    assert_eq!(
        Position((1 << 32) | (1 << 6) | (1 << 40)).to_ascii(),
        "  ...  \n  ...  \n#......\n.......\n.......\n  ...  \n  ..#  \n"
    );
    let mut state: u64 = 99;
    for _ in 0..200 {
        state = state.wrapping_mul(6364136223846793005).wrapping_add(1442695040888963407);
        let position = Position(state >> 31);
        let text = position.to_ascii();
        let lines: Vec<&str> = text.lines().collect();
        assert_eq!(lines.len(), 7);
        let lines: [&str; 7] = lines.try_into().unwrap();
        assert_eq!(Position::from_ascii(lines), position);
        assert_eq!(Position::parse(&text), position);
    }
}

#[test]
fn coordinate_to_index_knows_the_cross() {
    assert_eq!(coordinate_to_index((2, 0)), Some(0));
    assert_eq!(coordinate_to_index((4, 1)), Some(5));
    assert_eq!(coordinate_to_index((0, 2)), Some(6));
    assert_eq!(coordinate_to_index((3, 3)), Some(16));
    assert_eq!(coordinate_to_index((6, 4)), Some(26));
    assert_eq!(coordinate_to_index((4, 6)), Some(32));
    for at in [(0, 0), (1, 1), (5, 5), (7, 3), (3, 7), (-1, 3), (3, -1), (i32::MAX, i32::MIN)] {
        assert_eq!(coordinate_to_index(at), None);
    }
    for c in Coord::all() {
        assert_eq!(
            coordinate_to_index((c.x() as i32 + 3, c.y() as i32 + 3)),
            Some(c.hole_idx() as i32)
        );
    }
}

#[test]
fn the_jumps_are_the_moves_as_masks() {
    let jumps = all_jumps();
    assert_eq!(jumps[0], Jump(192, 256));
    assert_eq!(jumps[6], Jump(3, 4));
    assert_eq!(jumps[75], Jump(1056, 4));
    let mut of_moves: Vec<Jump> = all_moves()
        .iter()
        .map(|mv: &Move| {
            Jump(
                mv.source().bitmask() | mv.middle().bitmask(),
                mv.destination().bitmask(),
            )
        })
        .collect();
    let mut table = jumps.to_vec();
    of_moves.sort_by_key(|j| (j.0, j.1));
    table.sort_by_key(|j| (j.0, j.1));
    assert_eq!(table, of_moves);
}

fn follow(start: Position, path: &[(Position, Move)]) -> Position {
    let mut pos = start;
    for (after, mv) in path {
        assert!(pos.can_move(*mv));
        pos = pos.apply_move(*mv);
        assert_eq!(pos, *after);
    }
    pos
}

#[test]
fn search_finds_a_way_if_there_is_one() {
    let end = Position::default_end();
    let start = Position::from_ascii([
        "    ...    ",
        "    ...    ",
        "  .......  ",
        "  ..###..  ",
        "  ...#...  ",
        "    .#.    ",
        "    ...    ",
    ]);
    let result = search(start, end);
    assert!(result.found);
    assert_eq!(result.path.len(), 4);
    assert_eq!(follow(start, &result.path), end);

    // two pegs that cannot meet
    let apart = Position((1 << 0) | (1 << 32));
    let result = search(apart, end);
    assert!(!result.found);
    assert!(result.path.is_empty());

    // five pegs in a row: the last but one jump leaves two pegs apart
    let row = Position(0b11111 << 13);
    let result = search(row, Position(1 << 13));
    assert!(!result.found);
    let result = search(row, Position(1 << 16));
    assert_eq!(result.found, result.path.len() == 4);
    if result.found {
        assert_eq!(follow(row, &result.path), Position(1 << 16));
    }
}

#[test]
fn search_does_not_look_at_positions_with_equal_pegs() {
    let end = Position::default_end();
    // fewer pegs than the end: no way
    assert!(!search(Position(0), end).found);
    // as many pegs as the end: taken to be joined
    let same = search(end, end);
    assert!(same.found);
    assert!(same.path.is_empty());
    let other = search(Position(1), end);
    assert!(other.found);
    assert!(other.path.is_empty());
}

#[test]
fn the_start_position_drawn() {
    assert_eq!(
        Position::default_start().draw(),
        "  ###\n  ###\n#######\n###.###\n#######\n  ###\n  ###\n"
    );
    assert_eq!(
        Position(0b100).draw(),
        "  ..#\n  ...\n.......\n.......\n.......\n  ...\n  ...\n"
    );
}

#[test]
fn a_position_shown_with_the_jump_that_led_to_it() {
    // the jump from the right into the centre: holes 18 and 17 are emptied
    let mv = Move::from_raw_coords((2, 0), (0, 0));
    let jump = Jump::of_move(mv);
    assert_eq!(jump, Jump((1 << 18) | (1 << 17), 1 << 16));
    let after = Position::default_start().apply_move(mv);
    let cells = after.draw_with_jump(jump);
    assert_eq!(cells.len(), 33);
    for (i, cell) in cells.iter().enumerate() {
        let expected = match i {
            16 => Cell::LandedPeg,
            17 | 18 => Cell::ClearedHole,
            _ => Cell::Peg,
        };
        assert_eq!(*cell, expected, "hole {i}");
    }
    // an empty hole that the jump did not touch is a plain hole
    let cells = Position(0).draw_with_jump(jump);
    assert_eq!(cells[0], Cell::Hole);
    assert_eq!(cells[17], Cell::ClearedHole);
    assert_eq!(cells[16], Cell::Hole);
}
