use peg_solitaire::coord::Coord;
use peg_solitaire::moves::{all_moves, Move};
use peg_solitaire::position::Position;
use rand::{RngCore, SeedableRng};

#[test]
fn test_move_list_contains_all_unique_moves() {
    let moves = all_moves();

    for i in 0..moves.len() {
        for j in 0..i {
            assert_ne!(moves[i], moves[j]);
        }
    }
}

#[test]
fn test_from_ascii() {
    let a = Position::from_ascii([
        "    #..    ",
        "    ...    ",
        "  .......  ",
        "  .......  ",
        "  .......  ",
        "    ...    ",
        "    ...    ",
    ]);
    assert_eq!(a.0, 1);

    let a = Position::from_ascii([
        "    .#.    ",
        "    ...    ",
        "  .......  ",
        "  .......  ",
        "  .......  ",
        "    ...    ",
        "    ...    ",
    ]);
    assert_eq!(a.0, 2);

    let a = Position::from_ascii([
        "    ...    ",
        "    ...    ",
        "  .......  ",
        "  .......  ",
        "  .......  ",
        "    ...    ",
        "    ..#    ",
    ]);
    assert_eq!(a.0, 1u64 << 32);
}

#[test]
fn test_rotate() {
    let a = Position::from_ascii([
        "    ...    ",
        "    ...    ",
        "  .##....  ",
        "  ..#....  ",
        "  .......  ",
        "    ...    ",
        "    ...    ",
    ]);

    let b = Position::from_ascii([
        "    ...    ",
        "    ...    ",
        "  .......  ",
        "  .......  ",
        "  ..##...  ",
        "    #..    ",
        "    ...    ",
    ]);

    assert_eq!(a.rotate(), b);
}

#[test]
fn test_mirror() {
    let a = Position::from_ascii([
        "    ...    ",
        "    ..#    ",
        "  .##....  ",
        "  ..#....  ",
        "  .......  ",
        "    ...    ",
        "    ...    ",
    ]);

    let b = Position::from_ascii([
        "    ...    ",
        "    ...    ",
        "  .......  ",
        "  ..#....  ",
        "  .##....  ",
        "    ..#    ",
        "    ...    ",
    ]);

    assert_eq!(a.mirror(), b);
}

#[test]
fn test_mirror_involutive() {
    let mut rng = rand::rngs::StdRng::from_seed([5; 32]);
    for _ in 0..500 {
        let pos = rng.next_u64() & ((1u64 << 33) - 1);
        let pos = Position(pos);

        assert_eq!(pos.mirror().mirror(), pos);
    }
}

#[test]
fn test_normalize() {
    let a = Position::from_ascii([
        "    ...    ",
        "    ..#    ",
        "  .##....  ",
        "  ..#....  ",
        "  .......  ",
        "    ...    ",
        "    ...    ",
    ]);
    let b = a.rotate();

    assert_eq!(a.normalize(), b.normalize());

    let b = a.mirror();
    assert_eq!(a.normalize(), b.normalize());
}

fn samples() -> Vec<Position> {
    let mut rng = rand::rngs::StdRng::from_seed([7; 32]);
    let mut out = vec![
        Position(0),
        Position((1 << 33) - 1),
        Position::default_start(),
        Position::default_end(),
        Position(1),
        Position(1 << 32),
    ];
    for _ in 0..300 {
        out.push(Position(rng.next_u64() & ((1u64 << 33) - 1)));
    }
    out
}

#[test]
fn default_positions() {
    let start = Position::from_ascii([
        "    ###    ",
        "    ###    ",
        "  #######  ",
        "  ###.###  ",
        "  #######  ",
        "    ###    ",
        "    ###    ",
    ]);
    let end = Position::from_ascii([
        "    ...    ",
        "    ...    ",
        "  .......  ",
        "  ...#...  ",
        "  .......  ",
        "    ...    ",
        "    ...    ",
    ]);
    assert_eq!(Position::default_start(), start);
    assert_eq!(Position::default_end(), end);
    assert_eq!(start.0, 0b111111111111111101111111111111111);
    assert_eq!(end.0, 0b000000000000000010000000000000000);
    assert_eq!(start.count(), 32);
    assert_eq!(end.count(), 1);
    assert_eq!(start.inverse(), end);
    assert_eq!(end.inverse(), start);
}

#[test]
fn from_ascii_ignores_padding_anywhere() {
    let a = Position::from_ascii([
        "#.#",
        " . . . ",
        ".......",
        "  .......",
        ".......  ",
        "...",
        "..#        ",
    ]);
    assert_eq!(a.0, 0b101 | (1 << 32));
    let b = Position::from_ascii(["#.#......", "", "........", "........", "", "", "......#."]);
    assert_eq!(b.0, 0b101 | (1 << 31));
}

#[test]
fn try_from_ascii_rejects_malformed_boards() {
    let good = [
        "    ###    ",
        "    ###    ",
        "  #######  ",
        "  ###.###  ",
        "  #######  ",
        "    ###    ",
        "    ###    ",
    ];
    assert_eq!(Position::try_from_ascii(good), Some(Position::default_start()));

    let mut bad_char = good;
    bad_char[3] = "  ###x###  ";
    assert_eq!(Position::try_from_ascii(bad_char), None);

    let mut tab = good;
    tab[0] = "\t###";
    assert_eq!(Position::try_from_ascii(tab), None);

    let mut too_few = good;
    too_few[6] = "    ##     ";
    assert_eq!(Position::try_from_ascii(too_few), None);

    let mut too_many = good;
    too_many[6] = "    ####   ";
    assert_eq!(Position::try_from_ascii(too_many), None);

    let mut too_many_early = good;
    too_many_early[0] = "    ####   ";
    too_many_early[6] = "    ##     ";
    assert_eq!(
        Position::try_from_ascii(too_many_early).map(|p| p.count()),
        Some(32)
    );

    assert_eq!(Position::try_from_ascii([""; 7]), None);

    // a foreign character after the 33rd hole is still refused
    let mut trailing = good;
    trailing[6] = "    ###   x";
    assert_eq!(Position::try_from_ascii(trailing), None);
}

#[test]
fn count_and_inverse() {
    assert_eq!(Position(0).count(), 0);
    assert_eq!(Position(0b1011).count(), 3);
    assert_eq!(Position((1 << 33) - 1).count(), 33);
    assert_eq!(Position(0).inverse(), Position((1 << 33) - 1));
    for p in samples() {
        assert_eq!(p.inverse().inverse(), p);
        assert_eq!(p.inverse().count(), 33 - p.count());
        for c in Coord::all() {
            assert_eq!(p.inverse().is_occupied(c), !p.is_occupied(c));
        }
    }
}

#[test]
fn is_occupied_reads_the_bit_of_the_hole() {
    let p = Position(0b101);
    assert!(p.is_occupied(Coord::new(-1, -3).unwrap()));
    assert!(!p.is_occupied(Coord::new(0, -3).unwrap()));
    assert!(p.is_occupied(Coord::new(1, -3).unwrap()));
    assert!(Position::default_end().is_occupied(Coord::center()));
    assert!(!Position::default_start().is_occupied(Coord::center()));
    for c in Coord::all() {
        assert_eq!(Position::default_start().is_occupied(c), c != Coord::center());
        assert_eq!(Position(c.bitmask()).count(), 1);
    }
}

#[test]
fn can_move_needs_two_pegs_and_a_hole() {
    // the jump from (2, 0) over (1, 0) into the centre
    let mv = Move::from_raw_coords((2, 0), (0, 0));
    let src = 1u64 << 18;
    let mid = 1u64 << 17;
    let dst = 1u64 << 16;
    assert!(Position(src | mid).can_move(mv));
    assert!(!Position(src).can_move(mv));
    assert!(!Position(mid).can_move(mv));
    assert!(!Position(src | mid | dst).can_move(mv));
    assert!(!Position(0).can_move(mv));
    assert!(Position(src | mid | 1).can_move(mv));
    assert!(Position::default_start().can_move(mv));

    assert!(Position(dst).can_move_inverse(mv));
    assert!(!Position(dst | src).can_move_inverse(mv));
    assert!(!Position(dst | mid).can_move_inverse(mv));
    assert!(!Position(0).can_move_inverse(mv));
    assert!(Position::default_end().can_move_inverse(mv));
}

#[test]
fn apply_move_clears_two_bits_and_sets_one() {
    let mv = Move::from_raw_coords((2, 0), (0, 0));
    let after = Position::default_start().apply_move(mv);
    let expected = Position::from_ascii([
        "    ###    ",
        "    ###    ",
        "  #######  ",
        "  ####..#  ",
        "  #######  ",
        "    ###    ",
        "    ###    ",
    ]);
    assert_eq!(after, expected);
    assert_eq!(after.count(), 31);
    assert_eq!(after.apply_move_inverse(mv), Position::default_start());
    assert_eq!(
        Position(1 << 16).apply_move_inverse(mv),
        Position((1 << 17) | (1 << 18))
    );
}

#[test]
fn apply_move_inverse_undoes_apply_move() {
    let moves = all_moves();
    let mut made = 0;
    let mut taken_back = 0;
    for p in samples() {
        for &mv in &moves {
            if p.can_move(mv) {
                let next = p.apply_move(mv);
                assert!(next.can_move_inverse(mv));
                assert_eq!(next.apply_move_inverse(mv), p);
                assert_eq!(next.count(), p.count() - 1);
                made += 1;
            }
            if p.can_move_inverse(mv) {
                let prev = p.apply_move_inverse(mv);
                assert!(prev.can_move(mv));
                assert_eq!(prev.apply_move(mv), p);
                assert_eq!(prev.count(), p.count() + 1);
                taken_back += 1;
            }
        }
    }
    assert!(made > 1000);
    assert!(taken_back > 1000);
}

#[test]
fn can_move_agrees_with_the_holes() {
    let moves = all_moves();
    for p in samples() {
        for &mv in &moves {
            let by_holes = p.is_occupied(mv.source())
                && p.is_occupied(mv.middle())
                && !p.is_occupied(mv.destination());
            assert_eq!(p.can_move(mv), by_holes);
            let back = !p.is_occupied(mv.source())
                && !p.is_occupied(mv.middle())
                && p.is_occupied(mv.destination());
            assert_eq!(p.can_move_inverse(mv), back);
        }
    }
}

#[test]
fn rotate_four_times_is_the_identity() {
    for p in samples() {
        assert_eq!(p.rotate().rotate().rotate().rotate(), p);
        assert_eq!(p.rotate().count(), p.count());
        assert_eq!(p.mirror().count(), p.count());
    }
}

#[test]
fn rotate_and_mirror_follow_the_coordinates() {
    for p in samples() {
        let r = p.rotate();
        let m = p.mirror();
        for c in Coord::all() {
            assert_eq!(r.is_occupied(c), p.is_occupied(c.rotate()));
            let flipped = Coord::new(c.x(), -c.y()).unwrap();
            assert_eq!(m.is_occupied(c), p.is_occupied(flipped));
        }
    }
}

#[test]
fn rotate_and_mirror_drop_bits_above_the_board() {
    let p = Position(0b101);
    let high = Position(0b101 | (1 << 40) | (1 << 33));
    assert_eq!(high.rotate(), p.rotate());
    assert_eq!(high.mirror(), p.mirror());
}

#[test]
fn normalize_is_the_least_of_the_eight_images() {
    for p in samples() {
        let mut images = vec![p];
        for i in 0..3 {
            images.push(images[i].rotate());
        }
        for i in 0..4 {
            images.push(images[i].mirror());
        }
        let least = images.iter().map(|q| q.0).min().unwrap();
        assert_eq!(p.normalize(), Position(least));
        for q in images {
            assert_eq!(q.normalize(), p.normalize());
        }
        assert_eq!(p.normalize().normalize(), p.normalize());
    }
    assert_eq!(Position(1 << 32).normalize(), Position(1));
    assert_eq!(Position(1 << 30).normalize(), Position(1));
    assert_eq!(Position::default_start().normalize(), Position::default_start());
}

#[test]
fn moves_are_built_from_their_ends() {
    let mv = Move::from_raw_coords((0, -2), (0, 0));
    assert_eq!(mv.source(), Coord::new(0, -2).unwrap());
    assert_eq!(mv.middle(), Coord::new(0, -1).unwrap());
    assert_eq!(mv.destination(), Coord::center());
    assert_eq!(
        Move::from_coords(Coord::new(0, -2).unwrap(), Coord::center()),
        Some(mv)
    );
    let back = Move::from_raw_coords((0, 0), (0, -2));
    assert_ne!(mv, back);
    assert_eq!(back.middle(), mv.middle());
}

#[test]
fn from_coords_wants_two_holes_that_are_two_apart() {
    let all = Coord::all();
    let mut found = 0;
    for &a in &all {
        for &b in &all {
            let (dx, dy) = b.subtract(a);
            let apart = (dx.abs() == 2 && dy == 0) || (dx == 0 && dy.abs() == 2);
            let mv = Move::from_coords(a, b);
            assert_eq!(mv.is_some(), apart, "{a:?} {b:?}");
            if let Some(mv) = mv {
                found += 1;
                assert_eq!(mv.source(), a);
                assert_eq!(mv.destination(), b);
                assert_eq!(mv.middle().subtract(a), (dx / 2, dy / 2));
            }
        }
    }
    assert_eq!(found, 76);
    assert_eq!(Move::from_coords(Coord::center(), Coord::center()), None);
    assert_eq!(
        Move::from_coords(Coord::center(), Coord::new(1, 1).unwrap()),
        None
    );
    assert_eq!(
        Move::from_coords(Coord::center(), Coord::new(3, 0).unwrap()),
        None
    );
}

#[test]
fn the_table_holds_every_move_once_in_its_order() {
    let moves = all_moves();
    assert_eq!(moves.len(), 76);
    // the first jumps go to the right, in the order of their sources
    assert_eq!(moves[0], Move::from_raw_coords((-1, -3), (1, -3)));
    assert_eq!(moves[1], Move::from_raw_coords((-1, -2), (1, -2)));
    assert_eq!(moves[2], Move::from_raw_coords((-3, -1), (-1, -1)));
    assert_eq!(moves[18], Move::from_raw_coords((-1, 3), (1, 3)));
    // then the same jumps after one, two and three quarter turns
    assert_eq!(moves[19], Move::from_raw_coords((3, -1), (3, 1)));
    assert_eq!(moves[38], Move::from_raw_coords((1, 3), (-1, 3)));
    assert_eq!(moves[57], Move::from_raw_coords((-3, 1), (-3, -1)));
    assert_eq!(moves[75], Move::from_raw_coords((3, 1), (3, -1)));
    let all = Coord::all();
    for &a in &all {
        for &b in &all {
            if let Some(mv) = Move::from_coords(a, b) {
                assert_eq!(moves.iter().filter(|m| **m == mv).count(), 1);
            }
        }
    }
}

#[test]
fn the_symmetries_keep_the_number_of_pegs() {
    let positions = [
        Position::default_start(),
        Position::default_end(),
        Position(0b111),
        Position(0x1_0000_0001),
        Position(0x0_1234_5678),
        Position(0x1_ffff_ffff),
        Position(0),
    ];
    for p in positions {
        assert_eq!(p.rotate().count(), p.count());
        assert_eq!(p.mirror().count(), p.count());
        assert_eq!(p.normalize().count(), p.count());
    }
}
