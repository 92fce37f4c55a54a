use peg_solitaire::debruijn::{de_bruijn_class, de_bruijn_solvable, GF4};
use peg_solitaire::moves::{all_moves, Move};
use peg_solitaire::position::Position;

// Check that equation (1) from "A solitaire game and its relations to a finite field" holds
#[test]
fn eq_one() {
    assert_eq!(GF4::One + GF4::P, GF4::P * GF4::P);
    assert_eq!(GF4::P + GF4::P * GF4::P, GF4::One);
}

#[test]
fn start_and_end_classes() {
    assert_eq!(
        de_bruijn_class(Position::default_end()),
        (GF4::One, GF4::One)
    );
    assert_eq!(
        de_bruijn_class(Position::default_start()),
        (GF4::One, GF4::One)
    );
}

#[test]
fn empty_board() {
    assert_eq!(de_bruijn_class(Position(0)), (GF4::Zero, GF4::Zero));
}

#[test]
fn three_in_line_have_no_effect() {
    assert_eq!(de_bruijn_class(Position(7)), (GF4::Zero, GF4::Zero));
}

#[test]
fn exapmle_situation_from_paper() {
    assert_eq!(GF4::P.pow(-1 + 1), GF4::One);
    assert_eq!(GF4::P.pow(0 + 2), GF4::Q);
    assert_eq!(GF4::P.pow(0 - 2), GF4::P);
    assert_eq!(GF4::P.pow(1 + 1), GF4::Q);
    assert_eq!(GF4::P.pow(2 + 1), GF4::One);
    assert_eq!(GF4::P.pow(3 + 2), GF4::Q);
}

const ELEMENTS: [GF4; 4] = [GF4::Zero, GF4::One, GF4::P, GF4::Q];

#[test]
fn addition_table() {
    let expected = [
        [GF4::Zero, GF4::One, GF4::P, GF4::Q],
        [GF4::One, GF4::Zero, GF4::Q, GF4::P],
        [GF4::P, GF4::Q, GF4::Zero, GF4::One],
        [GF4::Q, GF4::P, GF4::One, GF4::Zero],
    ];
    for (i, a) in ELEMENTS.iter().enumerate() {
        for (j, b) in ELEMENTS.iter().enumerate() {
            assert_eq!(*a + *b, expected[i][j]);
        }
    }
}

#[test]
fn multiplication_table() {
    let expected = [
        [GF4::Zero, GF4::Zero, GF4::Zero, GF4::Zero],
        [GF4::Zero, GF4::One, GF4::P, GF4::Q],
        [GF4::Zero, GF4::P, GF4::Q, GF4::One],
        [GF4::Zero, GF4::Q, GF4::One, GF4::P],
    ];
    for (i, a) in ELEMENTS.iter().enumerate() {
        for (j, b) in ELEMENTS.iter().enumerate() {
            assert_eq!(*a * *b, expected[i][j]);
        }
    }
}

#[test]
fn field_laws() {
    for a in ELEMENTS {
        assert_eq!(a + a, GF4::Zero);
        assert_eq!(a * GF4::One, a);
        for b in ELEMENTS {
            assert_eq!(a + b, b + a);
            assert_eq!(a * b, b * a);
            for c in ELEMENTS {
                assert_eq!((a + b) + c, a + (b + c));
                assert_eq!((a * b) * c, a * (b * c));
                assert_eq!(a * (b + c), a * b + a * c);
            }
        }
    }
}

#[test]
fn pow_counts_the_exponent_modulo_three() {
    for a in ELEMENTS {
        assert_eq!(a.pow(0), GF4::One);
        assert_eq!(a.pow(1), a);
        assert_eq!(a.pow(2), a * a);
        assert_eq!(a.pow(3), GF4::One);
        assert_eq!(a.pow(-1), a * a);
        assert_eq!(a.pow(-128), a);
        assert_eq!(a.pow(127), a);
    }
    assert_eq!(GF4::default(), GF4::Zero);
}

#[test]
fn single_pegs_have_the_class_of_their_hole() {
    // the centre: x + y = 0 and x - y = 0
    assert_eq!(de_bruijn_class(Position(1 << 16)), (GF4::One, GF4::One));
    // (1, 0): x + y = 1 and x - y = 1
    assert_eq!(de_bruijn_class(Position(1 << 17)), (GF4::P, GF4::P));
    // (-1, -3), the first hole: x + y = -4 and x - y = 2
    assert_eq!(de_bruijn_class(Position(1)), (GF4::Q, GF4::Q));
    // (0, -3): x + y = -3 and x - y = 3
    assert_eq!(de_bruijn_class(Position(2)), (GF4::One, GF4::One));
    // (1, -3): x + y = -2 and x - y = 4
    assert_eq!(de_bruijn_class(Position(4)), (GF4::P, GF4::P));
    // (0, 1): x + y = 1 and x - y = -1
    assert_eq!(de_bruijn_class(Position(1 << 23)), (GF4::P, GF4::Q));
}

#[test]
fn bits_above_the_board_do_not_count() {
    assert_eq!(de_bruijn_class(Position(1 << 33)), (GF4::Zero, GF4::Zero));
    assert_eq!(
        de_bruijn_class(Position(u64::MAX)),
        de_bruijn_class(Position((1 << 33) - 1))
    );
}

#[test]
fn solvable_means_the_class_of_the_target() {
    assert!(de_bruijn_solvable(Position::default_start()));
    assert!(de_bruijn_solvable(Position::default_end()));
    assert!(!de_bruijn_solvable(Position(0)));
    assert!(!de_bruijn_solvable(Position(1 << 17)));
    // another hole with the class of the centre
    assert!(de_bruijn_solvable(Position(2)));
}

fn walk(pos: Position, moves: &[Move; 76], depth: u32, seen: &mut u32) {
    let class = de_bruijn_class(pos);
    *seen += 1;
    if depth == 0 {
        return;
    }
    for &mv in moves {
        if pos.can_move(mv) {
            let next = pos.apply_move(mv);
            assert_eq!(de_bruijn_class(next), class);
            walk(next, moves, depth - 1, seen);
        }
        if pos.can_move_inverse(mv) {
            assert_eq!(de_bruijn_class(pos.apply_move_inverse(mv)), class);
        }
    }
}

#[test]
fn no_move_changes_the_class() {
    let moves = all_moves();
    let mut seen = 0;
    walk(Position::default_start(), &moves, 4, &mut seen);
    walk(Position::default_end(), &moves, 1, &mut seen);
    walk(Position(0b1_0110_1101_0011_1010_0101_1100_1011_0110), &moves, 3, &mut seen);
    assert!(seen > 100);
}
