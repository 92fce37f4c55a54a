//! De Bruijn's invariant: a value in the field of four elements that no jump
//! changes, and so a cheap test that a position cannot reach the target.

use crate::coord::{
    hole_index, hole_x, hole_y, lemma_hole_index_bijective, row_fill, row_start, Coord,
};
use crate::moves::Move;
use crate::position::{
    lemma_can_move_by_holes, lemma_move_holes, lemma_start_and_end_counts, Position,
};
use crate::solver::{play, playable};
use vstd::prelude::*;

verus! {

/// Galois field with four elements.
///
/// The names follow de Bruijn: `P` and `Q` are the two roots of
/// `x^2 + x + 1`, so that `P * P == Q` and `One + P == Q`.
#[derive(PartialEq, Eq, Debug, Clone, Copy, Default, Structural)]
pub enum GF4 {
    #[default]
    Zero,
    One,
    P,
    Q,
}

impl core::ops::Add for GF4 {
    type Output = GF4;

    fn add(self, rhs: GF4) -> (r: GF4) {
        match (self, rhs) {
            (GF4::Zero, other) => other,
            (other, GF4::Zero) => other,
            (GF4::One, GF4::One) => GF4::Zero,
            (GF4::One, GF4::P) => GF4::Q,
            (GF4::One, GF4::Q) => GF4::P,
            (GF4::P, GF4::One) => GF4::Q,
            (GF4::P, GF4::P) => GF4::Zero,
            (GF4::P, GF4::Q) => GF4::One,
            (GF4::Q, GF4::One) => GF4::P,
            (GF4::Q, GF4::P) => GF4::One,
            (GF4::Q, GF4::Q) => GF4::Zero,
        }
    }
}

impl vstd::std_specs::ops::AddSpecImpl for GF4 {
    open spec fn obeys_add_spec() -> bool {
        true
    }

    open spec fn add_req(self, rhs: GF4) -> bool {
        true
    }

    open spec fn add_spec(self, rhs: GF4) -> GF4 {
        self.spec_sum(rhs)
    }
}

impl core::ops::Mul for GF4 {
    type Output = GF4;

    fn mul(self, rhs: GF4) -> (r: GF4) {
        match (self, rhs) {
            (GF4::Zero, _) => GF4::Zero,
            (_, GF4::Zero) => GF4::Zero,
            (GF4::One, other) => other,
            (other, GF4::One) => other,
            (GF4::P, GF4::P) => GF4::Q,
            (GF4::P, GF4::Q) => GF4::One,
            (GF4::Q, GF4::P) => GF4::One,
            (GF4::Q, GF4::Q) => GF4::P,
        }
    }
}

impl vstd::std_specs::ops::MulSpecImpl for GF4 {
    open spec fn obeys_mul_spec() -> bool {
        true
    }

    open spec fn mul_req(self, rhs: GF4) -> bool {
        true
    }

    open spec fn mul_spec(self, rhs: GF4) -> GF4 {
        self.spec_product(rhs)
    }
}

impl GF4 {
    /// The sum in the field: every element is its own negative, and the
    /// sum of two of `One`, `P`, `Q` is the third.
    pub open spec fn spec_sum(self, rhs: GF4) -> GF4 {
        if self == GF4::Zero {
            rhs
        } else if rhs == GF4::Zero {
            self
        } else if self == rhs {
            GF4::Zero
        } else if self != GF4::One && rhs != GF4::One {
            GF4::One
        } else if self != GF4::P && rhs != GF4::P {
            GF4::P
        } else {
            GF4::Q
        }
    }

    /// The product in the field: `One`, `P`, `Q` are the powers of `P` with
    /// exponents 0, 1, 2, and exponents add modulo 3.
    pub open spec fn spec_product(self, rhs: GF4) -> GF4 {
        if self == GF4::Zero || rhs == GF4::Zero {
            GF4::Zero
        } else {
            GF4::spec_power_of_p(self.spec_log() + rhs.spec_log())
        }
    }

    /// The exponent `e` in 0, 1, 2 with `P^e == self`, for an element that is
    /// not zero.
    pub open spec fn spec_log(self) -> int {
        match self {
            GF4::One => 0,
            GF4::P => 1,
            _ => 2,
        }
    }

    /// `P` raised to a given whole-number power.
    pub open spec fn spec_power_of_p(exp: int) -> GF4 {
        if exp % 3 == 0 {
            GF4::One
        } else if exp % 3 == 1 {
            GF4::P
        } else {
            GF4::Q
        }
    }

    /// The element raised to a given whole-number power, where the exponent
    /// counts modulo 3: the third power of every element but zero is one.
    pub open spec fn spec_pow(self, exp: int) -> GF4 {
        if exp % 3 == 0 {
            GF4::One
        } else if exp % 3 == 1 {
            self
        } else {
            self.spec_product(self)
        }
    }

    /// Raise the element to a given whole-number power.
    pub fn pow(self, exp: i8) -> (r: GF4)
        ensures
            r == self.spec_pow(exp as int),
    {
        let exp: i8 = match exp.checked_rem_euclid(3) {
            Some(e) => e,
            None => 0,
        };

        let mut out = GF4::One;
        let mut i: i8 = 0;
        while i < exp
            invariant
                0 <= i <= exp < 3,
                out == self.spec_pow(i as int),
            decreases exp - i,
        {
            out = out * self;
            i += 1;
        }

        out
    }
}

/// What the hole number `i` adds to the two sums of de Bruijn: `P^(x + y)` and
/// `P^(x - y)` for the hole in column `x` and row `y`.
pub open spec fn hole_terms(i: int) -> (GF4, GF4) {
    (
        GF4::spec_power_of_p(hole_x(i) + hole_y(i)),
        GF4::spec_power_of_p(hole_x(i) - hole_y(i)),
    )
}

/// The two sums over the pegs in the holes with a number below `n`.
pub open spec fn class_below(pos: Position, n: int) -> (GF4, GF4)
    decreases n,
{
    if n <= 0 {
        (GF4::Zero, GF4::Zero)
    } else {
        let (a, b) = class_below(pos, n - 1);
        if pos.0 & (1u64 << ((n - 1) as u64)) != 0 {
            (a.spec_sum(hole_terms(n - 1).0), b.spec_sum(hole_terms(n - 1).1))
        } else {
            (a, b)
        }
    }
}

/// The values of de Bruijn's functions A and B of the position: the sums
/// over all pegs of `P^(x + y)` and of `P^(x - y)`.
pub open spec fn spec_de_bruijn_class(pos: Position) -> (GF4, GF4) {
    class_below(pos, 33)
}

/// The sum of two pairs, part by part.
pub open spec fn pair_sum(s: (GF4, GF4), t: (GF4, GF4)) -> (GF4, GF4) {
    (s.0.spec_sum(t.0), s.1.spec_sum(t.1))
}

proof fn lemma_toggle_bit(p: u64, h: u64, i: u64)
    by (bit_vector)
    requires
        h < 33,
        i < 33,
    ensures
        i != h ==> (((p ^ (1u64 << h)) & (1u64 << i) != 0) <==> (p & (1u64 << i) != 0)),
        i == h ==> (((p ^ (1u64 << h)) & (1u64 << i) != 0) <==> !(p & (1u64 << i) != 0)),
{
}

/// Putting a peg into hole `h`, or taking one out of it, adds the terms of
/// that hole to the sums: in this field adding and taking away are the same.
proof fn lemma_toggle_hole(p: Position, h: int, n: int)
    requires
        0 <= h < 33,
        0 <= n <= 33,
    ensures
        class_below(Position(p.0 ^ (1u64 << (h as u64))), n) == if h < n {
            pair_sum(class_below(p, n), hole_terms(h))
        } else {
            class_below(p, n)
        },
    decreases n,
{
    if n > 0 {
        lemma_toggle_hole(p, h, n - 1);
        lemma_toggle_bit(p.0, h as u64, (n - 1) as u64);
    }
}

proof fn lemma_move_toggles(p: u64, a: u64, b: u64, c: u64)
    by (bit_vector)
    requires
        a < 33,
        b < 33,
        c < 33,
        a != b,
        a != c,
        b != c,
    ensures
        p & (1u64 << a) != 0 && p & (1u64 << b) != 0 && p & (1u64 << c) == 0 ==> (p & !((1u64 << a)
            | (1u64 << b))) | (1u64 << c) == ((p ^ (1u64 << a)) ^ (1u64 << b)) ^ (1u64 << c),
        p & (1u64 << a) == 0 && p & (1u64 << b) == 0 && p & (1u64 << c) != 0 ==> (p | ((1u64 << a)
            | (1u64 << b))) & !(1u64 << c) == ((p ^ (1u64 << a)) ^ (1u64 << b)) ^ (1u64 << c),
{
}

/// Three powers of `P` whose exponents follow each other add up to zero,
/// since `1 + P + P^2 == 0`.
proof fn lemma_three_powers(e: int, f: int, g: int)
    requires
        (f == e + 1 && g == e + 2) || (f == e - 1 && g == e - 2),
    ensures
        GF4::spec_power_of_p(e).spec_sum(GF4::spec_power_of_p(f)).spec_sum(
            GF4::spec_power_of_p(g),
        ) == GF4::Zero,
{
}

/// The terms of the three holes of a move add up to zero: their exponents
/// are three whole numbers in a row.
proof fn lemma_move_terms_cancel(mv: Move)
    requires
        mv.valid(),
    ensures
        pair_sum(
            pair_sum(
                hole_terms(mv.spec_source().spec_hole_idx()),
                hole_terms(mv.spec_middle().spec_hole_idx()),
            ),
            hole_terms(mv.spec_destination().spec_hole_idx()),
        ) == (GF4::Zero, GF4::Zero),
{
    let s = mv.spec_source();
    let m = mv.spec_middle();
    let d = mv.spec_destination();
    lemma_hole_index_bijective(s, s);
    lemma_hole_index_bijective(m, m);
    lemma_hole_index_bijective(d, d);
    let (sx, sy) = s@;
    let (mx, my) = m@;
    let (dx, dy) = d@;
    lemma_three_powers(sx + sy, mx + my, dx + dy);
    lemma_three_powers(sx - sy, mx - my, dx - dy);
}

/// No move changes the class of a position, whether it is made or taken
/// back. So a position whose class is not the class of the target cannot
/// reach the target.
pub proof fn lemma_move_keeps_class(p: Position, mv: Move)
    requires
        mv.valid(),
    ensures
        p.spec_can_move(mv) ==> spec_de_bruijn_class(p.spec_apply_move(mv)) == spec_de_bruijn_class(
            p,
        ),
        p.spec_can_move_inverse(mv) ==> spec_de_bruijn_class(p.spec_apply_move_inverse(mv))
            == spec_de_bruijn_class(p),
{
    lemma_move_holes(mv);
    lemma_can_move_by_holes(p, mv);
    lemma_move_terms_cancel(mv);
    let a = mv.spec_source().spec_hole_idx();
    let b = mv.spec_middle().spec_hole_idx();
    let c = mv.spec_destination().spec_hole_idx();
    lemma_move_toggles(p.0, a as u64, b as u64, c as u64);
    let once = Position(p.0 ^ (1u64 << (a as u64)));
    let twice = Position(once.0 ^ (1u64 << (b as u64)));
    let thrice = Position(twice.0 ^ (1u64 << (c as u64)));
    lemma_toggle_hole(p, a, 33);
    lemma_toggle_hole(once, b, 33);
    lemma_toggle_hole(twice, c, 33);
    let k = class_below(p, 33);
    let ta = hole_terms(a);
    let tb = hole_terms(b);
    let tc = hole_terms(c);
    assert(class_below(thrice, 33) == pair_sum(pair_sum(pair_sum(k, ta), tb), tc));
    assert(pair_sum(pair_sum(pair_sum(k, ta), tb), tc) == pair_sum(
        k,
        pair_sum(pair_sum(ta, tb), tc),
    ));
}

proof fn lemma_xor_bit(p: u64, q: u64, i: u64)
    by (bit_vector)
    requires
        i < 33,
    ensures
        ((p ^ q) & (1u64 << i) != 0) == ((p & (1u64 << i) != 0) != (q & (1u64 << i) != 0)),
        0x1_ffff_ffffu64 & (1u64 << i) != 0,
        0u64 & (1u64 << i) == 0,
        0u64 ^ (1u64 << 16) == 0x1_0000,
{
}

/// The class of the position that has a peg where exactly one of two
/// positions has one is the sum of their classes.
pub proof fn lemma_class_of_difference(p: Position, q: Position, n: int)
    requires
        0 <= n <= 33,
    ensures
        class_below(Position(p.0 ^ q.0), n) == pair_sum(class_below(p, n), class_below(q, n)),
    decreases n,
{
    if n > 0 {
        lemma_class_of_difference(p, q, n - 1);
        lemma_xor_bit(p.0, q.0, (n - 1) as u64);
    }
}

/// The sums over the first `n` holes of the full board.
pub open spec fn full_class_below(n: usize) -> (GF4, GF4) {
    match n {
        0 => (GF4::Zero, GF4::Zero),
        1 => (GF4::Q, GF4::Q),
        2 => (GF4::P, GF4::P),
        3 => (GF4::Zero, GF4::Zero),
        4 => (GF4::One, GF4::P),
        5 => (GF4::Q, GF4::One),
        6 => (GF4::Zero, GF4::Zero),
        7 => (GF4::Q, GF4::P),
        8 => (GF4::P, GF4::One),
        9 => (GF4::Zero, GF4::Zero),
        10 => (GF4::Q, GF4::P),
        11 => (GF4::P, GF4::One),
        12 => (GF4::Zero, GF4::Zero),
        13 => (GF4::Q, GF4::P),
        14 => (GF4::P, GF4::Q),
        15 => (GF4::Zero, GF4::One),
        16 => (GF4::Q, GF4::P),
        17 => (GF4::P, GF4::Q),
        18 => (GF4::Zero, GF4::One),
        19 => (GF4::Q, GF4::P),
        20 => (GF4::P, GF4::Q),
        21 => (GF4::Zero, GF4::Zero),
        22 => (GF4::Q, GF4::One),
        23 => (GF4::P, GF4::Q),
        24 => (GF4::Zero, GF4::Zero),
        25 => (GF4::Q, GF4::One),
        26 => (GF4::P, GF4::Q),
        27 => (GF4::Zero, GF4::Zero),
        28 => (GF4::P, GF4::One),
        29 => (GF4::One, GF4::Q),
        30 => (GF4::Zero, GF4::Zero),
        31 => (GF4::Q, GF4::Q),
        32 => (GF4::P, GF4::P),
        _ => (GF4::Zero, GF4::Zero),
    }
}

/// Each entry of the table of the full board is the entry before it with
/// the terms of one more hole.
proof fn lemma_full_class_step(n: int)
    requires
        1 <= n <= 33,
    ensures
        full_class_below(n as usize) == pair_sum(
            full_class_below((n - 1) as usize),
            hole_terms(n - 1),
        ),
{
    let x = hole_x(n - 1);
    let y = hole_y(n - 1);
    if n <= 6 {
    } else if n <= 13 {
    } else if n <= 20 {
    } else if n <= 27 {
    } else {
    }
}

proof fn lemma_full_class(n: int)
    requires
        0 <= n <= 33,
    ensures
        class_below(Position(0x1_ffff_ffff), n) == full_class_below(n as usize),
        class_below(Position(0), n) == (GF4::Zero, GF4::Zero),
    decreases n,
{
    if n > 0 {
        lemma_full_class(n - 1);
        lemma_xor_bit(0, 0, (n - 1) as u64);
        lemma_full_class_step(n);
    }
}

/// The empty board and the full board have the class zero, the target and
/// the start position have the class of one, and a well-formed position
/// has the class of its inverse.
pub proof fn lemma_known_classes(p: Position)
    ensures
        spec_de_bruijn_class(Position(0)) == (GF4::Zero, GF4::Zero),
        spec_de_bruijn_class(Position(0x1_ffff_ffff)) == (GF4::Zero, GF4::Zero),
        spec_de_bruijn_class(Position::spec_default_end()) == (GF4::One, GF4::One),
        spec_de_bruijn_class(Position::spec_default_start()) == (GF4::One, GF4::One),
        spec_de_bruijn_class(p.spec_inverse()) == spec_de_bruijn_class(p),
{
    lemma_full_class(33);
    lemma_xor_bit(0, 0, 0);
    lemma_toggle_hole(Position(0), 16, 33);
    lemma_class_of_difference(p, Position(0x1_ffff_ffff), 33);
    let end = Position::spec_default_end();
    lemma_class_of_difference(end, Position(0x1_ffff_ffff), 33);
    lemma_start_and_end_counts();
}

/// Moves never lead to a position of another class: a position whose class
/// is not the class of the target cannot reach the target, and neither can
/// its inverse.
pub proof fn lemma_class_rejects_rightly(pos: Position, path: Seq<Move>)
    requires
        playable(pos, path),
    ensures
        spec_de_bruijn_class(play(pos, path)) == spec_de_bruijn_class(pos),
    decreases path.len(),
{
    if path.len() > 0 {
        lemma_move_keeps_class(pos, path[0]);
        lemma_class_rejects_rightly(pos.spec_apply_move(path[0]), path.drop_first());
    }
}

/// The values of functions A and B of the position.
pub fn de_bruijn_class(pos: Position) -> (r: (GF4, GF4))
    ensures
        r == spec_de_bruijn_class(pos),
{
    let mut a = GF4::Zero;
    let mut b = GF4::Zero;

    let mut y: i8 = -3;
    while y <= 3
        invariant
            -3 <= y <= 4,
            (a, b) == class_below(pos, row_start(y as int)),
        decreases 4 - y,
    {
        let mut x: i8 = -3;
        while x <= 3
            invariant
                -3 <= y <= 3,
                -3 <= x <= 4,
                (a, b) == class_below(pos, row_start(y as int) + row_fill(x as int, y as int)),
            decreases 4 - x,
        {
            match Coord::new(x, y) {
                Some(coord) => {
                    let ghost k = row_start(y as int) + row_fill(x as int, y as int);
                    proof {
                        Coord::lemma_at_view(x as int, y as int);
                        assert(k == hole_index(x as int, y as int));
                        assert(hole_x(k) == x && hole_y(k) == y);
                        assert(coord.spec_bitmask() == 1u64 << (k as u64));
                    }
                    if pos.is_occupied(coord) {
                        a = a + GF4::P.pow(x + y);
                        b = b + GF4::P.pow(x - y);
                    }
                },
                None => {},
            }
            x += 1;
        }
        y += 1;
    }

    (a, b)
}

/// A necessary, but not sufficient, condition that the given position can
/// reach the target: its class is the class of the target.
pub fn de_bruijn_solvable(pos: Position) -> (r: bool)
    ensures
        r == (spec_de_bruijn_class(pos) == (GF4::One, GF4::One)),
{
    let (a, b) = de_bruijn_class(pos);
    a == GF4::One && b == GF4::One
}

} // verus!
