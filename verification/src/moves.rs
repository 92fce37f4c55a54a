//! A jump of one peg over a neighbour into a hole, and the table of all jumps
//! of the board.

use crate::coord::{hole_index, hole_x, hole_y, lemma_hole_index_of_hole, on_board, Coord};
use vstd::prelude::*;

verus! {

/// Whether `(x2, y2)` lies exactly two holes from `(x1, y1)` in the same row
/// or in the same column.
pub open spec fn two_apart(x1: int, y1: int, x2: int, y2: int) -> bool {
    ||| y1 == y2 && (x2 - x1 == 2 || x1 - x2 == 2)
    ||| x1 == x2 && (y2 - y1 == 2 || y1 - y2 == 2)
}

/// One single move, a jump: a peg is lifted, carried over the peg next to it
/// and put into the hole behind, and the peg it passed is taken off the board.
#[derive(Clone, Copy, PartialEq, Eq, Debug, Structural)]
pub struct Move {
    /// Bits that are cleared in the board bitfield by this move.
    remove_bits: u64,
    /// Bits that are set in the board bitfield by this move.
    add_bits: u64,
    /// Coordinate where the jumping peg starts.
    src: Coord,
    /// Coordinate where the jumping peg ends up.
    dst: Coord,
    /// Coordinate of the peg that is jumped over.
    middle: Coord,
}

impl Move {
    /// The hole where the jumping peg starts.
    pub closed spec fn spec_source(self) -> Coord {
        self.src
    }

    /// The hole where the jumping peg ends up.
    pub closed spec fn spec_destination(self) -> Coord {
        self.dst
    }

    /// The hole of the peg that is jumped over.
    pub closed spec fn spec_middle(self) -> Coord {
        self.middle
    }

    /// The bits of the two holes that the move empties.
    pub closed spec fn remove_mask(self) -> u64 {
        self.remove_bits
    }

    /// The bit of the hole that the move fills.
    pub closed spec fn add_mask(self) -> u64 {
        self.add_bits
    }

    /// The jump from `src` to `dst`, for two holes that are two apart.
    pub closed spec fn jump(src: Coord, dst: Coord) -> Move {
        let middle = Coord::at((src@.0 + dst@.0) / 2, (src@.1 + dst@.1) / 2);
        Move {
            remove_bits: src.spec_bitmask() | middle.spec_bitmask(),
            add_bits: dst.spec_bitmask(),
            src,
            dst,
            middle,
        }
    }

    /// The move is a jump of the board: its three holes lie on the board in a
    /// line, next to each other, and its masks are the bits of those holes.
    pub open spec fn valid(self) -> bool {
        let s = self.spec_source();
        let d = self.spec_destination();
        let m = self.spec_middle();
        &&& s.valid()
        &&& d.valid()
        &&& m.valid()
        &&& two_apart(s@.0, s@.1, d@.0, d@.1)
        &&& m@.0 * 2 == s@.0 + d@.0
        &&& m@.1 * 2 == s@.1 + d@.1
        &&& self.remove_mask() == s.spec_bitmask() | m.spec_bitmask()
        &&& self.add_mask() == d.spec_bitmask()
    }

    /// Every move that a program holds is a jump of the board.
    #[verifier::type_invariant]
    pub open spec fn jump_invariant(self) -> bool {
        self.valid()
    }

    /// Between two holes of the board that are two apart lies a hole of the
    /// board, and the jump between them is a move of the board.
    pub proof fn lemma_jump_valid(src: Coord, dst: Coord)
        requires
            src.valid(),
            dst.valid(),
            two_apart(src@.0, src@.1, dst@.0, dst@.1),
        ensures
            Move::jump(src, dst).valid(),
            Move::jump(src, dst).spec_source() == src,
            Move::jump(src, dst).spec_destination() == dst,
    {
        Coord::lemma_at_view((src@.0 + dst@.0) / 2, (src@.1 + dst@.1) / 2);
    }

    /// A move of the board is the jump from its source to its destination.
    pub proof fn lemma_valid_is_jump(self)
        requires
            self.valid(),
        ensures
            self == Move::jump(self.spec_source(), self.spec_destination()),
    {
        let middle = Coord::at(
            (self.src@.0 + self.dst@.0) / 2,
            (self.src@.1 + self.dst@.1) / 2,
        );
        Coord::lemma_at_view((self.src@.0 + self.dst@.0) / 2, (self.src@.1 + self.dst@.1) / 2);
        self.middle.lemma_view_injective(middle);
    }

    /// The jump from `src` to `dst`, if the two holes are two apart in a row
    /// or a column, and no move otherwise.
    pub fn from_coords(src: Coord, dst: Coord) -> (r: Option<Move>)
        ensures
            r == if two_apart(src@.0, src@.1, dst@.0, dst@.1) {
                Some(Move::jump(src, dst))
            } else {
                None
            },
            r matches Some(mv) ==> mv.valid(),
    {
        proof {
            use_type_invariant(&src);
            use_type_invariant(&dst);
        }
        let (dx, dy) = dst.subtract(src);
        if !((dx == 0 && (dy == 2 || dy == -2)) || (dy == 0 && (dx == 2 || dx == -2))) {
            return None;
        }
        proof {
            Move::lemma_jump_valid(src, dst);
        }
        match src.shift(dx / 2, dy / 2) {
            Some(middle) => {
                let remove_bits = src.bitmask() | middle.bitmask();
                let add_bits = dst.bitmask();
                Some(Move { remove_bits, add_bits, src, dst, middle })
            },
            None => None,
        }
    }

    /// The jump between two holes given by their columns and rows.
    pub fn from_raw_coords(from: (i8, i8), to: (i8, i8)) -> (r: Move)
        requires
            on_board(from.0 as int, from.1 as int),
            on_board(to.0 as int, to.1 as int),
            two_apart(from.0 as int, from.1 as int, to.0 as int, to.1 as int),
        ensures
            r == Move::jump(
                Coord::at(from.0 as int, from.1 as int),
                Coord::at(to.0 as int, to.1 as int),
            ),
            r.valid(),
    {
        proof {
            Coord::lemma_at_view(from.0 as int, from.1 as int);
            Coord::lemma_at_view(to.0 as int, to.1 as int);
        }
        let src = Coord::new(from.0, from.1).unwrap();
        let dst = Coord::new(to.0, to.1).unwrap();
        Move::from_coords(src, dst).unwrap()
    }

    /// The coordinate where the jumping peg starts.
    pub fn source(self) -> (r: Coord)
        ensures
            r == self.spec_source(),
            r.valid(),
    {
        proof {
            use_type_invariant(&self);
        }
        self.src
    }

    /// The coordinate where the jumping peg ends up after its jump.
    pub fn destination(self) -> (r: Coord)
        ensures
            r == self.spec_destination(),
            r.valid(),
    {
        proof {
            use_type_invariant(&self);
        }
        self.dst
    }

    /// The coordinate of the peg that is jumped over and leaves the board.
    pub fn middle(self) -> (r: Coord)
        ensures
            r == self.spec_middle(),
            r.valid(),
    {
        proof {
            use_type_invariant(&self);
        }
        self.middle
    }

    pub(crate) fn remove_bits(self) -> (r: u64)
        ensures
            r == self.remove_mask(),
    {
        self.remove_bits
    }

    pub(crate) fn add_bits(self) -> (r: u64)
        ensures
            r == self.add_mask(),
    {
        self.add_bits
    }
}

/// The number of the `k`-th hole, counted from 0 in the order of the holes,
/// that has two holes of the board to its right. There are 19 of them.
pub open spec fn base_hole(k: int) -> int {
    if k <= 0 {
        0
    } else if k == 1 {
        3
    } else if k < 7 {
        k + 4
    } else if k < 12 {
        k + 6
    } else if k < 17 {
        k + 8
    } else if k == 17 {
        27
    } else {
        30
    }
}

/// How many holes with a number below `h` have two holes to their right.
pub open spec fn bases_before(h: int) -> int {
    if h <= 0 {
        0
    } else if h <= 3 {
        1
    } else if h <= 6 {
        2
    } else if h <= 11 {
        h - 4
    } else if h <= 13 {
        7
    } else if h <= 18 {
        h - 6
    } else if h <= 20 {
        12
    } else if h <= 25 {
        h - 8
    } else if h <= 27 {
        17
    } else if h <= 30 {
        18
    } else {
        19
    }
}

/// The column of `(x, y)` after `n` quarter turns.
pub open spec fn turned_x(x: int, y: int, n: int) -> int {
    if n == 0 {
        x
    } else if n == 1 {
        -y
    } else if n == 2 {
        -x
    } else {
        y
    }
}

/// The row of `(x, y)` after `n` quarter turns.
pub open spec fn turned_y(x: int, y: int, n: int) -> int {
    if n == 0 {
        y
    } else if n == 1 {
        x
    } else if n == 2 {
        -y
    } else {
        -x
    }
}

/// Entry `i` of the table of moves. The first 19 entries are the jumps to
/// the right, in the order of their sources; the next three times 19 are
/// these jumps after one, two and three quarter turns of the board.
pub open spec fn spec_move_at(i: int) -> Move {
    let n = i / 19;
    let h = base_hole(i % 19);
    let x = hole_x(h);
    let y = hole_y(h);
    Move::jump(
        Coord::at(turned_x(x, y, n), turned_y(x, y, n)),
        Coord::at(turned_x(x + 2, y, n), turned_y(x + 2, y, n)),
    )
}

/// The table of all moves of the board.
pub open spec fn spec_all_moves() -> Seq<Move> {
    Seq::new(76, |i: int| spec_move_at(i))
}

/// A list of all possible moves on the board.
///
/// The list does not take a position into account: in a given position only
/// some of these moves can be made.
pub fn all_moves() -> (r: [Move; 76])
    ensures
        r@ == spec_all_moves(),
{
    let coords = Coord::all();
    let first = Move::from_raw_coords((-1, -3), (1, -3));
    let mut all: [Move; 76] = [first;76];
    let mut n: usize = 0;

    let mut direction: u8 = 0;
    while direction < 4
        invariant
            0 <= direction <= 4,
            n == 19 * direction,
            coords@.len() == 33,
            forall|i: int| 0 <= i < 33 ==> (#[trigger] coords@[i]) == Coord::at(hole_x(i), hole_y(i)),
            forall|i: int| 0 <= i < n ==> (#[trigger] all@[i]) == spec_move_at(i),
        decreases 4 - direction,
    {
        let mut h: usize = 0;
        while h < 33
            invariant
                0 <= direction < 4,
                0 <= h <= 33,
                n == 19 * direction + bases_before(h as int),
                coords@.len() == 33,
                forall|i: int|
                    0 <= i < 33 ==> (#[trigger] coords@[i]) == Coord::at(hole_x(i), hole_y(i)),
                forall|i: int| 0 <= i < n ==> (#[trigger] all@[i]) == spec_move_at(i),
            decreases 33 - h,
        {
            let coord = coords[h];
            proof {
                lemma_hole_index_of_hole(h as int);
                lemma_base_step(h as int);
            }
            let ghost x = hole_x(h as int);
            let ghost y = hole_y(h as int);
            match (coord.shift(1, 0), coord.shift(2, 0)) {
                (Some(b), Some(c)) => {
                    let mut coord_a = coord;
                    let mut coord_b = b;
                    let mut coord_c = c;
                    proof {
                        Coord::lemma_at_view(x + 1, y);
                        Coord::lemma_at_view(x + 2, y);
                        assert(on_board(x + 1, y) && on_board(x + 2, y));
                    }
                    let mut t: u8 = 0;
                    while t < direction
                        invariant
                            0 <= t <= direction < 4,
                            on_board(x, y),
                            on_board(x + 1, y),
                            on_board(x + 2, y),
                            coord_a@ == (turned_x(x, y, t as int), turned_y(x, y, t as int)),
                            coord_b@ == (turned_x(x + 1, y, t as int), turned_y(x + 1, y, t as int)),
                            coord_c@ == (turned_x(x + 2, y, t as int), turned_y(x + 2, y, t as int)),
                        decreases direction - t,
                    {
                        proof {
                            Coord::lemma_at_view(-coord_a@.1, coord_a@.0);
                            Coord::lemma_at_view(-coord_b@.1, coord_b@.0);
                            Coord::lemma_at_view(-coord_c@.1, coord_c@.0);
                            lemma_turns(x, y, t as int);
                            lemma_turns(x + 1, y, t as int);
                            lemma_turns(x + 2, y, t as int);
                        }
                        coord_a = coord_a.rotate();
                        coord_b = coord_b.rotate();
                        coord_c = coord_c.rotate();
                        t += 1;
                    }
                    proof {
                        use_type_invariant(&coord_a);
                        use_type_invariant(&coord_b);
                        use_type_invariant(&coord_c);
                        lemma_table_entry(n as int, h as int, direction as int, coord_a, coord_b, coord_c);
                    }
                    let remove_bits = coord_a.bitmask() | coord_b.bitmask();
                    let add_bits = coord_c.bitmask();
                    let mv = Move { remove_bits, add_bits, src: coord_a, dst: coord_c, middle: coord_b };
                    all[n] = mv;
                    n += 1;
                },
                _ => {},
            }
            h += 1;
        }
        direction += 1;
    }
    proof {
        assert(all@ =~= spec_all_moves());
    }
    all
}

/// The place of a move in the table of moves.
pub open spec fn spec_move_index(mv: Move) -> int {
    let s = mv.spec_source()@;
    let d = mv.spec_destination()@;
    let n: int = if d.0 - s.0 == 2 {
        0
    } else if d.1 - s.1 == 2 {
        1
    } else if s.0 - d.0 == 2 {
        2
    } else {
        3
    };
    let x = turned_x(s.0, s.1, (4 - n) % 4);
    let y = turned_y(s.0, s.1, (4 - n) % 4);
    19 * n + bases_before(hole_index(x, y))
}

/// Counting the holes that have two holes to their right: `bases_before`
/// grows by one at each such hole, which `base_hole` numbers in turn.
proof fn lemma_base_step(h: int)
    requires
        0 <= h < 33,
    ensures
        0 <= bases_before(h) <= 19,
        on_board(hole_x(h) + 2, hole_y(h)) ==> {
            &&& bases_before(h) < 19
            &&& base_hole(bases_before(h)) == h
            &&& bases_before(h + 1) == bases_before(h) + 1
            &&& on_board(hole_x(h) + 1, hole_y(h))
        },
        !on_board(hole_x(h) + 2, hole_y(h)) ==> bases_before(h + 1) == bases_before(h),
{
}

proof fn lemma_base_hole(k: int)
    requires
        0 <= k < 19,
    ensures
        0 <= base_hole(k) < 33,
        bases_before(base_hole(k)) == k,
        on_board(hole_x(base_hole(k)) + 2, hole_y(base_hole(k))),
        on_board(hole_x(base_hole(k)), hole_y(base_hole(k))),
{
}

/// Quarter turns keep a coordinate on the board, and `4 - n` of them undo `n`.
proof fn lemma_turns(x: int, y: int, n: int)
    requires
        0 <= n < 4,
    ensures
        on_board(turned_x(x, y, n), turned_y(x, y, n)) == on_board(x, y),
        turned_x(turned_x(x, y, n), turned_y(x, y, n), (4 - n) % 4) == x,
        turned_y(turned_x(x, y, n), turned_y(x, y, n), (4 - n) % 4) == y,
        turned_x(turned_x(x, y, (4 - n) % 4), turned_y(x, y, (4 - n) % 4), n) == x,
        turned_y(turned_x(x, y, (4 - n) % 4), turned_y(x, y, (4 - n) % 4), n) == y,
{
}

/// The jump that `all_moves` builds from hole `h` in direction `n` is entry
/// `19 * n + bases_before(h)` of the table.
proof fn lemma_table_entry(i: int, h: int, n: int, a: Coord, b: Coord, c: Coord)
    requires
        0 <= h < 33,
        0 <= n < 4,
        on_board(hole_x(h) + 2, hole_y(h)),
        i == 19 * n + bases_before(h),
        a.valid(),
        b.valid(),
        c.valid(),
        a@ == (turned_x(hole_x(h), hole_y(h), n), turned_y(hole_x(h), hole_y(h), n)),
        b@ == (turned_x(hole_x(h) + 1, hole_y(h), n), turned_y(hole_x(h) + 1, hole_y(h), n)),
        c@ == (turned_x(hole_x(h) + 2, hole_y(h), n), turned_y(hole_x(h) + 2, hole_y(h), n)),
    ensures
        0 <= i < 76,
        two_apart(a@.0, a@.1, c@.0, c@.1),
        b@.0 * 2 == a@.0 + c@.0,
        b@.1 * 2 == a@.1 + c@.1,
        spec_move_at(i) == (Move {
            remove_bits: a.spec_bitmask() | b.spec_bitmask(),
            add_bits: c.spec_bitmask(),
            src: a,
            dst: c,
            middle: b,
        }),
{
    lemma_base_step(h);
    assert(i / 19 == n && i % 19 == bases_before(h));
    a.lemma_view_injective(a);
    c.lemma_view_injective(c);
    Coord::lemma_at_view((a@.0 + c@.0) / 2, (a@.1 + c@.1) / 2);
    b.lemma_view_injective(Coord::at((a@.0 + c@.0) / 2, (a@.1 + c@.1) / 2));
}

/// Entry `i` of the table is a move of the board, and its place in the table
/// is `i`.
pub proof fn lemma_move_at(i: int)
    requires
        0 <= i < 76,
    ensures
        spec_move_at(i).valid(),
        spec_move_index(spec_move_at(i)) == i,
{
    let n = i / 19;
    let k = i % 19;
    let h = base_hole(k);
    let x = hole_x(h);
    let y = hole_y(h);
    lemma_base_hole(k);
    lemma_hole_index_of_hole(h);
    let sx = turned_x(x, y, n);
    let sy = turned_y(x, y, n);
    let dx = turned_x(x + 2, y, n);
    let dy = turned_y(x + 2, y, n);
    lemma_turns(x, y, n);
    lemma_turns(x + 2, y, n);
    Coord::lemma_at_view(sx, sy);
    Coord::lemma_at_view(dx, dy);
    Move::lemma_jump_valid(Coord::at(sx, sy), Coord::at(dx, dy));
}

/// The place in the table of the jump between two holes: the number of
/// quarter turns that leads to its direction, the hole that its source
/// comes from by these turns, and the place of that hole among the holes
/// with two holes to their right.
proof fn lemma_place_of_jump(sx: int, sy: int, dx: int, dy: int, n: int)
    requires
        on_board(sx, sy),
        on_board(dx, dy),
        two_apart(sx, sy, dx, dy),
        n == if dx - sx == 2 {
            0int
        } else if dy - sy == 2 {
            1int
        } else if sx - dx == 2 {
            2int
        } else {
            3int
        },
    ensures
        ({
            let back = (4 - n) % 4;
            let x = turned_x(sx, sy, back);
            let y = turned_y(sx, sy, back);
            let h = hole_index(x, y);
            let k = bases_before(h);
            &&& 0 <= k < 19
            &&& 0 <= h < 33
            &&& base_hole(k) == h
            &&& hole_x(h) == x
            &&& hole_y(h) == y
            &&& turned_x(x, y, n) == sx
            &&& turned_y(x, y, n) == sy
            &&& turned_x(x + 2, y, n) == dx
            &&& turned_y(x + 2, y, n) == dy
        }),
{
    let back = (4 - n) % 4;
    let x = turned_x(sx, sy, back);
    let y = turned_y(sx, sy, back);
    if n == 0 {
        assert(x == sx && y == sy);
    } else if n == 1 {
        assert(x == sy && y == -sx);
    } else if n == 2 {
        assert(x == -sx && y == -sy);
    } else {
        assert(x == -sy && y == sx);
    }
    assert(on_board(x, y) && on_board(x + 2, y));
    let h = hole_index(x, y);
    assert(0 <= h < 33 && hole_x(h) == x && hole_y(h) == y);
    lemma_base_step(h);
}

/// A move of the board stands in the table of moves, at its place.
pub proof fn lemma_move_in_table(mv: Move)
    requires
        mv.valid(),
    ensures
        0 <= spec_move_index(mv) < 76,
        spec_move_at(spec_move_index(mv)) == mv,
{
    let s = mv.spec_source()@;
    let d = mv.spec_destination()@;
    let n: int = if d.0 - s.0 == 2 {
        0
    } else if d.1 - s.1 == 2 {
        1
    } else if s.0 - d.0 == 2 {
        2
    } else {
        3
    };
    lemma_place_of_jump(s.0, s.1, d.0, d.1, n);
    let back = (4 - n) % 4;
    let x = turned_x(s.0, s.1, back);
    let y = turned_y(s.0, s.1, back);
    let h = hole_index(x, y);
    let k = bases_before(h);
    let i = 19 * n + k;
    assert(i == spec_move_index(mv));
    assert(i / 19 == n && i % 19 == k);
    mv.spec_source().lemma_view_injective(mv.spec_source());
    mv.spec_destination().lemma_view_injective(mv.spec_destination());
    mv.lemma_valid_is_jump();
    assert(Coord::at(turned_x(x, y, n), turned_y(x, y, n)) == mv.spec_source());
    assert(Coord::at(turned_x(x + 2, y, n), turned_y(x + 2, y, n)) == mv.spec_destination());
}

/// The table holds 76 moves of the board, no move twice, and every move of
/// the board.
pub proof fn lemma_all_moves_distinct()
    ensures
        spec_all_moves().len() == 76,
        forall|i: int| 0 <= i < 76 ==> (#[trigger] spec_all_moves()[i]).valid(),
        forall|i: int, j: int|
            0 <= i < j < 76 ==> #[trigger] spec_all_moves()[i] != #[trigger] spec_all_moves()[j],
        forall|mv: Move| #[trigger] mv.valid() ==> spec_all_moves().contains(mv),
{
    assert forall|i: int| 0 <= i < 76 implies (#[trigger] spec_all_moves()[i]).valid() by {
        lemma_move_at(i);
    }
    assert forall|i: int, j: int| 0 <= i < j < 76 implies #[trigger] spec_all_moves()[i]
        != #[trigger] spec_all_moves()[j] by {
        lemma_move_at(i);
        lemma_move_at(j);
    }
    assert forall|mv: Move| #[trigger] mv.valid() implies spec_all_moves().contains(mv) by {
        lemma_move_in_table(mv);
        assert(spec_all_moves()[spec_move_index(mv)] == mv);
    }
}

} // verus!
