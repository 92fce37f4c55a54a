//! Coordinates of the 33 holes of the cross-shaped board.

use vstd::prelude::*;

verus! {

/// Whether `(x, y)` names a hole of the board. The centre is `(0, 0)`, `x`
/// grows to the right and `y` grows downwards. The board is a horizontal band
/// of seven by three holes crossed with a vertical band of three by seven.
pub open spec fn on_board(x: int, y: int) -> bool {
    ||| -3 <= x <= 3 && -1 <= y <= 1
    ||| -1 <= x <= 1 && -3 <= y <= 3
}

/// The number of the hole `(x, y)` when the holes are counted row by row from
/// the top left one, which is hole 0.
pub open spec fn hole_index(x: int, y: int) -> int {
    if y < -1 {
        (x + 1) + (y + 3) * 3
    } else if y <= 1 {
        (x + 3) + (y + 1) * 7 + 6
    } else {
        (x + 1) + (y - 2) * 3 + 27
    }
}

/// The column of hole number `i`.
pub open spec fn hole_x(i: int) -> int {
    if i < 6 {
        i % 3 - 1
    } else if i < 27 {
        (i - 6) % 7 - 3
    } else {
        (i - 27) % 3 - 1
    }
}

/// The row of hole number `i`.
pub open spec fn hole_y(i: int) -> int {
    if i < 6 {
        i / 3 - 3
    } else if i < 27 {
        (i - 6) / 7 - 1
    } else {
        (i - 27) / 3 + 2
    }
}

/// A hole coordinate on the board. Only coordinates of holes can be built.
#[derive(PartialEq, Eq, Debug, Clone, Copy, Structural)]
pub struct Coord {
    x: i8,
    y: i8,
}

impl View for Coord {
    type V = (int, int);

    closed spec fn view(&self) -> (int, int) {
        (self.x as int, self.y as int)
    }
}

impl Coord {
    /// The coordinate with column `x` and row `y`.
    pub closed spec fn at(x: int, y: int) -> Coord {
        Coord { x: x as i8, y: y as i8 }
    }

    /// The coordinate names a hole of the board.
    pub open spec fn valid(self) -> bool {
        on_board(self@.0, self@.1)
    }

    /// Every coordinate that a program holds names a hole of the board.
    #[verifier::type_invariant]
    pub open spec fn on_board_invariant(self) -> bool {
        self.valid()
    }

    /// The number of the hole, and so the number of its bit in a position.
    pub open spec fn spec_hole_idx(self) -> int {
        hole_index(self@.0, self@.1)
    }

    /// The one-bit mask of the hole in a position.
    pub open spec fn spec_bitmask(self) -> u64 {
        1u64 << (self.spec_hole_idx() as u64)
    }

    /// The coordinate after a quarter turn of the board.
    pub open spec fn spec_rotate(self) -> Coord {
        Coord::at(-self@.1, self@.0)
    }

    /// A coordinate is determined by its column and row.
    pub proof fn lemma_at_view(x: int, y: int)
        requires
            -128 <= x < 128,
            -128 <= y < 128,
        ensures
            Coord::at(x, y)@ == (x, y),
    {
    }

    /// Two coordinates with the same column and row are the same.
    pub proof fn lemma_view_injective(self, other: Coord)
        ensures
            self == Coord::at(self@.0, self@.1),
            self@ == other@ ==> self == other,
    {
    }

    /// The coordinate of column `x` and row `y`, if there is a hole.
    pub fn new(x: i8, y: i8) -> (r: Option<Coord>)
        ensures
            r == if on_board(x as int, y as int) {
                Some(Coord::at(x as int, y as int))
            } else {
                None
            },
    {
        if is_on_board(x, y) {
            Some(Coord { x, y })
        } else {
            None
        }
    }

    /// The hole in the middle of the board.
    pub fn center() -> (r: Coord)
        ensures
            r == Coord::at(0, 0),
    {
        Coord { x: 0, y: 0 }
    }

    /// The offset from `other` to `self`.
    pub fn subtract(self, other: Coord) -> (r: (i8, i8))
        ensures
            r.0 == self@.0 - other@.0,
            r.1 == self@.1 - other@.1,
    {
        proof {
            use_type_invariant(&self);
            use_type_invariant(&other);
        }
        (self.x - other.x, self.y - other.y)
    }

    /// The number of the hole, counted row by row from the top left.
    pub fn hole_idx(self) -> (r: u8)
        ensures
            r == self.spec_hole_idx(),
            r < 33,
    {
        proof {
            use_type_invariant(&self);
        }
        let x: i8 = self.x + 3;
        let y: i8 = self.y + 3;
        let idx: i8 = if y <= 1 {
            (x - 2) + y * 3
        } else if y <= 4 {
            x + (y - 2) * 7 + 6
        } else {
            (x - 2) + (y - 5) * 3 + 27
        };
        idx as u8
    }

    /// The word with the one bit that stands for the hole in a position.
    pub fn bitmask(self) -> (r: u64)
        ensures
            r == self.spec_bitmask(),
    {
        1u64 << self.hole_idx()
    }

    /// The coordinate after a quarter turn of the board about its centre.
    pub fn rotate(self) -> (r: Coord)
        ensures
            r == self.spec_rotate(),
    {
        proof {
            use_type_invariant(&self);
        }
        Coord { x: -self.y, y: self.x }
    }

    /// The coordinate `x` columns to the right and `y` rows below, if that is
    /// a hole of the board.
    pub fn shift(self, x: i8, y: i8) -> (r: Option<Coord>)
        ensures
            r == if on_board(self@.0 + x, self@.1 + y) {
                Some(Coord::at(self@.0 + x, self@.1 + y))
            } else {
                None
            },
    {
        proof {
            use_type_invariant(&self);
        }
        let nx: i16 = self.x as i16 + x as i16;
        let ny: i16 = self.y as i16 + y as i16;
        if -3 <= nx && nx <= 3 && -3 <= ny && ny <= 3 {
            Coord::new(nx as i8, ny as i8)
        } else {
            None
        }
    }

    /// Every hole of the board, row by row from the top left: the coordinate
    /// at position `i` is the one of hole number `i`.
    pub fn all() -> (r: Vec<Coord>)
        ensures
            r@.len() == 33,
            forall|i: int| 0 <= i < 33 ==> (#[trigger] r@[i]) == Coord::at(hole_x(i), hole_y(i)),
            forall|i: int| 0 <= i < 33 ==> (#[trigger] r@[i]).valid() && r@[i].spec_hole_idx() == i,
    {
        let mut out: Vec<Coord> = Vec::new();
        let mut y: i8 = -3;
        while y <= 3
            invariant
                -3 <= y <= 4,
                out@.len() == row_start(y as int),
                forall|i: int|
                    0 <= i < out@.len() ==> (#[trigger] out@[i]) == Coord::at(hole_x(i), hole_y(i)),
            decreases 4 - y,
        {
            let mut x: i8 = -3;
            while x <= 3
                invariant
                    -3 <= y <= 3,
                    -3 <= x <= 4,
                    out@.len() == row_start(y as int) + row_fill(x as int, y as int),
                    forall|i: int|
                        0 <= i < out@.len() ==> (#[trigger] out@[i]) == Coord::at(
                            hole_x(i),
                            hole_y(i),
                        ),
                decreases 4 - x,
            {
                match Coord::new(x, y) {
                    Some(c) => {
                        assert(hole_x(out@.len() as int) == x && hole_y(out@.len() as int) == y);
                        out.push(c);
                    },
                    None => {},
                }
                x += 1;
            }
            y += 1;
        }
        proof {
            assert forall|i: int| 0 <= i < 33 implies (#[trigger] out@[i]).valid()
                && out@[i].spec_hole_idx() == i by {
                lemma_hole_index_of_hole(i);
            }
        }
        out
    }

    /// The column: 0 in the middle, growing to the right.
    pub fn x(self) -> (r: i8)
        ensures
            r == self@.0,
    {
        self.x
    }

    /// The row: 0 in the middle, growing downwards.
    pub fn y(self) -> (r: i8)
        ensures
            r == self@.1,
    {
        self.y
    }
}

impl core::ops::Sub for Coord {
    type Output = (i8, i8);

    /// The offset from `rhs` to `self`.
    fn sub(self, rhs: Coord) -> (r: (i8, i8)) {
        self.subtract(rhs)
    }
}

impl vstd::std_specs::ops::SubSpecImpl for Coord {
    open spec fn obeys_sub_spec() -> bool {
        true
    }

    open spec fn sub_req(self, rhs: Coord) -> bool {
        true
    }

    open spec fn sub_spec(self, rhs: Coord) -> (i8, i8) {
        ((self@.0 - rhs@.0) as i8, (self@.1 - rhs@.1) as i8)
    }
}

impl Default for Coord {
    /// The centre of the board.
    fn default() -> (r: Coord)
        ensures
            r == Coord::at(0, 0),
    {
        Coord::center()
    }
}

/// The number of the first hole of row `y`; 33 below the last row.
pub open spec fn row_start(y: int) -> int {
    if y <= -3 {
        0
    } else if y == -2 {
        3
    } else if y <= 1 {
        6 + (y + 1) * 7
    } else if y == 2 {
        27
    } else if y == 3 {
        30
    } else {
        33
    }
}

/// The number of holes of row `y` that lie left of column `x`.
pub open spec fn row_fill(x: int, y: int) -> int {
    let first: int = if -1 <= y <= 1 {
        -3
    } else {
        -1
    };
    let width: int = if -1 <= y <= 1 {
        7
    } else {
        3
    };
    if x <= first {
        0
    } else if x - first >= width {
        width
    } else {
        x - first
    }
}

/// Hole number `i` lies on the board, and its coordinate has the number `i`.
pub proof fn lemma_hole_index_of_hole(i: int)
    requires
        0 <= i < 33,
    ensures
        on_board(hole_x(i), hole_y(i)),
        hole_index(hole_x(i), hole_y(i)) == i,
        Coord::at(hole_x(i), hole_y(i))@ == (hole_x(i), hole_y(i)),
{
    Coord::lemma_at_view(hole_x(i), hole_y(i));
}

/// The holes and the numbers 0 to 32 correspond one to one: the number of a
/// hole is below 33, the hole with that number is the hole itself, and two
/// holes with the same number are the same.
pub proof fn lemma_hole_index_bijective(a: Coord, b: Coord)
    requires
        a.valid(),
        b.valid(),
    ensures
        0 <= a.spec_hole_idx() < 33,
        hole_x(a.spec_hole_idx()) == a@.0,
        hole_y(a.spec_hole_idx()) == a@.1,
        Coord::at(hole_x(a.spec_hole_idx()), hole_y(a.spec_hole_idx())) == a,
        a.spec_hole_idx() == b.spec_hole_idx() ==> a == b,
{
    a.lemma_view_injective(b);
}

fn is_on_board(x: i8, y: i8) -> (r: bool)
    ensures
        r == on_board(x as int, y as int),
{
    (-3 <= x && x <= 3 && -1 <= y && y <= 1) || (-1 <= x && x <= 1 && -3 <= y && y <= 3)
}

} // verus!
