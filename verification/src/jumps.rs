//! Jumps as pairs of bit masks, on a board whose holes are named by their
//! column and row in a grid of seven by seven with the origin at the top
//! left.

use crate::ascii::hole_char;
use crate::coord::{hole_index, on_board};
use crate::moves::Move;
use crate::position::Position;
use vstd::prelude::*;

verus! {

/// A jump as two masks: the bits of the two holes that it empties, and the
/// bit of the hole that it fills.
#[derive(Clone, Copy, PartialEq, Eq, Debug, Structural)]
pub struct Jump(pub u64, pub u64);

impl Jump {
    /// The two masks of a move of the table.
    pub fn of_move(mv: Move) -> (r: Jump)
        ensures
            r == Jump(mv.remove_mask(), mv.add_mask()),
    {
        Jump(mv.remove_bits(), mv.add_bits())
    }
}

/// The number of the hole in column `x` and row `y` of the grid, if there is
/// a hole.
pub fn coordinate_to_index(at: (i32, i32)) -> (r: Option<i32>)
    ensures
        r == if on_board(at.0 - 3, at.1 - 3) {
            Some(hole_index(at.0 - 3, at.1 - 3) as i32)
        } else {
            None
        },
{
    let (x, y) = at;
    if 0 <= y && y <= 1 && 2 <= x && x <= 4 {
        Some((x - 2) + y * 3)
    } else if 2 <= y && y <= 4 && 0 <= x && x <= 6 {
        Some(x + (y - 2) * 7 + 6)
    } else if 5 <= y && y <= 6 && 2 <= x && x <= 4 {
        Some((x - 2) + (y - 5) * 3 + 27)
    } else {
        None
    }
}

/// The cell of the grid that `(x, y)` names after `turns` quarter turns of
/// the grid about its centre.
pub open spec fn turned_cell(turns: int, x: int, y: int) -> (int, int) {
    if turns == 0 {
        (x, y)
    } else if turns == 1 {
        (6 - y, x)
    } else if turns == 2 {
        (6 - x, 6 - y)
    } else {
        (y, 6 - x)
    }
}

/// Whether the three cells from `(x, y)` on to the right are holes after
/// `turns` quarter turns.
pub open spec fn jump_fits(turns: int, x: int, y: int) -> bool {
    let a = turned_cell(turns, x, y);
    let b = turned_cell(turns, x + 1, y);
    let c = turned_cell(turns, x + 2, y);
    on_board(a.0 - 3, a.1 - 3) && on_board(b.0 - 3, b.1 - 3) && on_board(c.0 - 3, c.1 - 3)
}

/// The jump from the cell `(x, y)` two cells to the right, after `turns`
/// quarter turns.
pub open spec fn jump_from(turns: int, x: int, y: int) -> Jump {
    let a = turned_cell(turns, x, y);
    let b = turned_cell(turns, x + 1, y);
    let c = turned_cell(turns, x + 2, y);
    Jump(
        ((1u64 << (hole_index(a.0 - 3, a.1 - 3) as u64)) + (1u64 << (hole_index(
            b.0 - 3,
            b.1 - 3,
        ) as u64))) as u64,
        1u64 << (hole_index(c.0 - 3, c.1 - 3) as u64),
    )
}

/// The jumps that the first `n` of the 196 places give. A place is a number
/// of quarter turns from 0 to 3 and a cell of the grid; the places are gone
/// through turn by turn, column by column and, within a column, row by row.
pub open spec fn jumps_before(n: int) -> Seq<Jump>
    decreases n,
{
    if n <= 0 {
        Seq::empty()
    } else {
        let place = n - 1;
        let turns = place / 49;
        let x = (place % 49) / 7;
        let y = place % 7;
        if jump_fits(turns, x, y) {
            jumps_before(n - 1).push(jump_from(turns, x, y))
        } else {
            jumps_before(n - 1)
        }
    }
}

proof fn lemma_sum_of_bits(a: u64, b: u64)
    by (bit_vector)
    requires
        a < 33,
        b < 33,
        a != b,
    ensures
        (1u64 << a) + (1u64 << b) < 0x2_0000_0000,
        (1u64 << a) + (1u64 << b) == (1u64 << a) | (1u64 << b),
{
}

/// All jumps of the board, computed from the grid: for each number of
/// quarter turns the jumps to the right, in the order of their places.
pub fn compute_all_jumps() -> (r: Vec<Jump>)
    ensures
        r@ == jumps_before(196),
{
    let mut v: Vec<Jump> = Vec::new();
    let mut i: i32 = 0;
    while i < 4
        invariant
            0 <= i <= 4,
            v@ == jumps_before(49 * i),
        decreases 4 - i,
    {
        let mut x: i32 = 0;
        while x < 7
            invariant
                0 <= i < 4,
                0 <= x <= 7,
                v@ == jumps_before(49 * i + 7 * x),
            decreases 7 - x,
        {
            let mut y: i32 = 0;
            while y < 7
                invariant
                    0 <= i < 4,
                    0 <= x < 7,
                    0 <= y <= 7,
                    v@ == jumps_before(49 * i + 7 * x + y),
                decreases 7 - y,
            {
                let ghost place = 49 * i + 7 * x + y;
                proof {
                    assert(place / 49 == i && (place % 49) / 7 == x && place % 7 == y);
                }
                let a = coordinate_to_index(rot(i, x, y));
                let b = coordinate_to_index(rot(i, x + 1, y));
                let c = coordinate_to_index(rot(i, x + 2, y));
                match (a, b, c) {
                    (Some(a), Some(b), Some(c)) => {
                        proof {
                            lemma_sum_of_bits(a as u64, b as u64);
                        }
                        let j1 = (1u64 << a) + (1u64 << b);
                        let j2 = 1u64 << c;
                        v.push(Jump(j1, j2));
                    },
                    _ => {},
                }
                y += 1;
            }
            x += 1;
        }
        i += 1;
    }
    v
}

/// The cell that `(x, y)` names after `turns` quarter turns.
fn rot(turns: i32, x: i32, y: i32) -> (r: (i32, i32))
    requires
        0 <= turns < 4,
        0 <= x <= 8,
        0 <= y <= 6,
    ensures
        (r.0 as int, r.1 as int) == turned_cell(turns as int, x as int, y as int),
{
    if turns == 0 {
        (x, y)
    } else if turns == 1 {
        (6 - y, x)
    } else if turns == 2 {
        (6 - x, 6 - y)
    } else {
        (y, 6 - x)
    }
}

/// Entry `k` of the table of all jumps.
pub open spec fn jump_entry(k: usize) -> Jump {
    match k {
        0 => Jump(192, 256),
        1 => Jump(24576, 32768),
        2 => Jump(3145728, 4194304),
        3 => Jump(384, 512),
        4 => Jump(49152, 65536),
        5 => Jump(6291456, 8388608),
        6 => Jump(3, 4),
        7 => Jump(24, 32),
        8 => Jump(768, 1024),
        9 => Jump(98304, 131072),
        10 => Jump(12582912, 16777216),
        11 => Jump(402653184, 536870912),
        12 => Jump(3221225472, 4294967296),
        13 => Jump(1536, 2048),
        14 => Jump(196608, 262144),
        15 => Jump(25165824, 33554432),
        16 => Jump(3072, 4096),
        17 => Jump(393216, 524288),
        18 => Jump(50331648, 67108864),
        19 => Jump(36, 1024),
        20 => Jump(18, 512),
        21 => Jump(9, 256),
        22 => Jump(1056, 131072),
        23 => Jump(528, 65536),
        24 => Jump(264, 32768),
        25 => Jump(528384, 67108864),
        26 => Jump(264192, 33554432),
        27 => Jump(132096, 16777216),
        28 => Jump(66048, 8388608),
        29 => Jump(33024, 4194304),
        30 => Jump(16512, 2097152),
        31 => Jump(8256, 1048576),
        32 => Jump(16908288, 536870912),
        33 => Jump(8454144, 268435456),
        34 => Jump(4227072, 134217728),
        35 => Jump(553648128, 4294967296),
        36 => Jump(276824064, 2147483648),
        37 => Jump(138412032, 1073741824),
        38 => Jump(100663296, 16777216),
        39 => Jump(786432, 131072),
        40 => Jump(6144, 1024),
        41 => Jump(50331648, 8388608),
        42 => Jump(393216, 65536),
        43 => Jump(3072, 512),
        44 => Jump(6442450944, 1073741824),
        45 => Jump(805306368, 134217728),
        46 => Jump(25165824, 4194304),
        47 => Jump(196608, 32768),
        48 => Jump(1536, 256),
        49 => Jump(48, 8),
        50 => Jump(6, 1),
        51 => Jump(12582912, 2097152),
        52 => Jump(98304, 16384),
        53 => Jump(768, 128),
        54 => Jump(6291456, 1048576),
        55 => Jump(49152, 8192),
        56 => Jump(384, 64),
        57 => Jump(1207959552, 4194304),
        58 => Jump(2415919104, 8388608),
        59 => Jump(4831838208, 16777216),
        60 => Jump(138412032, 32768),
        61 => Jump(276824064, 65536),
        62 => Jump(553648128, 131072),
        63 => Jump(1056768, 64),
        64 => Jump(2113536, 128),
        65 => Jump(4227072, 256),
        66 => Jump(8454144, 512),
        67 => Jump(16908288, 1024),
        68 => Jump(33816576, 2048),
        69 => Jump(67633152, 4096),
        70 => Jump(33024, 8),
        71 => Jump(66048, 16),
        72 => Jump(132096, 32),
        73 => Jump(264, 1),
        74 => Jump(528, 2),
        _ => Jump(1056, 4),
    }
}

/// The table of all jumps of the board.
pub fn all_jumps() -> (r: [Jump; 76])
    ensures
        forall|k: int| 0 <= k < 76 ==> r@[k] == #[trigger] jump_entry(k as usize),
{
    let mut table = [Jump(0, 0);76];
    let mut k: usize = 0;
    while k < 76
        invariant
            0 <= k <= 76,
            forall|j: int| 0 <= j < k ==> table@[j] == #[trigger] jump_entry(j as usize),
        decreases 76 - k,
    {
        table[k] = jump_entry_at(k);
        k += 1;
    }
    table
}

fn jump_entry_at(k: usize) -> (r: Jump)
    requires
        k < 76,
    ensures
        r == jump_entry(k),
{
    match k {
        0 => Jump(192, 256),
        1 => Jump(24576, 32768),
        2 => Jump(3145728, 4194304),
        3 => Jump(384, 512),
        4 => Jump(49152, 65536),
        5 => Jump(6291456, 8388608),
        6 => Jump(3, 4),
        7 => Jump(24, 32),
        8 => Jump(768, 1024),
        9 => Jump(98304, 131072),
        10 => Jump(12582912, 16777216),
        11 => Jump(402653184, 536870912),
        12 => Jump(3221225472, 4294967296),
        13 => Jump(1536, 2048),
        14 => Jump(196608, 262144),
        15 => Jump(25165824, 33554432),
        16 => Jump(3072, 4096),
        17 => Jump(393216, 524288),
        18 => Jump(50331648, 67108864),
        19 => Jump(36, 1024),
        20 => Jump(18, 512),
        21 => Jump(9, 256),
        22 => Jump(1056, 131072),
        23 => Jump(528, 65536),
        24 => Jump(264, 32768),
        25 => Jump(528384, 67108864),
        26 => Jump(264192, 33554432),
        27 => Jump(132096, 16777216),
        28 => Jump(66048, 8388608),
        29 => Jump(33024, 4194304),
        30 => Jump(16512, 2097152),
        31 => Jump(8256, 1048576),
        32 => Jump(16908288, 536870912),
        33 => Jump(8454144, 268435456),
        34 => Jump(4227072, 134217728),
        35 => Jump(553648128, 4294967296),
        36 => Jump(276824064, 2147483648),
        37 => Jump(138412032, 1073741824),
        38 => Jump(100663296, 16777216),
        39 => Jump(786432, 131072),
        40 => Jump(6144, 1024),
        41 => Jump(50331648, 8388608),
        42 => Jump(393216, 65536),
        43 => Jump(3072, 512),
        44 => Jump(6442450944, 1073741824),
        45 => Jump(805306368, 134217728),
        46 => Jump(25165824, 4194304),
        47 => Jump(196608, 32768),
        48 => Jump(1536, 256),
        49 => Jump(48, 8),
        50 => Jump(6, 1),
        51 => Jump(12582912, 2097152),
        52 => Jump(98304, 16384),
        53 => Jump(768, 128),
        54 => Jump(6291456, 1048576),
        55 => Jump(49152, 8192),
        56 => Jump(384, 64),
        57 => Jump(1207959552, 4194304),
        58 => Jump(2415919104, 8388608),
        59 => Jump(4831838208, 16777216),
        60 => Jump(138412032, 32768),
        61 => Jump(276824064, 65536),
        62 => Jump(553648128, 131072),
        63 => Jump(1056768, 64),
        64 => Jump(2113536, 128),
        65 => Jump(4227072, 256),
        66 => Jump(8454144, 512),
        67 => Jump(16908288, 1024),
        68 => Jump(33816576, 2048),
        69 => Jump(67633152, 4096),
        70 => Jump(33024, 8),
        71 => Jump(66048, 16),
        72 => Jump(132096, 32),
        73 => Jump(264, 1),
        74 => Jump(528, 2),
        _ => Jump(1056, 4),
    }
}

/// What goes before hole `i` where the board is drawn in short lines: two
/// spaces before the three holes of a short row, and before them the end of
/// the line above, if there is one.
pub open spec fn row_lead(i: int) -> Seq<char> {
    if i == 0 {
        seq![' ', ' ']
    } else if i == 3 || i == 27 || i == 30 {
        seq!['\n', ' ', ' ']
    } else if i == 6 || i == 13 || i == 20 {
        seq!['\n']
    } else {
        Seq::empty()
    }
}

/// The first `n` holes of a position, drawn in short lines.
pub open spec fn drawn(pos: Position, n: int) -> Seq<char>
    decreases n,
{
    if n <= 0 {
        Seq::empty()
    } else {
        drawn(pos, n - 1) + row_lead(n - 1) + seq![hole_char(pos, n - 1)]
    }
}

/// What stands in a hole where a position is shown together with the jump
/// that led to it.
#[derive(Clone, Copy, PartialEq, Eq, Debug, Structural)]
pub enum Cell {
    /// A peg.
    Peg,
    /// The peg in the hole that the jump fills.
    LandedPeg,
    /// An empty hole.
    Hole,
    /// One of the two holes that the jump empties, and that is empty.
    ClearedHole,
}

impl Position {
    /// The position drawn in seven lines without spaces at their ends.
    pub open spec fn spec_draw(self) -> Seq<char> {
        drawn(self, 33) + seq!['\n']
    }

    /// What stands in hole `i` where the position is shown with the jump.
    pub open spec fn spec_cell(self, jump: Jump, i: int) -> Cell {
        let bit = 1u64 << (i as u64);
        if self.0 & bit != 0 {
            if jump.1 & bit != 0 {
                Cell::LandedPeg
            } else {
                Cell::Peg
            }
        } else if jump.0 & bit != 0 {
            Cell::ClearedHole
        } else {
            Cell::Hole
        }
    }

    /// The position as text of seven lines, with `#` for a peg and `.` for
    /// an empty hole, and no spaces at the ends of the lines.
    pub fn draw(&self) -> (r: String)
        ensures
            r@ == self.spec_draw(),
    {
        let mut out = String::new();
        let mut i: u64 = 0;
        proof {
            reveal_strlit("  ");
            reveal_strlit("\n  ");
            reveal_strlit("#");
            reveal_strlit(".");
            reveal_strlit("\n");
        }
        while i < 33
            invariant
                0 <= i <= 33,
                out@ == drawn(*self, i as int),
                "  "@ == seq![' ', ' '],
                "\n  "@ == seq!['\n', ' ', ' '],
                "#"@ == seq!['#'],
                "."@ == seq!['.'],
                "\n"@ == seq!['\n'],
            decreases 33 - i,
        {
            let ghost before = out@;
            if i == 0 {
                out.append("  ");
            } else if i == 3 || i == 27 || i == 30 {
                out.append("\n  ");
            } else if i == 6 || i == 13 || i == 20 {
                out.append("\n");
            }
            assert(out@ =~= before + row_lead(i as int));
            if self.0 & (1u64 << i) != 0 {
                out.append("#");
            } else {
                out.append(".");
            }
            i += 1;
        }
        out.append("\n");
        out
    }

    /// The holes of the position, shown with the jump that led to it: the
    /// peg that has landed and the two holes that it left empty are set
    /// off from the others.
    pub fn draw_with_jump(&self, jump: Jump) -> (r: Vec<Cell>)
        ensures
            r@.len() == 33,
            forall|i: int| 0 <= i < 33 ==> r@[i] == self.spec_cell(jump, i),
    {
        let mut out: Vec<Cell> = Vec::new();
        let mut i: u64 = 0;
        while i < 33
            invariant
                0 <= i <= 33,
                out@.len() == i,
                forall|k: int| 0 <= k < i ==> out@[k] == self.spec_cell(jump, k),
            decreases 33 - i,
        {
            let idx = 1u64 << i;
            let cell = if self.0 & idx != 0 {
                if jump.1 & idx != 0 {
                    Cell::LandedPeg
                } else {
                    Cell::Peg
                }
            } else if jump.0 & idx != 0 {
                Cell::ClearedHole
            } else {
                Cell::Hole
            };
            out.push(cell);
            i += 1;
        }
        out
    }
}

} // verus!
