//! A position of the board, packed into the low 33 bits of a word.

use crate::bits::{
    lemma_popcount_bound, lemma_popcount_disjoint, lemma_popcount_has_bit,
    lemma_popcount_low_ones, lemma_popcount_single_bit, lemma_popcount_two_bits, popcount,
};
use crate::coord::{lemma_hole_index_bijective, Coord};
use crate::moves::Move;
use vstd::prelude::*;

verus! {

/// The number of pegs in the usual start position.
pub const NR_PEGS: usize = 32;

/// The number of holes of the board.
pub const NR_HOLES: usize = 33;

/// The word whose one bits are the 33 holes of the board.
pub const BOARD_MASK: u64 = 0x1_ffff_ffff;

/// A game position stored as a bitfield: bit `i` says whether hole number `i`
/// holds a peg. The bits above the 33 holes are zero in a well-formed position.
#[derive(Clone, Copy, PartialEq, Eq, Debug, Hash, Structural)]
pub struct Position(pub u64);

impl Position {
    /// Only bits of holes are set.
    pub open spec fn wf(self) -> bool {
        self.0 <= BOARD_MASK
    }

    /// Whether the hole holds a peg.
    pub open spec fn spec_is_occupied(self, coord: Coord) -> bool {
        self.0 & coord.spec_bitmask() != 0
    }

    /// The number of pegs on the board.
    pub open spec fn spec_count(self) -> int {
        popcount(self.0) as int
    }

    /// The position with a peg exactly where this one has a hole.
    pub open spec fn spec_inverse(self) -> Position {
        Position(self.0 ^ BOARD_MASK)
    }

    /// The hole that the move fills is empty, and the two holes that it
    /// empties both hold a peg.
    pub open spec fn spec_can_move(self, mv: Move) -> bool {
        self.0 & mv.add_mask() == 0 && popcount(self.0 & mv.remove_mask()) == 2
    }

    /// The move can be taken back: the hole that it fills holds a peg, and
    /// the two holes that it empties are empty.
    pub open spec fn spec_can_move_inverse(self, mv: Move) -> bool {
        self.0 & mv.remove_mask() == 0 && self.0 & mv.add_mask() != 0
    }

    /// The position after the move: its two holes emptied and its destination
    /// filled.
    pub open spec fn spec_apply_move(self, mv: Move) -> Position {
        Position((self.0 & !mv.remove_mask()) | mv.add_mask())
    }

    /// The position after the move was taken back: its two holes filled and
    /// its destination emptied.
    pub open spec fn spec_apply_move_inverse(self, mv: Move) -> Position {
        Position((self.0 | mv.remove_mask()) & !mv.add_mask())
    }

    /// The usual start: a peg in every hole but the centre.
    pub open spec fn spec_default_start() -> Position {
        Position(0x1_fffe_ffff)
    }

    /// The target: a single peg, in the centre.
    pub open spec fn spec_default_end() -> Position {
        Position(0x1_0000)
    }

    /// The usual start position: 32 pegs around an empty centre.
    pub fn default_start() -> (r: Position)
        ensures
            r == Position::spec_default_start(),
    {
        Position(0x1_fffe_ffff)
    }

    /// The target: a single peg in the centre.
    pub fn default_end() -> (r: Position)
        ensures
            r == Position::spec_default_end(),
    {
        Position(0x1_0000)
    }

    /// Number of occupied holes in this position.
    pub fn count(&self) -> (r: i32)
        ensures
            r == self.spec_count(),
            0 <= r <= 64,
    {
        proof {
            lemma_popcount_bound(self.0, 64);
        }
        self.0.count_ones() as i32
    }

    /// The position with a peg exactly where this one has a hole.
    pub fn inverse(&self) -> (r: Position)
        ensures
            r == self.spec_inverse(),
    {
        Position(self.0 ^ BOARD_MASK)
    }

    /// Whether the move can be made: its source and the hole next to it hold a
    /// peg and its destination is empty.
    pub fn can_move(&self, mv: Move) -> (r: bool)
        ensures
            r == self.spec_can_move(mv),
    {
        (self.0 & mv.add_bits()) == 0 && (self.0 & mv.remove_bits()).count_ones() == 2
    }

    /// Whether the move can be taken back: its destination holds a peg and its
    /// other two holes are empty.
    pub fn can_move_inverse(&self, mv: Move) -> (r: bool)
        ensures
            r == self.spec_can_move_inverse(mv),
    {
        (self.0 & mv.remove_bits()) == 0 && (self.0 & mv.add_bits()) > 0
    }

    /// The position after the move.
    pub fn apply_move(&self, mv: Move) -> (r: Position)
        ensures
            r == self.spec_apply_move(mv),
    {
        let mut next = self.0;
        next = next & !mv.remove_bits();
        next = next | mv.add_bits();
        Position(next)
    }

    /// The position after the move was taken back.
    pub fn apply_move_inverse(&self, mv: Move) -> (r: Position)
        ensures
            r == self.spec_apply_move_inverse(mv),
    {
        let mut next = self.0;
        next = next | mv.remove_bits();
        next = next & !mv.add_bits();
        Position(next)
    }

    /// Whether the hole holds a peg.
    pub fn is_occupied(&self, coord: Coord) -> (r: bool)
        ensures
            r == self.spec_is_occupied(coord),
    {
        self.0 & coord.bitmask() > 0
    }
}

proof fn lemma_three_bits(p: u64, a: u64, b: u64, c: u64)
    by (bit_vector)
    requires
        a < 33,
        b < 33,
        c < 33,
        a != b,
        a != c,
        b != c,
    ensures
        ({
            let remove = (1u64 << a) | (1u64 << b);
            let add = 1u64 << c;
            &&& remove & add == 0
            &&& (p & remove == remove <==> p & (1u64 << a) != 0 && p & (1u64 << b) != 0)
            &&& (p & remove == 0 <==> p & (1u64 << a) == 0 && p & (1u64 << b) == 0)
            &&& (p & remove == remove && p & add == 0 ==> {
                &&& (((p & !remove) | add) | remove) & !add == p
                &&& (p & !remove) & add == 0
                &&& (p & !remove) & remove == 0
                &&& (p & !remove) | remove == p
                &&& ((p & !remove) | add) & remove == 0
                &&& ((p & !remove) | add) & add != 0
            })
            &&& (p & remove == 0 && p & add != 0 ==> {
                &&& (((p | remove) & !add) & !remove) | add == p
                &&& (p & !add) & add == 0
                &&& (p & !add) & remove == 0
                &&& (p & !add) | add == p
                &&& (p | remove) & !add == (p & !add) | remove
                &&& ((p | remove) & !add) & add == 0
                &&& ((p | remove) & !add) & remove == remove
            })
            &&& (p <= 0x1_ffff_ffff ==> (p & !remove) | add <= 0x1_ffff_ffff && (p | remove) & !add
                <= 0x1_ffff_ffff)
        }),
{
}

proof fn lemma_start_and_end_bits(i: u64)
    by (bit_vector)
    requires
        i < 33,
    ensures
        (0x1_fffe_ffffu64 & (1u64 << i) != 0) <==> i != 16,
        (0x1_0000u64 & (1u64 << i) != 0) <==> i == 16,
        0x1_fffe_ffffu64 ^ 0x1_ffff_ffff == 0x1_0000,
        0x1_fffe_ffffu64 == 0x1_0000u64 ^ 0x1_ffff_ffff,
        0x1_0000u64 == 1u64 << 16,
        0x1_fffe_ffffu64 & (1u64 << 16) == 0,
        0x1_fffe_ffffu64 | (1u64 << 16) == 0x1_ffff_ffff,
        0x1_ffff_ffffu64 < (1u64 << 33),
        0x1_ffff_ffffu64 == ((1u64 << 33) - 1) as u64,
{
}

proof fn lemma_complement(p: u64, i: u64)
    by (bit_vector)
    requires
        i < 33,
    ensures
        (p ^ 0x1_ffff_ffff) ^ 0x1_ffff_ffff == p,
        ((p ^ 0x1_ffff_ffff) & (1u64 << i) != 0) <==> !(p & (1u64 << i) != 0),
        p <= 0x1_ffff_ffff ==> {
            &&& p ^ 0x1_ffff_ffff <= 0x1_ffff_ffff
            &&& p & (p ^ 0x1_ffff_ffff) == 0
            &&& p | (p ^ 0x1_ffff_ffff) == 0x1_ffff_ffff
        },
{
}

/// On the board the inverse has a peg exactly where the position has none.
pub proof fn lemma_inverse(p: Position, c: Coord)
    requires
        c.valid(),
    ensures
        p.spec_inverse().spec_is_occupied(c) == !p.spec_is_occupied(c),
{
    lemma_hole_index_bijective(c, c);
    lemma_complement(p.0, c.spec_hole_idx() as u64);
}

/// The inverse of the inverse is the position itself, and a well-formed
/// position and its inverse have 33 pegs together.
pub proof fn lemma_inverse_count(p: Position)
    ensures
        p.spec_inverse().spec_inverse() == p,
        p.wf() ==> p.spec_inverse().wf() && p.spec_inverse().spec_count() == 33 - p.spec_count(),
{
    lemma_complement(p.0, 0);
    lemma_start_and_end_bits(0);
    if p.wf() {
        lemma_popcount_disjoint(p.0, p.0 ^ 0x1_ffff_ffff);
        lemma_popcount_low_ones(33);
    }
}

/// The start position has a peg in every hole but the centre and the target
/// has a peg in the centre only.
pub proof fn lemma_start_and_end(c: Coord)
    requires
        c.valid(),
    ensures
        Position::spec_default_start().spec_is_occupied(c) <==> c != Coord::at(0, 0),
        Position::spec_default_end().spec_is_occupied(c) <==> c == Coord::at(0, 0),
{
    let centre = Coord::at(0, 0);
    Coord::lemma_at_view(0, 0);
    lemma_hole_index_bijective(c, centre);
    lemma_start_and_end_bits(c.spec_hole_idx() as u64);
}

/// The start position and the target are the inverse of each other; the
/// start has 32 pegs and the target has one.
pub proof fn lemma_start_and_end_counts()
    ensures
        Position::spec_default_start().spec_inverse() == Position::spec_default_end(),
        Position::spec_default_end().spec_inverse() == Position::spec_default_start(),
        Position::spec_default_start().wf(),
        Position::spec_default_end().wf(),
        Position::spec_default_end().spec_count() == 1,
        Position::spec_default_start().spec_count() == 32,
{
    lemma_start_and_end_bits(0);
    lemma_popcount_single_bit(16);
    lemma_popcount_disjoint(0x1_fffe_ffffu64, 1u64 << 16);
    lemma_popcount_low_ones(33);
}

/// The three holes of a move of the board have three different numbers
/// below 33.
pub proof fn lemma_move_holes(mv: Move)
    requires
        mv.valid(),
    ensures
        0 <= mv.spec_source().spec_hole_idx() < 33,
        0 <= mv.spec_middle().spec_hole_idx() < 33,
        0 <= mv.spec_destination().spec_hole_idx() < 33,
        mv.spec_source().spec_hole_idx() != mv.spec_middle().spec_hole_idx(),
        mv.spec_source().spec_hole_idx() != mv.spec_destination().spec_hole_idx(),
        mv.spec_middle().spec_hole_idx() != mv.spec_destination().spec_hole_idx(),
{
    let s = mv.spec_source();
    let m = mv.spec_middle();
    let d = mv.spec_destination();
    lemma_hole_index_bijective(s, m);
    lemma_hole_index_bijective(s, d);
    lemma_hole_index_bijective(m, d);
}

/// A move can be made exactly if its source and the hole next to it hold a
/// peg and its destination is empty; it can be taken back exactly if its
/// destination holds a peg and the other two holes are empty.
pub proof fn lemma_can_move_by_holes(p: Position, mv: Move)
    requires
        mv.valid(),
    ensures
        p.spec_can_move(mv) <==> {
            &&& p.spec_is_occupied(mv.spec_source())
            &&& p.spec_is_occupied(mv.spec_middle())
            &&& !p.spec_is_occupied(mv.spec_destination())
        },
        p.spec_can_move_inverse(mv) <==> {
            &&& !p.spec_is_occupied(mv.spec_source())
            &&& !p.spec_is_occupied(mv.spec_middle())
            &&& p.spec_is_occupied(mv.spec_destination())
        },
{
    lemma_move_holes(mv);
    let a = mv.spec_source().spec_hole_idx() as u64;
    let b = mv.spec_middle().spec_hole_idx() as u64;
    let c = mv.spec_destination().spec_hole_idx() as u64;
    lemma_three_bits(p.0, a, b, c);
    lemma_popcount_two_bits(p.0, a, b);
}

/// Taking back a move that was just made gives the position before it.
pub proof fn lemma_apply_then_inverse(p: Position, mv: Move)
    requires
        mv.valid(),
        p.spec_can_move(mv),
    ensures
        p.spec_apply_move(mv).spec_can_move_inverse(mv),
        p.spec_apply_move(mv).spec_apply_move_inverse(mv) == p,
{
    lemma_move_holes(mv);
    let a = mv.spec_source().spec_hole_idx() as u64;
    let b = mv.spec_middle().spec_hole_idx() as u64;
    let c = mv.spec_destination().spec_hole_idx() as u64;
    lemma_three_bits(p.0, a, b, c);
    lemma_popcount_two_bits(p.0, a, b);
}

/// Making again a move that was just taken back gives the position before.
pub proof fn lemma_inverse_then_apply(p: Position, mv: Move)
    requires
        mv.valid(),
        p.spec_can_move_inverse(mv),
    ensures
        p.spec_apply_move_inverse(mv).spec_can_move(mv),
        p.spec_apply_move_inverse(mv).spec_apply_move(mv) == p,
{
    lemma_move_holes(mv);
    let a = mv.spec_source().spec_hole_idx() as u64;
    let b = mv.spec_middle().spec_hole_idx() as u64;
    let c = mv.spec_destination().spec_hole_idx() as u64;
    lemma_three_bits(p.0, a, b, c);
    lemma_popcount_two_bits(p.spec_apply_move_inverse(mv).0, a, b);
}

proof fn lemma_complement_move(p: u64, a: u64, b: u64, c: u64)
    by (bit_vector)
    requires
        a < 33,
        b < 33,
        c < 33,
        a != b,
        a != c,
        b != c,
        p <= 0x1_ffff_ffff,
    ensures
        ({
            let remove = (1u64 << a) | (1u64 << b);
            let add = 1u64 << c;
            let q = p ^ 0x1_ffff_ffff;
            &&& (q & remove == remove <==> p & remove == 0)
            &&& (q & remove == 0 <==> p & remove == remove)
            &&& (q & add == 0 <==> p & add != 0)
            &&& (q & !remove) | add == ((p | remove) & !add) ^ 0x1_ffff_ffff
            &&& (q | remove) & !add == ((p & !remove) | add) ^ 0x1_ffff_ffff
        }),
{
}

/// On the inverse of a well-formed position a move can be made exactly if
/// it can be taken back on the position itself, and making it there gives
/// the inverse of what taking it back gives here; and the other way round.
pub proof fn lemma_inverse_move(p: Position, mv: Move)
    requires
        p.wf(),
        mv.valid(),
    ensures
        p.spec_inverse().spec_can_move(mv) == p.spec_can_move_inverse(mv),
        p.spec_inverse().spec_can_move_inverse(mv) == p.spec_can_move(mv),
        p.spec_inverse().spec_apply_move(mv) == p.spec_apply_move_inverse(mv).spec_inverse(),
        p.spec_inverse().spec_apply_move_inverse(mv) == p.spec_apply_move(mv).spec_inverse(),
{
    lemma_move_holes(mv);
    let a = mv.spec_source().spec_hole_idx() as u64;
    let b = mv.spec_middle().spec_hole_idx() as u64;
    let c = mv.spec_destination().spec_hole_idx() as u64;
    lemma_complement_move(p.0, a, b, c);
    lemma_popcount_two_bits(p.0, a, b);
    lemma_popcount_two_bits(p.spec_inverse().0, a, b);
}

proof fn lemma_hole_bound(p: u64, c: u64)
    by (bit_vector)
    requires
        c < 33,
        p <= 0x1_ffff_ffff,
        p & (1u64 << c) == 0,
    ensures
        p | (1u64 << c) <= 0x1_ffff_ffff,
        0x1_ffff_ffffu64 < (1u64 << 33),
{
}

/// A well-formed position in which a move can be made has at most 32 pegs.
pub proof fn lemma_movable_count(p: Position, mv: Move)
    requires
        p.wf(),
        mv.valid(),
        p.spec_can_move(mv),
    ensures
        p.spec_count() <= 32,
{
    lemma_move_holes(mv);
    let c = mv.spec_destination().spec_hole_idx() as u64;
    lemma_hole_bound(p.0, c);
    lemma_popcount_disjoint(p.0, 1u64 << c);
    lemma_popcount_single_bit(c);
    lemma_popcount_bound(p.0 | (1u64 << c), 33);
}

/// In a well-formed position in which a move can be made at least two pegs
/// stand and a hole is empty, and in one in which a move can be taken back
/// a peg stands and at least two holes are empty.
pub proof fn lemma_move_needs_pegs(p: Position, mv: Move)
    requires
        p.wf(),
        mv.valid(),
    ensures
        p.spec_can_move(mv) ==> 2 <= p.spec_count() <= 32,
        p.spec_can_move_inverse(mv) ==> 1 <= p.spec_count() <= 31,
{
    lemma_move_changes_count(p, mv);
    lemma_move_holes(mv);
    let a = mv.spec_source().spec_hole_idx() as u64;
    let b = mv.spec_middle().spec_hole_idx() as u64;
    let c = mv.spec_destination().spec_hole_idx() as u64;
    lemma_three_bits(p.0, a, b, c);
    lemma_popcount_two_bits(p.0, a, b);
    if p.spec_can_move(mv) {
        lemma_movable_count(p, mv);
        lemma_popcount_has_bit(p.spec_apply_move(mv).0, c);
    }
    if p.spec_can_move_inverse(mv) {
        let before = p.spec_apply_move_inverse(mv);
        lemma_inverse_then_apply(p, mv);
        lemma_movable_count(before, mv);
        lemma_popcount_has_bit(p.0, c);
    }
}

/// A move takes one peg off the board, and taking it back puts one on. Both
/// keep a well-formed position well-formed.
pub proof fn lemma_move_changes_count(p: Position, mv: Move)
    requires
        mv.valid(),
    ensures
        p.spec_can_move(mv) ==> p.spec_apply_move(mv).spec_count() == p.spec_count() - 1,
        p.spec_can_move_inverse(mv) ==> p.spec_apply_move_inverse(mv).spec_count()
            == p.spec_count() + 1,
        p.wf() ==> p.spec_apply_move(mv).wf() && p.spec_apply_move_inverse(mv).wf(),
{
    lemma_move_holes(mv);
    let a = mv.spec_source().spec_hole_idx() as u64;
    let b = mv.spec_middle().spec_hole_idx() as u64;
    let c = mv.spec_destination().spec_hole_idx() as u64;
    let remove = mv.remove_mask();
    let add = mv.add_mask();
    lemma_three_bits(p.0, a, b, c);
    lemma_popcount_two_bits(p.0, a, b);
    lemma_popcount_single_bit(c);
    if p.spec_can_move(mv) {
        let rest = p.0 & !remove;
        lemma_popcount_disjoint(rest, remove);
        lemma_popcount_disjoint(rest, add);
    }
    if p.spec_can_move_inverse(mv) {
        let rest = p.0 & !add;
        lemma_popcount_disjoint(rest, add);
        lemma_popcount_disjoint(rest, remove);
    }
}

} // verus!
