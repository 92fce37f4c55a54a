//! The pegs of a game as things that keep their identity while they are
//! moved: which peg sits in which hole, and which pegs are still on the
//! board.

use crate::bits::{
    lemma_packed_all_ones, lemma_packed_bit, lemma_packed_update, lemma_popcount_disjoint,
    lemma_popcount_single_bit, packed, popcount,
};
use crate::coord::{hole_x, hole_y, lemma_hole_index_bijective, Coord};
use crate::moves::{two_apart, Move};
use crate::permutation::Permutation;
use crate::position::{lemma_can_move_by_holes, lemma_move_holes, Position};
use crate::solver::{spec_movable, spec_moved, Direction};
use vstd::prelude::*;

verus! {

/// A peg: where it is, and whether it is still on the board. A peg that was
/// jumped over stays in its hole, invisible.
#[derive(Clone, Copy, PartialEq, Eq, Debug, Structural)]
pub struct Peg {
    pub coord: Coord,
    /// Is the peg still on the board?
    pub alive: bool,
}

/// Why a move cannot be performed.
#[derive(Clone, Copy, PartialEq, Eq, Debug, Structural)]
pub enum MoveError {
    /// Source and destination are not two apart in a row or a column.
    NotTwoApart,
    /// A forward move from a hole without a peg.
    NoPegInSource,
    /// A forward move into a hole with a peg.
    DestinationOccupied,
    /// A forward move over a hole without a peg.
    NoPegInMiddle,
    /// A backward move whose source holds a peg.
    NoHoleInSource,
    /// A backward move whose destination holds no peg.
    NoPegInDestination,
    /// A backward move over a hole with a peg.
    NoHoleInMiddle,
}

/// A forward move that was found possible, with the pegs that take part in
/// it. It holds of the arrangement that it was asked of, for as long as that
/// arrangement is not changed.
#[derive(PartialEq, Eq, Clone, Copy, Debug, Structural)]
pub struct MoveInfo {
    moved_idx: usize,
    eliminated_idx: usize,
    src: Coord,
    dst: Coord,
}

impl MoveInfo {
    /// The identity of the peg that jumps.
    pub closed spec fn spec_moved_idx(self) -> int {
        self.moved_idx as int
    }

    /// The identity of the peg that is jumped over.
    pub closed spec fn spec_eliminated_idx(self) -> int {
        self.eliminated_idx as int
    }

    /// The hole from which the peg jumps.
    pub closed spec fn spec_src(self) -> Coord {
        self.src
    }

    /// The hole into which the peg jumps.
    pub closed spec fn spec_dst(self) -> Coord {
        self.dst
    }

    /// The identity of the peg that jumps.
    pub fn moved_idx(self) -> (r: usize)
        ensures
            r == self.spec_moved_idx(),
    {
        self.moved_idx
    }

    /// The identity of the peg that is jumped over.
    pub fn eliminated_idx(self) -> (r: usize)
        ensures
            r == self.spec_eliminated_idx(),
    {
        self.eliminated_idx
    }

    /// The hole from which the peg jumps.
    pub fn src(self) -> (r: Coord)
        ensures
            r == self.spec_src(),
    {
        self.src
    }

    /// The hole into which the peg jumps.
    pub fn dst(self) -> (r: Coord)
        ensures
            r == self.spec_dst(),
    {
        self.dst
    }
}

/// 33 pegs, one in each hole, of which some are on the board.
#[derive(Copy, Clone, Debug, PartialEq)]
pub struct Arrangement {
    /// Current permutation of pegs on the board: `forward` maps the number
    /// of a hole to the identity of the peg in it.
    permutation: Permutation<33>,
    alive: [bool; 33],
}

/// What an arrangement is: for each hole the identity of the peg in it, and
/// for each peg whether it is on the board.
pub type Pegs = (Seq<int>, Seq<bool>);

/// Every hole holds a peg with an identity below 33, and no two holes hold
/// the same peg.
pub open spec fn pegs_wf(pegs: Pegs) -> bool {
    &&& pegs.0.len() == 33
    &&& pegs.1.len() == 33
    &&& forall|h: int| 0 <= h < 33 ==> 0 <= #[trigger] pegs.0[h] < 33
    &&& forall|g: int, h: int| 0 <= g < h < 33 ==> #[trigger] pegs.0[g] != #[trigger] pegs.0[h]
}

/// For each hole, whether the peg in it is on the board.
pub open spec fn pegs_occupancy(pegs: Pegs) -> Seq<bool> {
    Seq::new(33, |h: int| pegs.1[pegs.0[h]])
}

/// The position that the pegs on the board form.
pub open spec fn pegs_position(pegs: Pegs) -> Position {
    Position(packed(pegs_occupancy(pegs)))
}

/// Whether the hole holds a peg that is on the board.
pub open spec fn pegs_occupied(pegs: Pegs, coord: Coord) -> bool {
    pegs.1[pegs.0[coord.spec_hole_idx()]]
}

/// Whether the move from `src` to `dst` can be performed, and if not, why.
pub open spec fn pegs_check_move(pegs: Pegs, src: Coord, dst: Coord, dir: Direction) -> Result<
    (),
    MoveError,
> {
    let mid = Move::jump(src, dst).spec_middle();
    if !two_apart(src@.0, src@.1, dst@.0, dst@.1) {
        Err(MoveError::NotTwoApart)
    } else {
        match dir {
            Direction::Forward => if !pegs_occupied(pegs, src) {
                Err(MoveError::NoPegInSource)
            } else if pegs_occupied(pegs, dst) {
                Err(MoveError::DestinationOccupied)
            } else if !pegs_occupied(pegs, mid) {
                Err(MoveError::NoPegInMiddle)
            } else {
                Ok(())
            },
            Direction::Backward => if pegs_occupied(pegs, src) {
                Err(MoveError::NoHoleInSource)
            } else if !pegs_occupied(pegs, dst) {
                Err(MoveError::NoPegInDestination)
            } else if pegs_occupied(pegs, mid) {
                Err(MoveError::NoHoleInMiddle)
            } else {
                Ok(())
            },
        }
    }
}

/// The pegs after the peg in `coord` has left the board or come back.
pub open spec fn pegs_toggled(pegs: Pegs, coord: Coord) -> Pegs {
    let peg = pegs.0[coord.spec_hole_idx()];
    (pegs.0, pegs.1.update(peg, !pegs.1[peg]))
}

/// The pegs after a move between `src` and `dst`, in either direction: the
/// pegs in the two holes have swapped their holes, and the peg in the hole
/// between them has left the board or come back.
pub open spec fn pegs_moved(pegs: Pegs, src: Coord, dst: Coord) -> Pegs {
    let s = src.spec_hole_idx();
    let d = dst.spec_hole_idx();
    let swapped = (pegs.0.update(s, pegs.0[d]).update(d, pegs.0[s]), pegs.1);
    pegs_toggled(swapped, Move::jump(src, dst).spec_middle())
}

/// As many holes hold a peg that is on the board as there are pegs on the
/// board.
pub open spec fn pegs_counted(pegs: Pegs) -> bool {
    true_count(pegs_occupancy(pegs)) == true_count(pegs.1)
}

/// Changing one flag changes the count of the true flags by what the flag
/// gains or loses.
pub proof fn lemma_true_count_update(flags: Seq<bool>, i: int, value: bool)
    requires
        0 <= i < flags.len(),
    ensures
        true_count(flags.update(i, value)) + (if flags[i] {
            1int
        } else {
            0int
        }) == true_count(flags) + (if value {
            1int
        } else {
            0int
        }),
    decreases flags.len(),
{
    let front = flags.drop_last();
    let changed = flags.update(i, value);
    if i == flags.len() - 1 {
        assert(changed.drop_last() =~= front);
    } else {
        assert(changed.drop_last() =~= front.update(i, value));
        lemma_true_count_update(front, i, value);
    }
}

/// A packed word has as many one bits as flags are true.
pub proof fn lemma_packed_count(holes: Seq<bool>)
    requires
        holes.len() <= 64,
    ensures
        popcount(packed(holes)) == true_count(holes),
    decreases holes.len(),
{
    if holes.len() > 0 {
        let front = holes.drop_last();
        let k = (holes.len() - 1) as u64;
        lemma_packed_count(front);
        lemma_packed_bit(front, k);
        if holes.last() {
            lemma_popcount_single_bit(k);
            lemma_popcount_disjoint(packed(front), 1u64 << k);
        }
    }
}

/// The number of pegs on the board is the number of pegs of the position.
pub proof fn lemma_position_count(pegs: Pegs)
    requires
        pegs_counted(pegs),
    ensures
        pegs_position(pegs).spec_count() == true_count(pegs.1),
{
    lemma_packed_count(pegs_occupancy(pegs));
}

/// Toggling a hole and moving a peg keep the pegs counted rightly.
pub proof fn lemma_counted_kept(pegs: Pegs, src: Coord, dst: Coord)
    requires
        pegs_wf(pegs),
        pegs_counted(pegs),
        src.valid(),
        dst.valid(),
    ensures
        pegs_counted(pegs_toggled(pegs, src)),
        two_apart(src@.0, src@.1, dst@.0, dst@.1) ==> pegs_counted(pegs_moved(pegs, src, dst)),
{
    lemma_hole_index_bijective(src, src);
    lemma_hole_index_bijective(dst, dst);
    lemma_toggle_counted(pegs, src);
    if two_apart(src@.0, src@.1, dst@.0, dst@.1) {
        let s = src.spec_hole_idx();
        let d = dst.spec_hole_idx();
        let mid = Move::jump(src, dst).spec_middle();
        Move::lemma_jump_valid(src, dst);
        lemma_move_holes(Move::jump(src, dst));
        let swapped = (pegs.0.update(s, pegs.0[d]).update(d, pegs.0[s]), pegs.1);
        let before = pegs_occupancy(pegs);
        let half = before.update(s, before[d]);
        assert(pegs_occupancy(swapped) =~= half.update(d, before[s]));
        lemma_true_count_update(before, s, before[d]);
        lemma_true_count_update(half, d, before[s]);
        assert(pegs_wf(swapped));
        lemma_toggle_counted(swapped, mid);
    }
}

proof fn lemma_toggle_counted(pegs: Pegs, coord: Coord)
    requires
        pegs_wf(pegs),
        pegs_counted(pegs),
        coord.valid(),
    ensures
        pegs_counted(pegs_toggled(pegs, coord)),
{
    let h = coord.spec_hole_idx();
    lemma_hole_index_bijective(coord, coord);
    let peg = pegs.0[h];
    let before = pegs_occupancy(pegs);
    assert(pegs_occupancy(pegs_toggled(pegs, coord)) =~= before.update(h, !before[h]));
    lemma_true_count_update(before, h, !before[h]);
    lemma_true_count_update(pegs.1, peg, !pegs.1[peg]);
}

/// The position of some pegs has a peg exactly in the holes whose peg is on
/// the board.
pub proof fn lemma_position_by_holes(pegs: Pegs, coord: Coord)
    requires
        coord.valid(),
    ensures
        pegs_position(pegs).spec_is_occupied(coord) == pegs_occupied(pegs, coord),
        pegs_position(pegs).wf(),
{
    lemma_hole_index_bijective(coord, coord);
    lemma_packed_bit(pegs_occupancy(pegs), coord.spec_hole_idx() as u64);
    assert((1u64 << 33) == 0x2_0000_0000) by (bit_vector);
}

/// A move can be performed on the pegs exactly if its ends are two apart and
/// it is possible in the position of the pegs.
pub proof fn lemma_check_move_by_position(pegs: Pegs, src: Coord, dst: Coord, dir: Direction)
    requires
        src.valid(),
        dst.valid(),
    ensures
        pegs_check_move(pegs, src, dst, dir) is Ok <==> two_apart(
            src@.0,
            src@.1,
            dst@.0,
            dst@.1,
        ) && spec_movable(pegs_position(pegs), Move::jump(src, dst), dir),
{
    if two_apart(src@.0, src@.1, dst@.0, dst@.1) {
        let mv = Move::jump(src, dst);
        Move::lemma_jump_valid(src, dst);
        lemma_position_by_holes(pegs, src);
        lemma_position_by_holes(pegs, dst);
        lemma_position_by_holes(pegs, mv.spec_middle());
        lemma_can_move_by_holes(pegs_position(pegs), mv);
    }
}

/// Toggling a hole flips its bit in the position.
pub proof fn lemma_toggled_position(pegs: Pegs, coord: Coord)
    requires
        pegs_wf(pegs),
        coord.valid(),
    ensures
        pegs_wf(pegs_toggled(pegs, coord)),
        pegs_position(pegs_toggled(pegs, coord)) == Position(
            pegs_position(pegs).0 ^ coord.spec_bitmask(),
        ),
        pegs_toggled(pegs_toggled(pegs, coord), coord) == pegs,
{
    let h = coord.spec_hole_idx();
    lemma_hole_index_bijective(coord, coord);
    let before = pegs_occupancy(pegs);
    let after = pegs_toggled(pegs, coord);
    let was = before[h];
    assert(pegs_occupancy(after) =~= before.update(h, !was));
    lemma_packed_update(before, h, !was);
    lemma_packed_bit(before, h as u64);
    lemma_toggle(packed(before), h as u64);
    let twice = pegs_toggled(after, coord);
    assert(twice.1 =~= pegs.1);
}

/// What a move does to the pegs it does to their position: a move that can
/// be performed makes the jump from `src` to `dst` in the position, or takes
/// it back. Performing it again in the opposite direction is possible and
/// gives the pegs back.
pub proof fn lemma_moved_position(pegs: Pegs, src: Coord, dst: Coord, dir: Direction)
    requires
        pegs_wf(pegs),
        src.valid(),
        dst.valid(),
        pegs_check_move(pegs, src, dst, dir) is Ok,
    ensures
        pegs_wf(pegs_moved(pegs, src, dst)),
        spec_movable(pegs_position(pegs), Move::jump(src, dst), dir),
        pegs_position(pegs_moved(pegs, src, dst)) == spec_moved(
            pegs_position(pegs),
            Move::jump(src, dst),
            dir,
        ),
        pegs_check_move(pegs_moved(pegs, src, dst), src, dst, dir.opposite()) is Ok,
        pegs_moved(pegs_moved(pegs, src, dst), src, dst) == pegs,
{
    let mv = Move::jump(src, dst);
    Move::lemma_jump_valid(src, dst);
    lemma_move_holes(mv);
    let s = src.spec_hole_idx();
    let d = dst.spec_hole_idx();
    let m = mv.spec_middle().spec_hole_idx();
    let after = pegs_moved(pegs, src, dst);
    let old_occ = pegs_occupancy(pegs);
    let forward = dir == Direction::Forward;
    let step1 = old_occ.update(s, !forward);
    let step2 = step1.update(m, !forward);
    let step3 = step2.update(d, forward);
    assert(pegs_occupancy(after) =~= step3);
    lemma_packed_update(old_occ, s, !forward);
    lemma_packed_update(step1, m, !forward);
    lemma_packed_update(step2, d, forward);
    lemma_position_by_holes(pegs, src);
    lemma_position_by_holes(pegs, dst);
    lemma_position_by_holes(pegs, mv.spec_middle());
    lemma_can_move_by_holes(pegs_position(pegs), mv);
    lemma_three_updates(pegs_position(pegs).0, s as u64, m as u64, d as u64);
    let twice = pegs_moved(after, src, dst);
    assert(twice.0 =~= pegs.0);
    assert(twice.1 =~= pegs.1);
}

/// If src and dst are exactly 2 apart in an axis aligned direction, get the
/// coordinate of the hole between them.
pub fn get_move_middle(src: Coord, dst: Coord) -> (r: Option<Coord>)
    ensures
        r == if two_apart(src@.0, src@.1, dst@.0, dst@.1) {
            Some(Move::jump(src, dst).spec_middle())
        } else {
            None
        },
        r matches Some(mid) ==> mid.valid(),
{
    match Move::from_coords(src, dst) {
        Some(mv) => Some(mv.middle()),
        None => None,
    }
}

impl View for Arrangement {
    type V = Pegs;

    closed spec fn view(&self) -> Pegs {
        (Seq::new(33, |h: int| self.permutation.spec_forward()[h] as int), self.alive@)
    }
}

impl Arrangement {
    /// The number of the hole in which the peg with the given identity sits.
    pub closed spec fn spec_hole_of(self, peg: int) -> int {
        self.permutation.spec_backward()[peg] as int
    }

    /// Every arrangement that a program holds is well-formed.
    #[verifier::type_invariant]
    pub open spec fn sound_invariant(self) -> bool {
        self.wf()
    }

    /// Every hole holds one peg, and every peg sits in one hole; and as many
    /// holes hold a peg that is on the board as there are pegs on the board.
    pub open spec fn wf(self) -> bool {
        &&& pegs_wf(self@)
        &&& pegs_counted(self@)
        &&& forall|h: int| 0 <= h < 33 ==> self.spec_hole_of(#[trigger] self@.0[h]) == h
        &&& forall|p: int|
            0 <= p < 33 ==> 0 <= #[trigger] self.spec_hole_of(p) < 33 && self@.0[self.spec_hole_of(
                p,
            )] == p
    }

    /// The position that the pegs on the board form.
    pub open spec fn spec_position(self) -> Position {
        pegs_position(self@)
    }

    /// Whether the peg in the hole is on the board.
    pub open spec fn spec_is_occupied(self, coord: Coord) -> bool {
        pegs_occupied(self@, coord)
    }

    /// An arrangement over a well-formed permutation is well-formed if its
    /// pegs are counted rightly.
    proof fn lemma_wf(self)
        requires
            self.permutation.wf(),
            pegs_counted(self@),
        ensures
            self.wf(),
    {
        assert forall|h: int| 0 <= h < 33 implies 0 <= #[trigger] self@.0[h] < 33 by {
            assert(self.permutation.spec_forward()[h] < 33);
        }
        assert forall|g: int, h: int| 0 <= g < h < 33 implies #[trigger] self@.0[g]
            != #[trigger] self@.0[h] by {
            assert(self.permutation.spec_forward()[g] < 33);
            assert(self.permutation.spec_forward()[h] < 33);
        }
        assert forall|h: int| 0 <= h < 33 implies self.spec_hole_of(#[trigger] self@.0[h]) == h by {
            assert(self.permutation.spec_forward()[h] < 33);
        }
        assert forall|p: int| 0 <= p < 33 implies 0 <= #[trigger] self.spec_hole_of(p) < 33
            && self@.0[self.spec_hole_of(p)] == p by {
            assert(self.permutation.spec_backward()[p] < 33);
        }
    }

    /// The arrangement of the start position: every peg sits in the hole
    /// with its own number, and all are on the board but the one in the
    /// centre.
    pub fn new() -> (r: Arrangement)
        ensures
            r.wf(),
            r@ == (Seq::new(33, |h: int| h), Seq::new(33, |p: int| p != 16)),
            r.spec_position() == Position::spec_default_start(),
    {
        let mut alive = [true;33];
        alive[16] = false;
        let permutation = Permutation::new();

        proof {
            let r = Arrangement { permutation, alive };
            use_type_invariant(&permutation);
            assert(r@.0 =~= Seq::new(33, |h: int| h));
            assert(r@.1 =~= Seq::new(33, |p: int| p != 16));
            assert(pegs_occupancy(r@) =~= r@.1);
            r.lemma_wf();
            let full = Seq::new(33, |i: int| true);
            assert(pegs_occupancy(r@) =~= full.update(16, false));
            lemma_packed_all_ones(33);
            lemma_packed_update(full, 16, false);
            assert((((1u64 << 33) - 1) as u64) & !(1u64 << 16) == 0x1_fffe_ffff) by (bit_vector);
        }
        Arrangement { permutation, alive }
    }

    /// The pegs by their identities: where each one is and whether it is on
    /// the board.
    pub fn pegs(&self) -> (r: [Peg; 33])
        ensures
            forall|p: int|
                0 <= p < 33 ==> (#[trigger] r@[p]).alive == self@.1[p] && r@[p].coord == Coord::at(
                    hole_x(self.spec_hole_of(p)),
                    hole_y(self.spec_hole_of(p)),
                ),
    {
        let coords = Coord::all();
        let mut out = [Peg { coord: Coord::center(), alive: false };33];
        let mut id: usize = 0;
        while id < 33
            invariant
                0 <= id <= 33,
                coords@.len() == 33,
                forall|i: int|
                    0 <= i < 33 ==> (#[trigger] coords@[i]) == Coord::at(hole_x(i), hole_y(i)),
                forall|p: int|
                    0 <= p < id ==> (#[trigger] out@[p]).alive == self@.1[p] && out@[p].coord
                        == Coord::at(hole_x(self.spec_hole_of(p)), hole_y(self.spec_hole_of(p))),
            decreases 33 - id,
        {
            let hole_idx = self.permutation.backward(id as u8) as usize;
            out[id] = Peg { coord: coords[hole_idx], alive: self.alive[id] };
            id += 1;
        }
        out
    }

    /// Perform a move from the given source to the destination coordinate.
    ///
    /// This method works for both forwards and backwards moves. A forward
    /// move does to the position what the jump from `src` to `dst` does; a
    /// backward move takes the jump from `src` to `dst` back, so that the
    /// peg travels from `dst` to `src`. Either way the peg that travels
    /// keeps its identity, and the peg in the middle leaves the board or
    /// comes back to it. A move that cannot be made changes nothing.
    pub fn perform_move(&mut self, src: Coord, dst: Coord, dir: Direction) -> (r: Result<
        (),
        MoveError,
    >)
        ensures
            r == pegs_check_move(old(self)@, src, dst, dir),
            r is Err ==> *final(self) == *old(self),
            r is Ok ==> final(self)@ == pegs_moved(old(self)@, src, dst),
            final(self).wf(),
    {
        proof {
            use_type_invariant(&src);
            use_type_invariant(&dst);
            use_type_invariant(&*self);
            use_type_invariant(&self.permutation);
        }
        let middle = match get_move_middle(src, dst) {
            Some(middle) => middle,
            None => {
                return Err(MoveError::NotTwoApart);
            },
        };
        proof {
            Move::lemma_jump_valid(src, dst);
            lemma_move_holes(Move::jump(src, dst));
        }

        let src_hole_idx = src.hole_idx();
        let dst_hole_idx = dst.hole_idx();
        let src_peg_id = self.permutation.forward(src_hole_idx) as usize;
        let dst_peg_id = self.permutation.forward(dst_hole_idx) as usize;
        let middle_peg_id = self.permutation.forward(middle.hole_idx()) as usize;
        match dir {
            Direction::Forward => {
                if !self.alive[src_peg_id] {
                    return Err(MoveError::NoPegInSource);
                } else if self.alive[dst_peg_id] {
                    return Err(MoveError::DestinationOccupied);
                } else if !self.alive[middle_peg_id] {
                    return Err(MoveError::NoPegInMiddle);
                }
            },
            Direction::Backward => {
                if self.alive[src_peg_id] {
                    return Err(MoveError::NoHoleInSource);
                } else if !self.alive[dst_peg_id] {
                    return Err(MoveError::NoPegInDestination);
                } else if self.alive[middle_peg_id] {
                    return Err(MoveError::NoHoleInMiddle);
                }
            },
        }

        // The peg from the source position moves to the hole in the
        // destination position. Since an arrangement has an invisible peg in
        // every empty hole, that invisible peg moves from the destination to
        // the source: the two pegs swap their holes.
        let mut permutation = self.permutation;
        permutation.swap(src_hole_idx, dst_hole_idx);

        // Toggle the peg in the middle position
        let mut alive = self.alive;
        let was = alive[middle_peg_id];
        alive[middle_peg_id] = !was;

        proof {
            let s = src.spec_hole_idx();
            let d = dst.spec_hole_idx();
            let after = Arrangement { permutation, alive };
            use_type_invariant(&permutation);
            assert(after@.0 =~= old(self)@.0.update(s, old(self)@.0[d]).update(d, old(self)@.0[s]));
            assert(after@.1 =~= pegs_moved(old(self)@, src, dst).1);
            assert(after@ == pegs_moved(old(self)@, src, dst));
            lemma_counted_kept(old(self)@, src, dst);
            after.lemma_wf();
        }
        *self = Arrangement { permutation, alive };

        Ok(())
    }

    /// The identity of the peg in the hole, if that peg is on the board.
    pub fn lookup(&self, coord: Coord) -> (r: Option<usize>)
        ensures
            r == if self.spec_is_occupied(coord) {
                Some(self@.0[coord.spec_hole_idx()] as usize)
            } else {
                None
            },
            r matches Some(peg) ==> peg < 33,
    {
        proof {
            use_type_invariant(&coord);
            use_type_invariant(self);
            use_type_invariant(&self.permutation);
            lemma_hole_index_bijective(coord, coord);
        }
        let peg_id = self.permutation.forward(coord.hole_idx()) as usize;
        if self.alive[peg_id] {
            Some(peg_id)
        } else {
            None
        }
    }

    /// Whether the forward move from `src` to `dst` can be performed: if so,
    /// the pegs that take part in it, and the two holes. The arrangement
    /// stays as it is.
    pub fn check_move(&self, src: Coord, dst: Coord) -> (r: Option<MoveInfo>)
        ensures
            r is Some <==> pegs_check_move(self@, src, dst, Direction::Forward) is Ok,
            r matches Some(info) ==> {
                &&& info.spec_src() == src
                &&& info.spec_dst() == dst
                &&& info.spec_moved_idx() == self@.0[src.spec_hole_idx()]
                &&& info.spec_eliminated_idx() == self@.0[Move::jump(
                    src,
                    dst,
                ).spec_middle().spec_hole_idx()]
            },
    {
        proof {
            use_type_invariant(&src);
            use_type_invariant(&dst);
            use_type_invariant(self);
            lemma_hole_index_bijective(src, dst);
        }
        let mid = match get_move_middle(src, dst) {
            Some(mid) => mid,
            None => {
                return None;
            },
        };
        proof {
            lemma_hole_index_bijective(mid, mid);
        }
        let moved_idx = match self.lookup(src) {
            Some(peg) => peg,
            None => {
                return None;
            },
        };
        if self.lookup(dst).is_some() {
            return None;
        }
        match self.lookup(mid) {
            Some(eliminated_idx) => Some(MoveInfo { moved_idx, eliminated_idx, src, dst }),
            None => None,
        }
    }

    /// The number of pegs on the board.
    pub fn nr_pegs(&self) -> (r: usize)
        ensures
            r == true_count(self@.1),
            r == self.spec_position().spec_count(),
            r <= 33,
    {
        proof {
            use_type_invariant(self);
            lemma_position_count(self@);
        }
        let mut count: usize = 0;
        let mut i: usize = 0;
        while i < 33
            invariant
                0 <= i <= 33,
                count <= i,
                self.alive@.len() == 33,
                count == true_count(self.alive@.take(i as int)),
            decreases 33 - i,
        {
            assert(self.alive@.take(i + 1).drop_last() =~= self.alive@.take(i as int));
            if self.alive[i] {
                count += 1;
            }
            i += 1;
        }
        assert(self.alive@.take(33) =~= self.alive@);
        count
    }

    /// Takes the peg in the hole off the board, or puts it back.
    pub fn toggle_hole(&mut self, coord: Coord)
        ensures
            final(self)@ == pegs_toggled(old(self)@, coord),
            final(self).wf(),
            forall|p: int| 0 <= p < 33 ==> #[trigger] final(self).spec_hole_of(p) == old(self).spec_hole_of(p),
    {
        proof {
            use_type_invariant(&coord);
            use_type_invariant(&*self);
            use_type_invariant(&self.permutation);
        }
        let peg_id = self.permutation.forward(coord.hole_idx());
        let mut alive = self.alive;
        let was = alive[peg_id as usize];
        alive[peg_id as usize] = !was;
        proof {
            let after = Arrangement { permutation: self.permutation, alive };
            assert(after@.1 =~= pegs_toggled(old(self)@, coord).1);
            assert(after@.0 =~= old(self)@.0);
            assert(after@ == pegs_toggled(old(self)@, coord));
            lemma_counted_kept(old(self)@, coord, coord);
            after.lemma_wf();
        }
        *self = Arrangement { permutation: self.permutation, alive };
    }

    /// The position that the pegs on the board form.
    pub fn as_position(&self) -> (r: Position)
        ensures
            r == self.spec_position(),
            r.wf(),
    {
        proof {
            use_type_invariant(self);
            use_type_invariant(&self.permutation);
        }
        let mut out: u64 = 0;
        let mut h: u8 = 0;
        while h < 33
            invariant
                0 <= h <= 33,
                self.wf(),
                self.permutation.wf(),
                out == packed(pegs_occupancy(self@).take(h as int)),
            decreases 33 - h,
        {
            let peg_id = self.permutation.forward(h);
            proof {
                assert(pegs_occupancy(self@).take(h + 1).drop_last() =~= pegs_occupancy(self@).take(
                    h as int,
                ));
            }
            if self.alive[peg_id as usize] {
                out = out | (1u64 << h);
            }
            h += 1;
        }
        proof {
            assert(pegs_occupancy(self@).take(33) =~= pegs_occupancy(self@));
            lemma_packed_bit(pegs_occupancy(self@), 0);
            assert((1u64 << 33) == 0x2_0000_0000) by (bit_vector);
        }
        Position(out)
    }

    /// Whether the peg in the hole is on the board.
    pub fn is_occupied(&self, coord: Coord) -> (r: bool)
        ensures
            r == self.spec_is_occupied(coord),
    {
        proof {
            use_type_invariant(&coord);
            use_type_invariant(&self.permutation);
            lemma_hole_index_bijective(coord, coord);
        }
        let peg_id = self.permutation.forward(coord.hole_idx());
        self.alive[peg_id as usize]
    }
}

/// How many of the flags are true.
pub open spec fn true_count(flags: Seq<bool>) -> nat
    decreases flags.len(),
{
    if flags.len() == 0 {
        0
    } else if flags.last() {
        true_count(flags.drop_last()) + 1
    } else {
        true_count(flags.drop_last())
    }
}

proof fn lemma_toggle(word: u64, h: u64)
    by (bit_vector)
    requires
        h < 33,
    ensures
        word & (1u64 << h) != 0 ==> word & !(1u64 << h) == word ^ (1u64 << h),
        word & (1u64 << h) == 0 ==> word | (1u64 << h) == word ^ (1u64 << h),
{
}

proof fn lemma_three_updates(word: u64, s: u64, m: u64, d: u64)
    by (bit_vector)
    requires
        s < 33,
        m < 33,
        d < 33,
        s != m,
        s != d,
        m != d,
    ensures
        ((word & !(1u64 << s)) & !(1u64 << m)) | (1u64 << d) == (word & !((1u64 << s) | (1u64
            << m))) | (1u64 << d),
        ((word | (1u64 << s)) | (1u64 << m)) & !(1u64 << d) == (word | ((1u64 << s) | (1u64 << m)))
            & !(1u64 << d),
{
}

} // verus!
