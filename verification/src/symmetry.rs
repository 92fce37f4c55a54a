//! The eight symmetries of the board applied to a position, and the normal
//! form that they give.

use crate::bits::{bit_value, bits_set, lemma_popcount_by_bits};
use crate::coord::{hole_index, hole_x, hole_y, lemma_hole_index_bijective, on_board, row_start, Coord};
use crate::position::{Position, BOARD_MASK};
use vstd::prelude::*;

verus! {

/// The number of the hole whose content a quarter turn carries to hole `i`.
pub open spec fn rotate_source(i: int) -> int {
    hole_index(-hole_y(i), hole_x(i))
}

/// The number of the hole whose content the flip carries to hole `i`: the
/// hole in the same column and the opposite row.
pub open spec fn mirror_source(i: int) -> int {
    hole_index(hole_x(i), -hole_y(i))
}

/// The word whose bit `i`, for every `i` below `k`, is bit `rotate_source(i)`
/// of `p`, and whose other bits are zero.
pub open spec fn turned(p: u64, k: u64) -> u64
    decreases k,
{
    if k == 0 {
        0
    } else {
        turned(p, (k - 1) as u64) | (((p >> (rotate_source((k - 1) as int) as u64)) & 1) << ((k
            - 1) as u64))
    }
}

/// The word whose bit `i`, for every `i` below `k`, is bit `mirror_source(i)`
/// of `p`, and whose other bits are zero.
pub open spec fn flipped(p: u64, k: u64) -> u64
    decreases k,
{
    if k == 0 {
        0
    } else {
        flipped(p, (k - 1) as u64) | (((p >> (mirror_source((k - 1) as int) as u64)) & 1) << ((k
            - 1) as u64))
    }
}

/// The smaller of two words.
pub open spec fn smaller(a: u64, b: u64) -> u64 {
    if a <= b {
        a
    } else {
        b
    }
}

impl Position {
    /// The position after a quarter turn of the board: hole `i` holds what
    /// hole `rotate_source(i)` held.
    pub open spec fn spec_rotate(self) -> Position {
        Position(turned(self.0 & BOARD_MASK, 33))
    }

    /// The position flipped top to bottom: hole `i` holds what hole
    /// `mirror_source(i)` held.
    pub open spec fn spec_mirror(self) -> Position {
        Position(flipped(self.0 & BOARD_MASK, 33))
    }

    /// The least, as a number, of the position, its three turns and the
    /// flips of these four.
    pub open spec fn spec_normalize(self) -> Position {
        let r0 = self;
        let r1 = r0.spec_rotate();
        let r2 = r1.spec_rotate();
        let r3 = r2.spec_rotate();
        Position(
            smaller(
                smaller(smaller(r0.0, r1.0), smaller(r2.0, r3.0)),
                smaller(
                    smaller(r0.spec_mirror().0, r1.spec_mirror().0),
                    smaller(r2.spec_mirror().0, r3.spec_mirror().0),
                ),
            ),
        )
    }

    /// The position after a quarter turn of the board.
    pub fn rotate(&self) -> (r: Position)
        ensures
            r == self.spec_rotate(),
    {
        let pos = self.0 & BOARD_MASK;

        let mut out: u64 = 0;
        let mut out_mask: u64 = 1;
        let ghost mut k: int = 0;

        proof {
            assert(1u64 << 0u64 == 1) by (bit_vector);
        }

        let mut x: u8 = 7;
        while x > 0
            invariant
                0 <= x <= 7,
                k == row_start(4 - x),
                0 <= k <= 33,
                out == turned(pos, k as u64),
                out < (1u64 << (k as u64)),
                out_mask == 1u64 << (k as u64),
            decreases x,
        {
            x -= 1;
            let mut bit_index: u8;
            let start_y: u8;
            let count: u8;
            if 2 <= x && x <= 4 {
                bit_index = x - 2;
                start_y = 0;
                count = 7;
            } else {
                bit_index = 6 + x;
                start_y = 2;
                count = 3;
            }
            let mut y: u8 = start_y;
            while y < start_y + count
                invariant
                    0 <= x <= 6,
                    start_y <= y <= start_y + count,
                    (start_y == 0 && count == 7 && 2 <= x <= 4) || (start_y == 2 && count == 3 && !(2
                        <= x <= 4)),
                    k == row_start(3 - x) + (y - start_y),
                    0 <= k <= 33,
                    y < start_y + count ==> bit_index == hole_index(x - 3, y - 3),
                    bit_index <= 35,
                    out == turned(pos, k as u64),
                    out < (1u64 << (k as u64)),
                    out_mask == 1u64 << (k as u64),
                decreases start_y + count - y,
            {
                proof {
                    assert(k == hole_index(y - 3, 3 - x));
                    assert(rotate_source(k) == bit_index);
                    lemma_gather_step(pos, out, k as u64, bit_index as u64);
                }
                let bitmask = 1u64 << bit_index;
                if pos & bitmask > 0 {
                    out += out_mask;
                }
                out_mask *= 2;
                bit_index += match y {
                    1 | 4 => 5,
                    2 | 3 => 7,
                    _ => 3,
                };
                y += 1;
                proof {
                    k = k + 1;
                }
            }
        }

        Position(out)
    }

    /// The normal form of the position: the least of its eight images under
    /// the symmetries of the board.
    pub fn normalize(&self) -> (r: Position)
        ensures
            r == self.spec_normalize(),
    {
        let mut candidates: [Position; 8] = [*self;8];

        let mut i: usize = 1;
        while i < 4
            invariant
                1 <= i <= 4,
                candidates@[0] == *self,
                i > 1 ==> candidates@[1] == candidates@[0].spec_rotate(),
                i > 2 ==> candidates@[2] == candidates@[1].spec_rotate(),
                i > 3 ==> candidates@[3] == candidates@[2].spec_rotate(),
            decreases 4 - i,
        {
            let turned = candidates[i - 1].rotate();
            candidates[i] = turned;
            i += 1;
        }
        let mut i: usize = 4;
        while i < 8
            invariant
                4 <= i <= 8,
                candidates@[0] == *self,
                candidates@[1] == candidates@[0].spec_rotate(),
                candidates@[2] == candidates@[1].spec_rotate(),
                candidates@[3] == candidates@[2].spec_rotate(),
                i > 4 ==> candidates@[4] == candidates@[0].spec_mirror(),
                i > 5 ==> candidates@[5] == candidates@[1].spec_mirror(),
                i > 6 ==> candidates@[6] == candidates@[2].spec_mirror(),
                i > 7 ==> candidates@[7] == candidates@[3].spec_mirror(),
            decreases 8 - i,
        {
            let flipped = candidates[i - 4].mirror();
            candidates[i] = flipped;
            i += 1;
        }

        let mut least: u64 = candidates[0].0;
        let mut i: usize = 1;
        while i < 8
            invariant
                1 <= i <= 8,
                forall|j: int| 0 <= j < i ==> least <= (#[trigger] candidates@[j]).0,
                exists|j: int| 0 <= j < i && least == (#[trigger] candidates@[j]).0,
            decreases 8 - i,
        {
            if candidates[i].0 < least {
                least = candidates[i].0;
            }
            i += 1;
        }
        Position(least)
    }

    /// The position flipped top to bottom.
    pub fn mirror(&self) -> (r: Position)
        ensures
            r == self.spec_mirror(),
    {
        let pos = self.0 & BOARD_MASK;

        let mut out: u64 = 0;
        let short_row_mask: u64 = 0b111;
        let long_row_mask: u64 = 0b1111111;

        out |= (pos & (short_row_mask << 0)) << 30;
        out |= (pos & (short_row_mask << 3)) << 24;
        out |= (pos & (long_row_mask << 6)) << 14;
        out |= (pos & (long_row_mask << 13)) << 0;
        out |= (pos & (long_row_mask << 20)) >> 14;
        out |= (pos & (short_row_mask << 27)) >> 24;
        out |= (pos & (short_row_mask << 30)) >> 30;

        proof {
            lemma_flip_rows(self.0, pos, out);
        }
        Position(out)
    }
}

proof fn lemma_dihedral(p: u64, r1: u64, r2: u64, r3: u64, m0: u64, m1: u64, m2: u64, m3: u64)
    by (bit_vector)
    requires
        p <= 0x1_ffff_ffff,
        r1 == turned(p & 0x1_ffff_ffff, 33),
        r2 == turned(r1 & 0x1_ffff_ffff, 33),
        r3 == turned(r2 & 0x1_ffff_ffff, 33),
        m0 == flipped(p & 0x1_ffff_ffff, 33),
        m1 == flipped(r1 & 0x1_ffff_ffff, 33),
        m2 == flipped(r2 & 0x1_ffff_ffff, 33),
        m3 == flipped(r3 & 0x1_ffff_ffff, 33),
    ensures
        r1 <= 0x1_ffff_ffff,
        m0 <= 0x1_ffff_ffff,
        turned(r3 & 0x1_ffff_ffff, 33) == p,
        flipped(m0 & 0x1_ffff_ffff, 33) == p,
        turned(m0 & 0x1_ffff_ffff, 33) == m3,
        turned(m3 & 0x1_ffff_ffff, 33) == m2,
        turned(m2 & 0x1_ffff_ffff, 33) == m1,
        turned(m1 & 0x1_ffff_ffff, 33) == m0,
        flipped(m1 & 0x1_ffff_ffff, 33) == r1,
        flipped(m2 & 0x1_ffff_ffff, 33) == r2,
        flipped(m3 & 0x1_ffff_ffff, 33) == r3,
{
}

/// Turning and flipping keep a position within the 33 holes.
pub proof fn lemma_symmetry_wf(p: Position)
    ensures
        p.spec_rotate().wf(),
        p.spec_mirror().wf(),
        p.wf() ==> p.spec_normalize().wf(),
{
    let w = p.0;
    let q = Position(w & BOARD_MASK);
    assert(w & 0x1_ffff_ffff <= 0x1_ffff_ffff && (w & 0x1_ffff_ffff) & 0x1_ffff_ffff == w
        & 0x1_ffff_ffff) by (bit_vector);
    lemma_orbit(q);
    let r1 = p.spec_rotate();
    let r2 = r1.spec_rotate();
    let r3 = r2.spec_rotate();
    lemma_orbit(r1);
    lemma_orbit(r2);
    lemma_orbit(r3);
}

/// What the symmetries do to each other on a well-formed position: four
/// quarter turns, or two flips, give the position back; and a flip followed
/// by a quarter turn is three quarter turns followed by a flip.
pub proof fn lemma_orbit(p: Position)
    requires
        p.wf(),
    ensures
        p.spec_rotate().wf(),
        p.spec_mirror().wf(),
        p.spec_rotate().spec_rotate().spec_rotate().spec_rotate() == p,
        p.spec_mirror().spec_mirror() == p,
        p.spec_mirror().spec_rotate() == p.spec_rotate().spec_rotate().spec_rotate().spec_mirror(),
        p.spec_rotate().spec_mirror().spec_rotate() == p.spec_mirror(),
        p.spec_rotate().spec_mirror().spec_mirror() == p.spec_rotate(),
{
    let r1 = p.spec_rotate();
    let r2 = r1.spec_rotate();
    let r3 = r2.spec_rotate();
    let m0 = p.spec_mirror();
    let m1 = r1.spec_mirror();
    let m2 = r2.spec_mirror();
    let m3 = r3.spec_mirror();
    lemma_dihedral(p.0, r1.0, r2.0, r3.0, m0.0, m1.0, m2.0, m3.0);
}

/// Flipping a well-formed position twice gives the position back.
pub proof fn lemma_mirror_involutive(p: Position)
    requires
        p.wf(),
    ensures
        p.spec_mirror().spec_mirror() == p,
{
    lemma_orbit(p);
}

/// Four quarter turns of a well-formed position give the position back.
pub proof fn lemma_rotate_four_times(p: Position)
    requires
        p.wf(),
    ensures
        p.spec_rotate().spec_rotate().spec_rotate().spec_rotate() == p,
{
    lemma_orbit(p);
}

/// A well-formed position, its quarter turn and its flip have the same
/// normal form.
pub proof fn lemma_normalize_symmetric(p: Position)
    requires
        p.wf(),
    ensures
        p.spec_rotate().spec_normalize() == p.spec_normalize(),
        p.spec_mirror().spec_normalize() == p.spec_normalize(),
{
    let r1 = p.spec_rotate();
    let r2 = r1.spec_rotate();
    let r3 = r2.spec_rotate();
    let m0 = p.spec_mirror();
    let m1 = r1.spec_mirror();
    let m2 = r2.spec_mirror();
    let m3 = r3.spec_mirror();
    lemma_dihedral(p.0, r1.0, r2.0, r3.0, m0.0, m1.0, m2.0, m3.0);
    assert(r3.spec_rotate() == p);
    assert(m0.spec_rotate() == m3);
    assert(m3.spec_rotate() == m2);
    assert(m2.spec_rotate() == m1);
    assert(m0.spec_mirror() == p);
    assert(m3.spec_mirror() == r3);
    assert(m2.spec_mirror() == r2);
    assert(m1.spec_mirror() == r1);
}

/// The normal form of a position is one of its eight images, and none of
/// them is smaller.
pub proof fn lemma_normalize_least(p: Position)
    ensures
        ({
            let n = p.spec_normalize();
            let r1 = p.spec_rotate();
            let r2 = r1.spec_rotate();
            let r3 = r2.spec_rotate();
            &&& n.0 <= p.0 && n.0 <= r1.0 && n.0 <= r2.0 && n.0 <= r3.0
            &&& n.0 <= p.spec_mirror().0 && n.0 <= r1.spec_mirror().0
            &&& n.0 <= r2.spec_mirror().0 && n.0 <= r3.spec_mirror().0
            &&& (n == p || n == r1 || n == r2 || n == r3 || n == p.spec_mirror() || n
                == r1.spec_mirror() || n == r2.spec_mirror() || n == r3.spec_mirror())
        }),
{
}

/// The symmetries move pegs and take none away: a well-formed position,
/// its quarter turn, its flip and its normal form have the same number of
/// pegs, and all of them are well-formed.
pub proof fn lemma_symmetry_keeps_count(p: Position)
    requires
        p.wf(),
    ensures
        p.spec_rotate().wf(),
        p.spec_mirror().wf(),
        p.spec_normalize().wf(),
        p.spec_rotate().spec_count() == p.spec_count(),
        p.spec_mirror().spec_count() == p.spec_count(),
        p.spec_normalize().spec_count() == p.spec_count(),
{
    let r1 = p.spec_rotate();
    let r2 = r1.spec_rotate();
    let r3 = r2.spec_rotate();
    lemma_orbit(p);
    lemma_orbit(r1);
    lemma_orbit(r2);
    lemma_orbit(r3);
    lemma_image_counts(p);
    lemma_image_counts(r1);
    lemma_image_counts(r2);
    lemma_image_counts(r3);
    lemma_normalize_least(p);
}

/// A quarter turn and a flip keep the number of pegs.
proof fn lemma_image_counts(p: Position)
    requires
        p.wf(),
    ensures
        p.spec_rotate().spec_count() == p.spec_count(),
        p.spec_mirror().spec_count() == p.spec_count(),
{
    let w = p.0;
    let t = turned(w & BOARD_MASK, 33);
    let f = flipped(w & BOARD_MASK, 33);
    lemma_turned_bit(w & BOARD_MASK, 33, 0);
    lemma_flipped_bit(w & BOARD_MASK, 33, 0);
    lemma_low_word(w);
    lemma_low_word(t);
    lemma_low_word(f);
    lemma_popcount_by_bits(w, 33);
    lemma_popcount_by_bits(t, 33);
    lemma_popcount_by_bits(f, 33);
    assert forall|k: int| 0 <= k < 33 implies #[trigger] bit_value(t, k) == bit_value(
        w,
        rotate_source(k),
    ) && bit_value(f, k) == bit_value(w, mirror_source(k)) by {
        reveal(bit_value);
        lemma_source_on_board(k);
        lemma_turned_bit(w & BOARD_MASK, 33, k as u64);
        lemma_flipped_bit(w & BOARD_MASK, 33, k as u64);
        lemma_bit_is_mask(t, 0, k as u64);
        lemma_bit_is_mask(f, 0, k as u64);
        lemma_bit_is_mask(w, w & BOARD_MASK, rotate_source(k) as u64);
        lemma_bit_is_mask(w, w & BOARD_MASK, mirror_source(k) as u64);
    }
    lemma_turn_table();
    lemma_flip_table();
    lemma_turn_sum(w, t);
    lemma_flip_sum(w, f);
}

/// Where each of the 33 lowest bits of `b` is the bit of `a` in the hole that
/// the quarter turn reads, both words have as many of these bits set.
proof fn lemma_turn_sum(a: u64, b: u64)
    requires
        bit_value(b, 0) == bit_value(a, 12),
        bit_value(b, 1) == bit_value(a, 19),
        bit_value(b, 2) == bit_value(a, 26),
        bit_value(b, 3) == bit_value(a, 11),
        bit_value(b, 4) == bit_value(a, 18),
        bit_value(b, 5) == bit_value(a, 25),
        bit_value(b, 6) == bit_value(a, 2),
        bit_value(b, 7) == bit_value(a, 5),
        bit_value(b, 8) == bit_value(a, 10),
        bit_value(b, 9) == bit_value(a, 17),
        bit_value(b, 10) == bit_value(a, 24),
        bit_value(b, 11) == bit_value(a, 29),
        bit_value(b, 12) == bit_value(a, 32),
        bit_value(b, 13) == bit_value(a, 1),
        bit_value(b, 14) == bit_value(a, 4),
        bit_value(b, 15) == bit_value(a, 9),
        bit_value(b, 16) == bit_value(a, 16),
        bit_value(b, 17) == bit_value(a, 23),
        bit_value(b, 18) == bit_value(a, 28),
        bit_value(b, 19) == bit_value(a, 31),
        bit_value(b, 20) == bit_value(a, 0),
        bit_value(b, 21) == bit_value(a, 3),
        bit_value(b, 22) == bit_value(a, 8),
        bit_value(b, 23) == bit_value(a, 15),
        bit_value(b, 24) == bit_value(a, 22),
        bit_value(b, 25) == bit_value(a, 27),
        bit_value(b, 26) == bit_value(a, 30),
        bit_value(b, 27) == bit_value(a, 7),
        bit_value(b, 28) == bit_value(a, 14),
        bit_value(b, 29) == bit_value(a, 21),
        bit_value(b, 30) == bit_value(a, 6),
        bit_value(b, 31) == bit_value(a, 13),
        bit_value(b, 32) == bit_value(a, 20),
    ensures
        bits_set(b, 33) == bits_set(a, 33),
{
    reveal_with_fuel(bits_set, 34);
}

/// The holes that the quarter turn reads, one by one.
proof fn lemma_turn_table()
    ensures
        rotate_source(0) == 12,
        rotate_source(1) == 19,
        rotate_source(2) == 26,
        rotate_source(3) == 11,
        rotate_source(4) == 18,
        rotate_source(5) == 25,
        rotate_source(6) == 2,
        rotate_source(7) == 5,
        rotate_source(8) == 10,
        rotate_source(9) == 17,
        rotate_source(10) == 24,
        rotate_source(11) == 29,
        rotate_source(12) == 32,
        rotate_source(13) == 1,
        rotate_source(14) == 4,
        rotate_source(15) == 9,
        rotate_source(16) == 16,
        rotate_source(17) == 23,
        rotate_source(18) == 28,
        rotate_source(19) == 31,
        rotate_source(20) == 0,
        rotate_source(21) == 3,
        rotate_source(22) == 8,
        rotate_source(23) == 15,
        rotate_source(24) == 22,
        rotate_source(25) == 27,
        rotate_source(26) == 30,
        rotate_source(27) == 7,
        rotate_source(28) == 14,
        rotate_source(29) == 21,
        rotate_source(30) == 6,
        rotate_source(31) == 13,
        rotate_source(32) == 20,
{
}

/// Where each of the 33 lowest bits of `b` is the bit of `a` in the hole that
/// the flip reads, both words have as many of these bits set.
proof fn lemma_flip_sum(a: u64, b: u64)
    requires
        bit_value(b, 0) == bit_value(a, 30),
        bit_value(b, 1) == bit_value(a, 31),
        bit_value(b, 2) == bit_value(a, 32),
        bit_value(b, 3) == bit_value(a, 27),
        bit_value(b, 4) == bit_value(a, 28),
        bit_value(b, 5) == bit_value(a, 29),
        bit_value(b, 6) == bit_value(a, 20),
        bit_value(b, 7) == bit_value(a, 21),
        bit_value(b, 8) == bit_value(a, 22),
        bit_value(b, 9) == bit_value(a, 23),
        bit_value(b, 10) == bit_value(a, 24),
        bit_value(b, 11) == bit_value(a, 25),
        bit_value(b, 12) == bit_value(a, 26),
        bit_value(b, 13) == bit_value(a, 13),
        bit_value(b, 14) == bit_value(a, 14),
        bit_value(b, 15) == bit_value(a, 15),
        bit_value(b, 16) == bit_value(a, 16),
        bit_value(b, 17) == bit_value(a, 17),
        bit_value(b, 18) == bit_value(a, 18),
        bit_value(b, 19) == bit_value(a, 19),
        bit_value(b, 20) == bit_value(a, 6),
        bit_value(b, 21) == bit_value(a, 7),
        bit_value(b, 22) == bit_value(a, 8),
        bit_value(b, 23) == bit_value(a, 9),
        bit_value(b, 24) == bit_value(a, 10),
        bit_value(b, 25) == bit_value(a, 11),
        bit_value(b, 26) == bit_value(a, 12),
        bit_value(b, 27) == bit_value(a, 3),
        bit_value(b, 28) == bit_value(a, 4),
        bit_value(b, 29) == bit_value(a, 5),
        bit_value(b, 30) == bit_value(a, 0),
        bit_value(b, 31) == bit_value(a, 1),
        bit_value(b, 32) == bit_value(a, 2),
    ensures
        bits_set(b, 33) == bits_set(a, 33),
{
    reveal_with_fuel(bits_set, 34);
}

/// The holes that the flip reads, one by one.
proof fn lemma_flip_table()
    ensures
        mirror_source(0) == 30,
        mirror_source(1) == 31,
        mirror_source(2) == 32,
        mirror_source(3) == 27,
        mirror_source(4) == 28,
        mirror_source(5) == 29,
        mirror_source(6) == 20,
        mirror_source(7) == 21,
        mirror_source(8) == 22,
        mirror_source(9) == 23,
        mirror_source(10) == 24,
        mirror_source(11) == 25,
        mirror_source(12) == 26,
        mirror_source(13) == 13,
        mirror_source(14) == 14,
        mirror_source(15) == 15,
        mirror_source(16) == 16,
        mirror_source(17) == 17,
        mirror_source(18) == 18,
        mirror_source(19) == 19,
        mirror_source(20) == 6,
        mirror_source(21) == 7,
        mirror_source(22) == 8,
        mirror_source(23) == 9,
        mirror_source(24) == 10,
        mirror_source(25) == 11,
        mirror_source(26) == 12,
        mirror_source(27) == 3,
        mirror_source(28) == 4,
        mirror_source(29) == 5,
        mirror_source(30) == 0,
        mirror_source(31) == 1,
        mirror_source(32) == 2,
{
}

proof fn lemma_low_word(x: u64)
    by (bit_vector)
    ensures
        x < (1u64 << 33) ==> x & (((1u64 << 33) - 1) as u64) == x,
        x <= 0x1_ffff_ffff <==> x < (1u64 << 33),
{
}

proof fn lemma_bit_of_or(a: u64, b: u64, j: u64, k: u64)
    by (bit_vector)
    requires
        j < 33,
        k < 64,
        b <= 1,
        a < (1u64 << j),
    ensures
        ((a | (b << j)) >> k) & 1 == (if k == j {
            b
        } else {
            (a >> k) & 1
        }),
        (a | (b << j)) < (1u64 << ((j + 1) as u64)),
{
}

proof fn lemma_bit_is_mask(p: u64, q: u64, s: u64)
    by (bit_vector)
    requires
        s < 33,
    ensures
        (p & (1u64 << s) != 0) <==> (p >> s) & 1 == 1,
        (p >> s) & 1 <= 1,
        q == p & 0x1_ffff_ffff ==> (q >> s) & 1 == (p >> s) & 1,
        0 < (1u64 << s),
        (0u64 >> q) & 1 == 0,
{
}

proof fn lemma_turned_bit(p: u64, n: u64, k: u64)
    requires
        n <= 33,
        k < 64,
    ensures
        turned(p, n) < (1u64 << n),
        (turned(p, n) >> k) & 1 == (if k < n {
            (p >> (rotate_source(k as int) as u64)) & 1
        } else {
            0
        }),
    decreases n,
{
    if n == 0 {
        lemma_bit_is_mask(p, k, 0);
    } else {
        let j = (n - 1) as u64;
        let s = rotate_source(j as int) as u64;
        lemma_source_on_board(j as int);
        lemma_turned_bit(p, j, k);
        lemma_bit_is_mask(p, p, s);
        lemma_bit_is_mask(p, p, j);
        lemma_bit_of_or(turned(p, j), (p >> s) & 1, j, k);
    }
}

proof fn lemma_flipped_bit(p: u64, n: u64, k: u64)
    requires
        n <= 33,
        k < 64,
    ensures
        flipped(p, n) < (1u64 << n),
        (flipped(p, n) >> k) & 1 == (if k < n {
            (p >> (mirror_source(k as int) as u64)) & 1
        } else {
            0
        }),
    decreases n,
{
    if n == 0 {
        lemma_bit_is_mask(p, k, 0);
    } else {
        let j = (n - 1) as u64;
        let s = mirror_source(j as int) as u64;
        lemma_source_on_board(j as int);
        lemma_flipped_bit(p, j, k);
        lemma_bit_is_mask(p, p, s);
        lemma_bit_is_mask(p, p, j);
        lemma_bit_of_or(flipped(p, j), (p >> s) & 1, j, k);
    }
}

/// The holes that the symmetries read are holes of the board.
pub proof fn lemma_source_on_board(i: int)
    requires
        0 <= i < 33,
    ensures
        0 <= rotate_source(i) < 33,
        0 <= mirror_source(i) < 33,
        on_board(hole_x(i), hole_y(i)),
{
}

/// What the symmetries mean on the board: after a quarter turn a hole holds
/// what the hole a quarter turn further held, and after the flip a hole holds
/// what the hole in the same column and the opposite row held.
pub proof fn lemma_symmetry_by_holes(p: Position, c: Coord)
    requires
        c.valid(),
    ensures
        Coord::at(-c@.1, c@.0).valid(),
        Coord::at(c@.0, -c@.1).valid(),
        p.spec_rotate().spec_is_occupied(c) == p.spec_is_occupied(Coord::at(-c@.1, c@.0)),
        p.spec_mirror().spec_is_occupied(c) == p.spec_is_occupied(Coord::at(c@.0, -c@.1)),
{
    let k = c.spec_hole_idx();
    let q = p.0 & BOARD_MASK;
    lemma_hole_index_bijective(c, c);
    Coord::lemma_at_view(hole_x(k), hole_y(k));
    Coord::lemma_at_view(-c@.1, c@.0);
    Coord::lemma_at_view(c@.0, -c@.1);
    lemma_source_on_board(k);
    let rs = rotate_source(k) as u64;
    let ms = mirror_source(k) as u64;
    lemma_turned_bit(q, 33, k as u64);
    lemma_flipped_bit(q, 33, k as u64);
    lemma_bit_is_mask(turned(q, 33), 0, k as u64);
    lemma_bit_is_mask(flipped(q, 33), 0, k as u64);
    lemma_bit_is_mask(p.0, q, rs);
    lemma_bit_is_mask(p.0, q, ms);
}

proof fn lemma_gather_step(pos: u64, out: u64, k: u64, s: u64)
    by (bit_vector)
    requires
        k < 33,
        s < 33,
        out < (1u64 << k),
    ensures
        pos & (1u64 << s) > 0 ==> out + (1u64 << k) == out | (((pos >> s) & 1) << k),
        !(pos & (1u64 << s) > 0) ==> out == out | (((pos >> s) & 1) << k),
        (out | (((pos >> s) & 1) << k)) < (1u64 << ((k + 1) as u64)),
        (1u64 << k) * 2 == 1u64 << ((k + 1) as u64),
        (1u64 << k) <= 0x1_0000_0000,
{
}

proof fn lemma_flip_rows(p: u64, pos: u64, out: u64)
    by (bit_vector)
    requires
        pos == p & 0x1_ffff_ffff,
        out == ((((((0 | ((pos & (0b111u64 << 0)) << 30)) | ((pos & (0b111u64 << 3)) << 24)) | ((pos
            & (0b1111111u64 << 6)) << 14)) | ((pos & (0b1111111u64 << 13)) << 0)) | ((pos & (
        0b1111111u64 << 20)) >> 14)) | ((pos & (0b111u64 << 27)) >> 24)) | ((pos & (0b111u64 << 30))
            >> 30),
    ensures
        out == flipped(pos, 33),
{
}

} // verus!
