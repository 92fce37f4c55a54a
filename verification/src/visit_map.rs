//! A dense set of positions: one bit for each of the `2^33` numbers that a
//! well-formed position can have.

use crate::bitbox::{bit_of, bitbox_bits, word_bit, BincodeBitBox};
use crate::bloom::word_of;
use crate::position::Position;
use vstd::prelude::*;

verus! {

/// The number of well-formed positions, `2^33`.
pub const NR_POSITIONS: u64 = 0x2_0000_0000;

/// A set of well-formed positions, kept as one bit per position.
pub struct VisitMap {
    bits: BincodeBitBox,
}

impl View for VisitMap {
    type V = Seq<bool>;

    /// For each number of a position, whether the position is in the set.
    closed spec fn view(&self) -> Seq<bool> {
        bitbox_bits(self.bits)
    }
}

impl VisitMap {
    /// The map has a bit for every well-formed position, on a machine whose
    /// addresses are wide enough to number them.
    pub open spec fn wf(self) -> bool {
        self@.len() == NR_POSITIONS && usize::BITS == 64
    }

    /// Whether the position is in the set.
    pub open spec fn spec_is_visited(self, position: Position) -> bool {
        self@[position.0 as int]
    }

    /// The empty set. The map takes a gibibyte, which only a machine with
    /// 64-bit addresses can hold.
    pub fn new() -> (r: VisitMap)
        requires
            usize::BITS == 64,
        ensures
            r.wf(),
            forall|p: Position| p.wf() ==> !r.spec_is_visited(p),
    {
        let len: usize = NR_POSITIONS as usize;
        VisitMap { bits: BincodeBitBox::zeroed(len) }
    }

    /// Puts the position into the set.
    pub fn visit(&mut self, position: Position)
        requires
            old(self).wf(),
            position.wf(),
        ensures
            final(self).wf(),
            final(self)@ == old(self)@.update(position.0 as int, true),
    {
        self.bits.set(position.0 as usize, true);
    }

    /// Takes the position out of the set.
    pub fn unvisit(&mut self, position: Position)
        requires
            old(self).wf(),
            position.wf(),
        ensures
            final(self).wf(),
            final(self)@ == old(self)@.update(position.0 as int, false),
    {
        self.bits.set(position.0 as usize, false);
    }

    /// Whether the position is in the set.
    pub fn is_visited(&self, position: Position) -> (r: bool)
        requires
            self.wf(),
            position.wf(),
        ensures
            r == self.spec_is_visited(position),
    {
        self.bits.get(position.0 as usize)
    }
}

/// The number of 32-bit words that hold the bits of a map.
pub const NR_WORDS: usize = 0x1000_0000;

impl VisitMap {
    /// The bits of the map, packed into 32-bit words with the first bit
    /// lowest: the position with the number `n` is bit `n % 32` of word
    /// `n / 32`.
    pub fn to_words(&self) -> (r: Vec<u32>)
        requires
            self.wf(),
        ensures
            r@.len() == NR_WORDS,
            forall|p: Position| p.wf() ==> #[trigger] word_bit(r@, p.0 as int) == self.spec_is_visited(p),
    {
        let mut words: Vec<u32> = Vec::new();
        let mut w: usize = 0;
        while w < NR_WORDS
            invariant
                0 <= w <= NR_WORDS,
                self.wf(),
                words@.len() == w,
                forall|v: int, j: int|
                    0 <= v < w && 0 <= j < 32 ==> #[trigger] bit_of(words@[v], j) == self@[32 * v
                        + j],
            decreases NR_WORDS - w,
        {
            let word = word_of(&self.bits, w);
            words.push(word);
            w += 1;
        }
        proof {
            assert forall|p: Position| p.wf() implies #[trigger] word_bit(words@, p.0 as int)
                == self.spec_is_visited(p) by {
                let v = p.0 as int / 32;
                let j = p.0 as int % 32;
                assert(bit_of(words@[v], j) == self@[32 * v + j]);
            }
        }
        words
    }

    /// The map whose bits the words hold, if there are as many words as a
    /// map has and the machine has 64-bit addresses.
    pub fn from_words(words: Vec<u32>) -> (r: Option<VisitMap>)
        ensures
            r is Some <==> words@.len() == NR_WORDS && usize::BITS == 64,
            r matches Some(map) ==> map.wf() && forall|p: Position|
                p.wf() ==> #[trigger] map.spec_is_visited(p) == word_bit(words@, p.0 as int),
    {
        if words.len() != NR_WORDS || usize::BITS != 64 {
            return None;
        }
        let map = VisitMap { bits: BincodeBitBox::from_words(words) };
        Some(map)
    }
}

} // verus!
