//! The bit array of the `bitvec` crate, as far as this library uses it.
//!
//! Nothing in this file is proved: each contract states what the source of
//! `bitvec` shows of the function that the body calls.

use bitvec::boxed::BitBox;
use bitvec::order::Lsb0;
use bitvec::vec::BitVec;
use vstd::prelude::*;

verus! {

/// A bit array of fixed length, kept by `bitvec` in 32-bit words with the
/// least significant bit of a word first: the layout in which an index file
/// stores its bits.
#[verifier::external_body]
pub struct BincodeBitBox {
    bits: BitBox<u32, Lsb0>,
}

/// The bits that a bit array holds, in the order of their indices.
pub uninterp spec fn bitbox_bits(bits: BincodeBitBox) -> Seq<bool>;

/// Bit `j` of a 32-bit word, where bit 0 is the least significant bit.
pub open spec fn bit_of(word: u32, j: int) -> bool {
    (word >> (j as u32)) & 1 == 1
}

/// Bit `index` of a sequence of 32-bit words, where the least significant bit
/// of each word comes first.
pub open spec fn word_bit(words: Seq<u32>, index: int) -> bool {
    bit_of(words[index / 32], index % 32)
}

impl BincodeBitBox {
    /// `BitVec::repeat(false, len)` followed by `into_boxed_bitslice()`: a
    /// bit array of `len` bits that are all zero. `repeat` panics if the
    /// length exceeds `BitSlice::MAX_BITS`, an eighth of the address space.
    #[verifier::external_body]
    pub(crate) fn zeroed(len: usize) -> (r: BincodeBitBox)
        requires
            len <= usize::MAX / 8,
        ensures
            bitbox_bits(r) == Seq::new(len as nat, |i: int| false),
    {
        BincodeBitBox { bits: BitVec::<u32, Lsb0>::repeat(false, len).into_boxed_bitslice() }
    }

    /// `BitBox::from_boxed_slice`: the bit array over the given words, 32
    /// bits for each word, in the order `Lsb0`. It panics if the words hold
    /// more than `BitSlice::MAX_BITS` bits.
    #[verifier::external_body]
    pub(crate) fn from_words(words: Vec<u32>) -> (r: BincodeBitBox)
        requires
            words@.len() * 32 <= usize::MAX / 8,
        ensures
            bitbox_bits(r) == Seq::new(words@.len() * 32, |i: int| word_bit(words@, i)),
    {
        BincodeBitBox { bits: BitBox::from_boxed_slice(words.into_boxed_slice()) }
    }

    /// `BitSlice::len`: the number of bits in the array.
    #[verifier::external_body]
    pub(crate) fn len(&self) -> (r: usize)
        ensures
            r == bitbox_bits(*self).len(),
    {
        self.bits.len()
    }

    /// `BitSlice::set`: writes `value` into the bit at `index` and leaves
    /// every other bit as it was. It panics if `index` is out of bounds.
    #[verifier::external_body]
    pub(crate) fn set(&mut self, index: usize, value: bool)
        requires
            index < bitbox_bits(*old(self)).len(),
        ensures
            bitbox_bits(*final(self)) == bitbox_bits(*old(self)).update(index as int, value),
    {
        self.bits.set(index, value);
    }

    /// `BitSlice::get`: the bit at `index`, which is there if `index` is in
    /// bounds.
    #[verifier::external_body]
    pub(crate) fn get(&self, index: usize) -> (r: bool)
        requires
            index < bitbox_bits(*self).len(),
        ensures
            r == bitbox_bits(*self)[index as int],
    {
        *self.bits.get(index).unwrap()
    }
}

} // verus!
