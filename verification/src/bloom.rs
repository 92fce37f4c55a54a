//! The reachability index: a Bloom filter with a single hash function, the
//! position's number modulo the size of the filter.

use crate::bitbox::{bit_of, bitbox_bits, word_bit, BincodeBitBox};
use crate::position::Position;
use vstd::bytes::{
    lemma_auto_spec_u32_to_from_le_bytes, lemma_auto_spec_u64_to_from_le_bytes,
    spec_u32_from_le_bytes, spec_u32_to_le_bytes, spec_u64_from_le_bytes, spec_u64_to_le_bytes,
    u32_from_le_bytes, u32_to_le_bytes, u64_from_le_bytes, u64_to_le_bytes,
};
use vstd::prelude::*;
use vstd::slice::slice_subrange;

verus! {

/// A fixed-size set of positions that may answer "present" for a position
/// that was never inserted, but never answers "absent" for one that was.
pub struct BloomFilter {
    nr_bits: u32,
    k: u32,
    bits: BincodeBitBox,
}

impl View for BloomFilter {
    type V = Seq<bool>;

    /// The bits of the filter: as many as its size says.
    closed spec fn view(&self) -> Seq<bool> {
        bitbox_bits(self.bits).take(self.nr_bits as int)
    }
}

impl BloomFilter {
    /// The filter has one hash function and holds as many bits as its size
    /// says.
    pub closed spec fn wf(self) -> bool {
        &&& self.k == 1
        &&& self.nr_bits <= bitbox_bits(self.bits).len()
    }

    /// The size of the filter in bits.
    pub closed spec fn spec_nr_bits(self) -> u32 {
        self.nr_bits
    }

    /// The number of hash functions, which is always one.
    pub closed spec fn spec_k(self) -> u32 {
        self.k
    }

    /// All the bits that the filter keeps. A filter that was read from a
    /// file keeps the bits of every word of the file, which may be more than
    /// its size says.
    pub closed spec fn spec_stored_bits(self) -> Seq<bool> {
        bitbox_bits(self.bits)
    }

    /// The bit of the filter that stands for a position.
    pub open spec fn spec_hash(self, position: Position) -> int {
        (position.0 % (self.spec_nr_bits() as u64)) as int
    }

    /// Whether the filter takes the position to be present.
    pub open spec fn spec_query(self, position: Position) -> bool {
        self@[self.spec_hash(position)]
    }

    /// A well-formed filter has as many bits as its size says, and they are
    /// the first of the bits that it keeps.
    pub proof fn lemma_view_len(self)
        requires
            self.wf(),
        ensures
            self@.len() == self.spec_nr_bits(),
            self.spec_k() == 1,
            self.spec_nr_bits() <= self.spec_stored_bits().len(),
            self@ == self.spec_stored_bits().take(self.spec_nr_bits() as int),
    {
    }

    /// An empty filter of `nr_bits` bits. Only one hash function is
    /// supported, so `k` must be 1.
    pub fn new(nr_bits: u32, k: u32) -> (r: BloomFilter)
        requires
            k == 1,
            nr_bits <= usize::MAX / 8,
        ensures
            r.wf(),
            r.spec_nr_bits() == nr_bits,
            r.spec_k() == k,
            r@ == Seq::new(nr_bits as nat, |i: int| false),
    {
        let filter = BloomFilter { nr_bits, k, bits: BincodeBitBox::zeroed(nr_bits as usize) };
        assert(filter@ =~= Seq::new(nr_bits as nat, |i: int| false));
        filter
    }

    /// The size of the bloom filter in bits.
    pub fn nr_bits(&self) -> (r: u32)
        ensures
            r == self.spec_nr_bits(),
    {
        self.nr_bits
    }

    fn hash(&self, pos: Position) -> (r: usize)
        requires
            self.spec_nr_bits() > 0,
            self.wf(),
        ensures
            r == self.spec_hash(pos),
            r < self.spec_nr_bits(),
    {
        let nr_bits = self.nr_bits() as u64;
        (pos.0 % nr_bits) as usize
    }

    /// Puts a position into the filter: sets the bit that stands for it.
    pub fn insert(&mut self, position: Position)
        requires
            old(self).wf(),
            old(self).spec_nr_bits() > 0,
        ensures
            final(self).wf(),
            final(self).spec_nr_bits() == old(self).spec_nr_bits(),
            final(self).spec_k() == old(self).spec_k(),
            final(self)@ == old(self)@.update(old(self).spec_hash(position), true),
    {
        let hash = self.hash(position);
        self.bits.set(hash, true);
        assert(self@ =~= old(self)@.update(old(self).spec_hash(position), true));
    }

    /// Check if a value is present in the filter.
    ///
    /// This may return false positives, but never false negatives.
    pub fn query(&self, position: Position) -> (r: bool)
        requires
            self.wf(),
            self.spec_nr_bits() > 0,
        ensures
            r == self.spec_query(position),
    {
        let hash = self.hash(position);
        self.bits.get(hash)
    }

    /// A filter that answers "present" to every query.
    pub fn always_true() -> (r: BloomFilter)
        ensures
            r.wf(),
            r.spec_nr_bits() == 1,
            r@ == seq![true],
            forall|p: Position| r.spec_query(p),
    {
        broadcast use vstd::seq_lib::group_seq_properties;

        assert(1usize <= usize::MAX / 8);
        let mut filter = BloomFilter::new(1, 1);
        filter.insert(Position(0));
        assert(filter@ =~= seq![true]);
        filter
    }
}

/// The greatest number of bytes that an index file may ask the reader to
/// take in.
pub const BYTES_LIMIT_BLOOM_FILTER: usize = 104857600;

/// Why the bytes of an index file were refused.
#[derive(Clone, Copy, PartialEq, Eq, Debug, Structural)]
pub enum LoadError {
    /// The bytes end before the header or before the last word.
    UnexpectedEnd,
    /// The file announces more bytes than the limit, or more bits than a
    /// bit array of this machine can hold.
    LimitExceeded,
    /// The number of hash functions is not 1.
    UnsupportedK,
    /// The file holds fewer bits than the size of the filter.
    TooFewWords,
}

/// The 32-bit number that the four bytes from `at` on spell, least
/// significant byte first.
pub open spec fn spec_u32_at(data: Seq<u8>, at: int) -> u32 {
    spec_u32_from_le_bytes(data.subrange(at, at + 4))
}

/// The 64-bit number that the eight bytes from `at` on spell, least
/// significant byte first.
pub open spec fn spec_u64_at(data: Seq<u8>, at: int) -> u64 {
    spec_u64_from_le_bytes(data.subrange(at, at + 8))
}

/// The size in bits that an index file announces: its first field.
pub open spec fn spec_file_nr_bits(data: Seq<u8>) -> u32 {
    spec_u32_at(data, 0)
}

/// The number of hash functions that an index file announces: its second
/// field.
pub open spec fn spec_file_k(data: Seq<u8>) -> u32 {
    spec_u32_at(data, 4)
}

/// The number of 32-bit words that an index file announces: its third field.
pub open spec fn spec_file_len(data: Seq<u8>) -> u64 {
    spec_u64_at(data, 8)
}

/// The words of an index file, which follow its three fields.
pub open spec fn spec_file_words(data: Seq<u8>) -> Seq<u32> {
    Seq::new(spec_file_len(data) as nat, |i: int| spec_u32_at(data, 16 + 4 * i))
}

/// Why the bytes are refused as an index file, if they are. The file must
/// hold its header of 16 bytes; it must not announce more than the limit in
/// bytes, nor more bits than this machine can address; it must hold the
/// words that it announces; its number of hash functions must be 1; and its
/// words must hold the bits of the filter. Bytes after the last word are
/// ignored.
pub open spec fn spec_load_error(data: Seq<u8>) -> Option<LoadError> {
    if data.len() < 16 {
        Some(LoadError::UnexpectedEnd)
    } else if 16 + 4 * spec_file_len(data) > BYTES_LIMIT_BLOOM_FILTER || 32 * spec_file_len(data)
        > usize::MAX / 8 {
        Some(LoadError::LimitExceeded)
    } else if data.len() < 16 + 4 * spec_file_len(data) {
        Some(LoadError::UnexpectedEnd)
    } else if spec_file_k(data) != 1 {
        Some(LoadError::UnsupportedK)
    } else if spec_file_nr_bits(data) > 32 * spec_file_len(data) {
        Some(LoadError::TooFewWords)
    } else {
        None
    }
}

fn read_u32(data: &[u8], at: usize) -> (r: u32)
    requires
        at + 4 <= data@.len(),
    ensures
        r == spec_u32_at(data@, at as int),
{
    let size = data.len();
    u32_from_le_bytes(slice_subrange(data, at, at + 4))
}

fn read_u64(data: &[u8], at: usize) -> (r: u64)
    requires
        at + 8 <= data@.len(),
    ensures
        r == spec_u64_at(data@, at as int),
{
    let size = data.len();
    u64_from_le_bytes(slice_subrange(data, at, at + 8))
}

impl BloomFilter {
    /// Reads a filter from the bytes of an index file: the size in bits and
    /// the number of hash functions as 32-bit numbers, the number of words
    /// as a 64-bit number, and then the bits, packed into 32-bit words with
    /// the first bit lowest; every number with its least significant byte
    /// first.
    ///
    /// The bytes must be an index file: a file that is cut short, that
    /// announces more than the limit or that asks for another number of
    /// hash functions is a fatal error, which `try_load_from_slice` tells
    /// apart beforehand.
    pub fn load_from_slice(data: &[u8]) -> (r: BloomFilter)
        requires
            spec_load_error(data@) is None,
        ensures
            r.wf(),
            r.spec_nr_bits() == spec_file_nr_bits(data@),
            r@ == Seq::new(
                spec_file_nr_bits(data@) as nat,
                |i: int| word_bit(spec_file_words(data@), i),
            ),
    {
        match BloomFilter::try_load_from_slice(data) {
            Ok(filter) => filter,
            Err(_) => unreached(),
        }
    }

    /// Reads a filter from bytes that may or may not be an index file, and
    /// says why they are refused if they are.
    pub fn try_load_from_slice(data: &[u8]) -> (r: Result<BloomFilter, LoadError>)
        ensures
            match r {
                Ok(filter) => {
                    &&& spec_load_error(data@) is None
                    &&& filter.wf()
                    &&& filter.spec_nr_bits() == spec_file_nr_bits(data@)
                    &&& filter@ == Seq::new(
                        spec_file_nr_bits(data@) as nat,
                        |i: int| word_bit(spec_file_words(data@), i),
                    )
                },
                Err(e) => spec_load_error(data@) == Some(e),
            },
    {
        if data.len() < 16 {
            return Err(LoadError::UnexpectedEnd);
        }
        let nr_bits = read_u32(data, 0);
        let k = read_u32(data, 4);
        let len = read_u64(data, 8);
        if len > ((BYTES_LIMIT_BLOOM_FILTER - 16) / 4) as u64 || len > ((usize::MAX / 8) / 32) as u64 {
            return Err(LoadError::LimitExceeded);
        }
        let len = len as usize;
        if data.len() < 16 + 4 * len {
            return Err(LoadError::UnexpectedEnd);
        }
        if k != 1 {
            return Err(LoadError::UnsupportedK);
        }
        if nr_bits as u64 > 32 * (len as u64) {
            return Err(LoadError::TooFewWords);
        }
        let mut words: Vec<u32> = Vec::new();
        let mut i: usize = 0;
        while i < len
            invariant
                0 <= i <= len,
                len <= (BYTES_LIMIT_BLOOM_FILTER - 16) / 4,
                16 + 4 * len <= data@.len(),
                words@.len() == i,
                forall|j: int| 0 <= j < i ==> words@[j] == spec_u32_at(data@, 16 + 4 * j),
            decreases len - i,
        {
            words.push(read_u32(data, 16 + 4 * i));
            i += 1;
        }
        assert(words@ =~= spec_file_words(data@));
        let bits = BincodeBitBox::from_words(words);
        let filter = BloomFilter { nr_bits, k, bits };
        assert(filter@ =~= Seq::new(
            spec_file_nr_bits(data@) as nat,
            |i: int| word_bit(spec_file_words(data@), i),
        ));
        Ok(filter)
    }
}

proof fn lemma_set_bit32(word: u32, j: u32, i: u32)
    by (bit_vector)
    requires
        j < 32,
        i < 32,
    ensures
        ((word | (1u32 << j)) >> i) & 1 == (if i == j {
            1u32
        } else {
            (word >> i) & 1
        }),
        (0u32 >> i) & 1 == 0,
{
}

fn append_bytes(out: &mut Vec<u8>, bytes: Vec<u8>)
    ensures
        final(out)@ == old(out)@ + bytes@,
{
    let mut i: usize = 0;
    while i < bytes.len()
        invariant
            0 <= i <= bytes@.len(),
            out@ == old(out)@ + bytes@.take(i as int),
        decreases bytes@.len() - i,
    {
        out.push(bytes[i]);
        i += 1;
        assert(bytes@.take(i as int) =~= bytes@.take(i - 1).push(bytes@[i - 1]));
        assert(out@ =~= old(out)@ + bytes@.take(i as int));
    }
    assert(bytes@.take(bytes@.len() as int) =~= bytes@);
}

/// The word number `w` of a bit array: bit `j` of the word is bit
/// `32 * w + j` of the array, and zero beyond its last bit.
pub(crate) fn word_of(bits: &BincodeBitBox, w: usize) -> (r: u32)
    requires
        32 * w < bitbox_bits(*bits).len(),
    ensures
        forall|j: int|
            0 <= j < 32 ==> #[trigger] bit_of(r, j) == (32 * w + j < bitbox_bits(*bits).len()
                && bitbox_bits(*bits)[32 * w + j]),
{
    let len = bits.len();
    let mut word: u32 = 0;
    let mut j: u32 = 0;
    proof {
        assert forall|i: int| 0 <= i < 32 implies !#[trigger] bit_of(word, i) by {
            lemma_set_bit32(0, 0, i as u32);
        }
    }
    while j < 32
        invariant
            0 <= j <= 32,
            len == bitbox_bits(*bits).len(),
            32 * w < len,
            forall|i: int|
                0 <= i < 32 ==> #[trigger] bit_of(word, i) == (i < j && 32 * w + i < len
                    && bitbox_bits(*bits)[32 * w + i]),
        decreases 32 - j,
    {
        let offset = j as usize;
        if offset < len - 32 * w {
            if bits.get(32 * w + offset) {
                proof {
                    assert forall|i: int| 0 <= i < 32 implies #[trigger] bit_of(
                        word | (1u32 << j),
                        i,
                    ) == (i < j + 1 && 32 * w + i < len && bitbox_bits(*bits)[32 * w + i]) by {
                        lemma_set_bit32(word, j, i as u32);
                        assert(bit_of(word, i) == (i < j && 32 * w + i < len && bitbox_bits(
                            *bits,
                        )[32 * w + i]));
                    }
                }
                word = word | (1u32 << j);
            }
        }
        j += 1;
    }
    word
}

impl BloomFilter {
    /// The bytes of the index file of the filter, which `load_from_slice`
    /// reads back: the size, the number of hash functions, the number of
    /// words and the words, in which the bits beyond the last bit of the
    /// filter are zero.
    pub fn to_bytes(&self) -> (r: Vec<u8>)
        requires
            self.wf(),
        ensures
            is_file_of(r@, *self),
    {
        let len = self.bits.len();
        let count: usize = if len % 32 == 0 {
            len / 32
        } else {
            len / 32 + 1
        };
        let mut out: Vec<u8> = Vec::new();
        append_bytes(&mut out, u32_to_le_bytes(self.nr_bits));
        append_bytes(&mut out, u32_to_le_bytes(self.k));
        append_bytes(&mut out, u64_to_le_bytes(count as u64));
        proof {
            lemma_auto_spec_u32_to_from_le_bytes();
            lemma_auto_spec_u64_to_from_le_bytes();
            assert(out@.subrange(0, 4) =~= spec_u32_to_le_bytes(self.nr_bits));
            assert(out@.subrange(4, 8) =~= spec_u32_to_le_bytes(self.k));
            assert(out@.subrange(8, 16) =~= spec_u64_to_le_bytes(count as u64));
        }
        let ghost header = out@;
        let ghost mut words: Seq<u32> = Seq::empty();
        let mut w: usize = 0;
        while w < count
            invariant
                0 <= w <= count,
                len == self.spec_stored_bits().len(),
                count == (len + 31) / 32,
                header.len() == 16,
                out@.len() == 16 + 4 * w,
                out@.subrange(0, 16) == header,
                words.len() == w,
                forall|v: int|
                    0 <= v < w ==> #[trigger] out@.subrange(16 + 4 * v, 20 + 4 * v)
                        == spec_u32_to_le_bytes(words[v]),
                forall|v: int, j: int|
                    0 <= v < w && 0 <= j < 32 ==> #[trigger] bit_of(words[v], j) == (32 * v + j
                        < len && self.spec_stored_bits()[32 * v + j]),
            decreases count - w,
        {
            let word = word_of(&self.bits, w);
            let ghost before = out@;
            append_bytes(&mut out, u32_to_le_bytes(word));
            proof {
                lemma_auto_spec_u32_to_from_le_bytes();
                words = words.push(word);
                assert(out@.subrange(0, 16) =~= before.subrange(0, 16));
                assert forall|v: int| 0 <= v < w + 1 implies #[trigger] out@.subrange(
                    16 + 4 * v,
                    20 + 4 * v,
                ) == spec_u32_to_le_bytes(words[v]) by {
                    if v < w {
                        assert(out@.subrange(16 + 4 * v, 20 + 4 * v) =~= before.subrange(
                            16 + 4 * v,
                            20 + 4 * v,
                        ));
                    } else {
                        assert(out@.subrange(16 + 4 * v, 20 + 4 * v) =~= spec_u32_to_le_bytes(word));
                    }
                }
            }
            w += 1;
        }
        proof {
            lemma_auto_spec_u32_to_from_le_bytes();
            lemma_auto_spec_u64_to_from_le_bytes();
            assert(out@.subrange(0, 4) =~= header.subrange(0, 4));
            assert(out@.subrange(4, 8) =~= header.subrange(4, 8));
            assert(out@.subrange(8, 16) =~= header.subrange(8, 16));
            assert(spec_file_len(out@) == count);
            assert forall|v: int| 0 <= v < count implies spec_u32_at(out@, 16 + 4 * v)
                == words[v] by {
                assert(out@.subrange(16 + 4 * v, 16 + 4 * v + 4) == out@.subrange(
                    16 + 4 * v,
                    20 + 4 * v,
                ));
            }
            assert(spec_file_words(out@) =~= words);
            assert forall|i: int| 0 <= i < 32 * spec_file_len(out@) implies #[trigger] word_bit(
                spec_file_words(out@),
                i,
            ) == (i < self.spec_stored_bits().len() && self.spec_stored_bits()[i]) by {
                let v = i / 32;
                let j = i % 32;
                assert(bit_of(words[v], j) == (32 * v + j < len && self.spec_stored_bits()[32 * v
                    + j]));
            }
        }
        out
    }
}

impl PartialEq for BloomFilter {
    /// Two filters are equal if they have the same size and the same bits.
    fn eq(&self, other: &BloomFilter) -> (r: bool) {
        if self.nr_bits != other.nr_bits {
            return false;
        }
        let size = self.nr_bits as usize;
        let here = if size < self.bits.len() {
            size
        } else {
            self.bits.len()
        };
        let there = if size < other.bits.len() {
            size
        } else {
            other.bits.len()
        };
        if here != there {
            return false;
        }
        let mut i: usize = 0;
        while i < here
            invariant
                0 <= i <= here,
                here <= bitbox_bits(self.bits).len(),
                here <= bitbox_bits(other.bits).len(),
                self.nr_bits == other.nr_bits,
                self.shown().len() == here,
                other.shown().len() == here,
                forall|j: int| 0 <= j < i ==> bitbox_bits(self.bits)[j] == bitbox_bits(other.bits)[j],
            decreases here - i,
        {
            if self.bits.get(i) != other.bits.get(i) {
                assert(self.shown()[i as int] != other.shown()[i as int]);
                return false;
            }
            i += 1;
        }
        assert(self.shown() =~= other.shown());
        true
    }
}

impl Eq for BloomFilter {

}

impl vstd::std_specs::cmp::PartialEqSpecImpl for BloomFilter {
    open spec fn obeys_eq_spec() -> bool {
        true
    }

    open spec fn eq_spec(&self, other: &BloomFilter) -> bool {
        self.spec_nr_bits() == other.spec_nr_bits() && self.shown() == other.shown()
    }
}

impl BloomFilter {
    /// The bits of the filter as far as it keeps them: for a well-formed
    /// filter all its bits.
    pub closed spec fn shown(self) -> Seq<bool> {
        if self.nr_bits <= bitbox_bits(self.bits).len() {
            bitbox_bits(self.bits).take(self.nr_bits as int)
        } else {
            bitbox_bits(self.bits)
        }
    }

    /// Of a well-formed filter all bits are shown.
    pub proof fn lemma_shown(self)
        requires
            self.wf(),
        ensures
            self.shown() == self@,
    {
    }
}

/// The bytes are the index file of the filter, as `to_bytes` writes it.
pub open spec fn is_file_of(data: Seq<u8>, filter: BloomFilter) -> bool {
    &&& data.len() == 16 + 4 * spec_file_len(data)
    &&& spec_file_nr_bits(data) == filter.spec_nr_bits()
    &&& spec_file_k(data) == 1
    &&& spec_file_len(data) == (filter.spec_stored_bits().len() + 31) / 32
    &&& forall|i: int|
        0 <= i < 32 * spec_file_len(data) ==> #[trigger] word_bit(spec_file_words(data), i) == (i
            < filter.spec_stored_bits().len() && filter.spec_stored_bits()[i])
}

/// An index file that was written can be read back, unless it is too large,
/// and what is read has the size and the bits of the filter that was
/// written.
pub proof fn lemma_file_reads_back(data: Seq<u8>, written: BloomFilter, read: BloomFilter)
    requires
        written.wf(),
        is_file_of(data, written),
        16 + 4 * spec_file_len(data) <= BYTES_LIMIT_BLOOM_FILTER,
        32 * spec_file_len(data) <= usize::MAX / 8,
        read.wf(),
        read.spec_nr_bits() == spec_file_nr_bits(data),
        read@ == Seq::new(
            spec_file_nr_bits(data) as nat,
            |i: int| word_bit(spec_file_words(data), i),
        ),
    ensures
        spec_load_error(data) is None,
        read.spec_nr_bits() == written.spec_nr_bits(),
        read@ == written@,
{
    written.lemma_view_len();
    assert(read@ =~= written@) by {
        assert forall|i: int| 0 <= i < read@.len() implies read@[i] == written@[i] by {
            assert(word_bit(spec_file_words(data), i) == (i < written.spec_stored_bits().len()
                && written.spec_stored_bits()[i]));
        }
    }
}

/// A position that was inserted is present, and so is every position that
/// was present before: the filter has no false negatives.
pub proof fn lemma_insert_keeps_present(before: BloomFilter, after: BloomFilter, p: Position, q: Position)
    requires
        before.wf(),
        before.spec_nr_bits() > 0,
        after.spec_nr_bits() == before.spec_nr_bits(),
        after@ == before@.update(before.spec_hash(p), true),
    ensures
        after.spec_query(p),
        before.spec_query(q) ==> after.spec_query(q),
{
    before.lemma_view_len();
}

} // verus!
