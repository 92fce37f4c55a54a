//! Counting and comparing the bits of a 64-bit word.

use vstd::prelude::*;

verus! {

/// The number of one bits in `x`.
pub open spec fn popcount(x: u64) -> nat
    decreases x,
{
    if x == 0 {
        0
    } else {
        proof {
            lemma_halving_decreases(x);
        }
        (x & 1) as nat + popcount(x >> 1)
    }
}

/// Halving a word that is not zero makes it smaller.
pub proof fn lemma_halving_decreases(x: u64)
    by (bit_vector)
    requires
        x != 0,
    ensures
        x >> 1 < x,
        x & 1 <= 1,
{
}

/// `u64::count_ones` of the standard library returns the number of one bits
/// in the binary representation of its argument.
pub assume_specification[ u64::count_ones ](x: u64) -> (r: u32)
    ensures
        r == popcount(x),
;

proof fn lemma_or_step(x: u64, y: u64)
    by (bit_vector)
    requires
        x & y == 0,
    ensures
        (x | y) >> 1 == (x >> 1) | (y >> 1),
        (x >> 1) & (y >> 1) == 0,
        (x | y) & 1 == (x & 1) + (y & 1),
        x | y == 0 <==> x == 0 && y == 0,
{
}

/// Words without a common one bit: the ones of their union are the ones of
/// both.
pub proof fn lemma_popcount_disjoint(x: u64, y: u64)
    requires
        x & y == 0,
    ensures
        popcount(x | y) == popcount(x) + popcount(y),
    decreases x + y,
{
    lemma_or_step(x, y);
    if x == 0 && y == 0 {
    } else {
        if x != 0 {
            lemma_halving_decreases(x);
        }
        if y != 0 {
            lemma_halving_decreases(y);
        }
        assert(x == 0 ==> x >> 1 == 0 && x & 1 == 0) by (bit_vector);
        assert(y == 0 ==> y >> 1 == 0 && y & 1 == 0) by (bit_vector);
        lemma_popcount_disjoint(x >> 1, y >> 1);
    }
}

proof fn lemma_single_bit_step(i: u64)
    by (bit_vector)
    requires
        0 < i < 64,
    ensures
        (1u64 << i) != 0,
        (1u64 << i) & 1 == 0,
        (1u64 << i) >> 1 == 1u64 << ((i - 1) as u64),
{
}

/// A word with a single one bit.
pub proof fn lemma_popcount_single_bit(i: u64)
    requires
        i < 64,
    ensures
        popcount(1u64 << i) == 1,
    decreases i,
{
    if i == 0 {
        assert(1u64 << 0u64 == 1) by (bit_vector);
        assert(1u64 & 1 == 1 && 1u64 >> 1 == 0) by (bit_vector);
        assert(popcount(1u64) == (1u64 & 1) as nat + popcount(1u64 >> 1));
    } else {
        lemma_single_bit_step(i);
        lemma_popcount_single_bit((i - 1) as u64);
    }
}

proof fn lemma_split_bit(x: u64, c: u64)
    by (bit_vector)
    requires
        c < 64,
    ensures
        (x & !(1u64 << c)) & (1u64 << c) == 0,
        x & (1u64 << c) != 0 ==> (x & !(1u64 << c)) | (1u64 << c) == x,
        x & (1u64 << c) == 0 ==> x & !(1u64 << c) == x,
{
}

/// A word with a bit that is set has at least one one bit; clearing the bit
/// takes one away.
pub proof fn lemma_popcount_has_bit(x: u64, c: u64)
    requires
        c < 64,
        x & (1u64 << c) != 0,
    ensures
        popcount(x) == popcount(x & !(1u64 << c)) + 1,
{
    lemma_split_bit(x, c);
    lemma_popcount_single_bit(c);
    lemma_popcount_disjoint(x & !(1u64 << c), 1u64 << c);
}

proof fn lemma_low_ones_step(k: u64)
    by (bit_vector)
    requires
        0 < k < 64,
    ensures
        ((1u64 << k) - 1) as u64 != 0,
        (((1u64 << k) - 1) as u64) & 1 == 1,
        (((1u64 << k) - 1) as u64) >> 1 == ((1u64 << ((k - 1) as u64)) - 1) as u64,
        (1u64 << k) >= 1,
        (1u64 << 0u64) == 1,
{
}

/// The word made of the `k` lowest bits has `k` one bits.
pub proof fn lemma_popcount_low_ones(k: u64)
    requires
        k < 64,
    ensures
        (1u64 << k) >= 1,
        popcount(((1u64 << k) - 1) as u64) == k,
    decreases k,
{
    if k == 0 {
        lemma_low_ones_step(1);
    } else {
        lemma_low_ones_step(k);
        lemma_popcount_low_ones((k - 1) as u64);
    }
}

proof fn lemma_below_power_step(x: u64, k: u64)
    by (bit_vector)
    requires
        0 < k <= 64,
        k < 64 ==> x < (1u64 << k),
    ensures
        k - 1 < 64 ==> (x >> 1) < (1u64 << ((k - 1) as u64)),
        k == 1 ==> x >> 1 == 0,
{
}

/// A word below `2^k` has at most `k` one bits.
pub proof fn lemma_popcount_bound(x: u64, k: u64)
    requires
        k <= 64,
        k < 64 ==> x < (1u64 << k),
    ensures
        popcount(x) <= k,
    decreases k,
{
    if k == 0 {
        assert(x < (1u64 << 0u64) ==> x == 0) by (bit_vector);
    } else if x != 0 {
        lemma_halving_decreases(x);
        lemma_below_power_step(x, k);
        lemma_popcount_bound(x >> 1, (k - 1) as u64);
    }
}

/// Doubling the word with the single bit `k` gives the word with the single
/// bit `k + 1`.
pub proof fn lemma_single_bit_doubles(k: u64)
    by (bit_vector)
    requires
        k < 63,
    ensures
        (1u64 << k) * 2 == (1u64 << ((k + 1) as u64)),
        0 < (1u64 << k) <= 0x4000_0000_0000_0000,
{
}

/// Setting bit `k` of a word below `2^k` adds `2^k` to it and keeps it below
/// `2^(k + 1)`.
pub proof fn lemma_append_bit(out: u64, k: u64)
    by (bit_vector)
    requires
        k < 63,
        out < (1u64 << k),
    ensures
        out + (1u64 << k) == out | (1u64 << k),
        (out | (1u64 << k)) < (1u64 << ((k + 1) as u64)),
        out < (1u64 << ((k + 1) as u64)),
        (1u64 << k) * 2 == (1u64 << ((k + 1) as u64)),
        (1u64 << k) <= 0x4000_0000_0000_0000,
{
}

/// The word whose bit `i` is set exactly if `holes[i]` is true.
pub open spec fn packed(holes: Seq<bool>) -> u64
    decreases holes.len(),
{
    if holes.len() == 0 {
        0
    } else if holes.last() {
        packed(holes.drop_last()) | (1u64 << ((holes.len() - 1) as u64))
    } else {
        packed(holes.drop_last())
    }
}

proof fn lemma_packed_step(word: u64, k: u64, i: u64)
    by (bit_vector)
    requires
        k < 64,
        i < 64,
        word < (1u64 << k),
    ensures
        ((word | (1u64 << k)) & (1u64 << i) != 0) == (i == k || word & (1u64 << i) != 0),
        i >= k ==> word & (1u64 << i) == 0,
        k < 63 ==> (word | (1u64 << k)) < (1u64 << ((k + 1) as u64)) && word < (1u64 << ((k
            + 1) as u64)),
        word & (1u64 << k) == 0,
        (1u64 << k) != 0,
{
}

/// The bits of a packed word are the bits that were packed: bit `i` is set
/// exactly if `holes[i]` is there and true.
pub proof fn lemma_packed_bit(holes: Seq<bool>, i: u64)
    requires
        holes.len() <= 64,
        i < 64,
    ensures
        (packed(holes) & (1u64 << i) != 0) == (i < holes.len() && holes[i as int]),
        holes.len() < 64 ==> packed(holes) < (1u64 << (holes.len() as u64)),
        holes.len() == 0 ==> packed(holes) == 0,
    decreases holes.len(),
{
    if holes.len() == 0 {
        assert(0u64 & (1u64 << i) == 0 && 0u64 < (1u64 << 0u64)) by (bit_vector);
    } else {
        let front = holes.drop_last();
        let k = (holes.len() - 1) as u64;
        lemma_packed_bit(front, i);
        lemma_packed_step(packed(front), k, i);
    }
}

proof fn lemma_all_ones_step(k: u64)
    by (bit_vector)
    requires
        k < 63,
    ensures
        (((1u64 << k) - 1) as u64) | (1u64 << k) == ((1u64 << ((k + 1) as u64)) - 1) as u64,
        (1u64 << k) >= 1,
        ((1u64 << 0u64) - 1) as u64 == 0,
{
}

/// Packing `n` bits that are all set gives the word of the `n` lowest bits.
pub proof fn lemma_packed_all_ones(n: nat)
    requires
        n < 64,
    ensures
        packed(Seq::new(n, |i: int| true)) == ((1u64 << (n as u64)) - 1) as u64,
    decreases n,
{
    let all = Seq::new(n, |i: int| true);
    if n == 0 {
        lemma_all_ones_step(0);
    } else {
        let fewer = (n - 1) as nat;
        assert(all.drop_last() =~= Seq::new(fewer, |i: int| true));
        lemma_packed_all_ones(fewer);
        lemma_all_ones_step(fewer as u64);
    }
}

/// For each of the `n` lowest bits of `word`, whether it is set.
pub open spec fn low_bits(word: u64, n: int) -> Seq<bool> {
    Seq::new(n as nat, |i: int| word & (1u64 << (i as u64)) != 0)
}

proof fn lemma_low_bits_step(word: u64, k: u64)
    by (bit_vector)
    requires
        k < 63,
    ensures
        word & (1u64 << k) != 0 ==> (word & (((1u64 << k) - 1) as u64)) | (1u64 << k) == word & (((
        1u64 << ((k + 1) as u64)) - 1) as u64),
        word & (1u64 << k) == 0 ==> word & (((1u64 << k) - 1) as u64) == word & (((1u64 << ((k
            + 1) as u64)) - 1) as u64),
        (1u64 << k) >= 1,
        word & (((1u64 << 0u64) - 1) as u64) == 0,
{
}

/// Packing the `n` lowest bits of a word gives these bits back.
pub proof fn lemma_packed_low_bits(word: u64, n: int)
    requires
        0 <= n < 64,
    ensures
        packed(low_bits(word, n)) == word & (((1u64 << (n as u64)) - 1) as u64),
    decreases n,
{
    if n == 0 {
        lemma_low_bits_step(word, 0);
    } else {
        assert(low_bits(word, n).drop_last() =~= low_bits(word, n - 1));
        lemma_packed_low_bits(word, n - 1);
        lemma_low_bits_step(word, (n - 1) as u64);
    }
}

proof fn lemma_update_step(front: u64, k: u64, i: u64)
    by (bit_vector)
    requires
        k < 64,
        i < 64,
        front & (1u64 << k) == 0,
    ensures
        (front | (1u64 << k)) | (1u64 << k) == front | (1u64 << k),
        (front | (1u64 << k)) & !(1u64 << k) == front,
        front & !(1u64 << k) == front,
        i != k ==> (front | (1u64 << k)) | (1u64 << i) == (front | (1u64 << i)) | (1u64 << k),
        i != k ==> (front | (1u64 << k)) & !(1u64 << i) == (front & !(1u64 << i)) | (1u64 << k),
{
}

/// Changing one of the bits that are packed sets or clears that bit of the
/// word.
pub proof fn lemma_packed_update(holes: Seq<bool>, i: int, value: bool)
    requires
        0 <= i < holes.len() <= 64,
    ensures
        packed(holes.update(i, value)) == if value {
            packed(holes) | (1u64 << (i as u64))
        } else {
            packed(holes) & !(1u64 << (i as u64))
        },
    decreases holes.len(),
{
    let front = holes.drop_last();
    let k = (holes.len() - 1) as u64;
    lemma_packed_bit(front, k);
    lemma_update_step(packed(front), k, i as u64);
    if i == k {
        assert(holes.update(i, value).drop_last() =~= front);
    } else {
        assert(holes.update(i, value).drop_last() =~= front.update(i, value));
        lemma_packed_update(front, i, value);
        lemma_packed_bit(front.update(i, value), k);
    }
}

proof fn lemma_two_bit_subsets(x: u64, a: u64, b: u64)
    by (bit_vector)
    requires
        a < 64,
        b < 64,
        a != b,
    ensures
        ({
            let m = (1u64 << a) | (1u64 << b);
            let s = x & m;
            &&& (1u64 << a) & (1u64 << b) == 0
            &&& (s == 0 || s == (1u64 << a) || s == (1u64 << b) || s == m)
            &&& m != (1u64 << a)
            &&& m != (1u64 << b)
            &&& m != 0
        }),
{
}

/// Of the two bits `a` and `b`, both are set in `x` exactly if the part of `x`
/// under the two-bit mask has two one bits.
pub proof fn lemma_popcount_two_bits(x: u64, a: u64, b: u64)
    requires
        a < 64,
        b < 64,
        a != b,
    ensures
        ({
            let m = (1u64 << a) | (1u64 << b);
            &&& popcount(m) == 2
            &&& popcount(x & m) == 2 <==> x & m == m
        }),
{
    lemma_two_bit_subsets(x, a, b);
    lemma_popcount_single_bit(a);
    lemma_popcount_single_bit(b);
    lemma_popcount_disjoint(1u64 << a, 1u64 << b);
}

/// Bit `i` of the word as a number: 1 if it is set and 0 if it is not.
#[verifier::opaque]
pub open spec fn bit_value(word: u64, i: int) -> int {
    if word & (1u64 << (i as u64)) != 0 {
        1
    } else {
        0
    }
}

/// How many of the `n` lowest bits of the word are set.
pub open spec fn bits_set(word: u64, n: int) -> int
    decreases n,
{
    if n <= 0 {
        0
    } else {
        bits_set(word, n - 1) + bit_value(word, n - 1)
    }
}

/// The `n` lowest bits of a word have as many one bits as there are bits
/// set among them.
pub proof fn lemma_popcount_by_bits(word: u64, n: int)
    requires
        0 <= n < 64,
    ensures
        popcount(word & (((1u64 << (n as u64)) - 1) as u64)) == bits_set(word, n),
    decreases n,
{
    reveal(bit_value);
    if n == 0 {
        lemma_low_bits_step(word, 0);
    } else {
        let k = (n - 1) as u64;
        let low = word & (((1u64 << k) - 1) as u64);
        lemma_popcount_by_bits(word, n - 1);
        lemma_low_bits_step(word, k);
        lemma_packed_low_bits(word, n - 1);
        lemma_packed_bit(low_bits(word, n - 1), k);
        if word & (1u64 << k) != 0 {
            lemma_popcount_single_bit(k);
            lemma_popcount_disjoint(low, 1u64 << k);
        }
    }
}

} // verus!
