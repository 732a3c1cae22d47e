//! What this library takes from `simple_sds`: the bit-packed integer vector
//! that holds the index of a container, and the length of an integer in bits.
//!
//! The functions that call `simple_sds` are not proved. Each states what the
//! `simple_sds` source shows of the function that it calls, and the proofs of
//! the library rest on these statements.

use vstd::prelude::*;
use vstd::arithmetic::power2::{lemma2_to64, lemma2_to64_rest, lemma_pow2_unfold, pow2};
use simple_sds::int_vector::IntVector;
use simple_sds::ops::{Access, Push, Vector};
use simple_sds::raw_vector::RawVector;

verus! {

/// `simple_sds::int_vector::IntVector`: a growable array of integers that
/// all take the same number of bits.
#[verifier::external_type_specification]
#[verifier::external_body]
pub struct ExIntVector(simple_sds::int_vector::IntVector);

/// The items that an integer vector holds, in order.
pub uninterp spec fn int_vector_items(v: IntVector) -> Seq<u64>;

/// The number of bits that each item of an integer vector takes.
pub uninterp spec fn int_vector_width(v: IntVector) -> nat;

/// The number of bits that the items of an integer vector take together: the
/// length of the bit array that holds them.
pub uninterp spec fn int_vector_bits(v: IntVector) -> nat;

/// The integer vector can be read: its items are 1 to 64 bits wide, and
/// together they take exactly the bits that the vector holds. A vector made
/// by the operations of `simple_sds` is of this kind; one that was loaded
/// need not be, since loading accepts any width and compares the number of
/// bits only after a multiplication that may wrap.
pub open spec fn int_vector_sound(v: IntVector) -> bool {
    &&& 1 <= int_vector_width(v) <= 64
    &&& int_vector_items(v).len() * int_vector_width(v) == int_vector_bits(v)
}

/// The length of the binary representation of `n`; that of `0` is one bit.
pub open spec fn bit_length(n: u64) -> nat
    decreases n,
{
    if n <= 1 {
        1
    } else {
        1 + bit_length(n / 2)
    }
}

/// What is left of `value` in an item of `width` bits: its lowest `width`
/// bits.
pub open spec fn low_bits(value: u64, width: nat) -> u64 {
    if width >= 64 {
        value
    } else {
        (value as nat % pow2(width)) as u64
    }
}

/// An integer is below two to the power of its length in bits, which is
/// between 1 and 64.
pub proof fn lemma_bit_length(n: u64)
    ensures
        1 <= bit_length(n) <= 64,
        n < pow2(bit_length(n)),
        low_bits(n, bit_length(n)) == n,
{
    assert(n < pow2(64)) by {
        lemma2_to64_rest();
    }
    lemma_bit_length_below(n, 64);
    lemma_bit_length_above(n);
    if bit_length(n) < 64 {
        vstd::arithmetic::div_mod::lemma_small_mod(n as nat, pow2(bit_length(n)));
    }
}

/// A byte is at most 8 bits long.
pub proof fn lemma_bit_length_small(n: u64)
    requires
        n < 256,
    ensures
        bit_length(n) <= 8,
{
    lemma2_to64();
    lemma_bit_length_below(n, 8);
}

/// An integer is below two to the power of its length in bits.
proof fn lemma_bit_length_above(n: u64)
    ensures
        n < pow2(bit_length(n)),
    decreases n,
{
    lemma2_to64();
    if n > 1 {
        lemma_bit_length_above(n / 2);
        lemma_pow2_unfold(bit_length(n));
    }
}

/// An integer below two to the power of `bits` is at most `bits` bits long.
proof fn lemma_bit_length_below(n: u64, bits: nat)
    requires
        bits >= 1,
        n < pow2(bits),
    ensures
        bit_length(n) <= bits,
    decreases n,
{
    lemma2_to64();
    lemma2_to64_rest();
    if n > 1 {
        lemma_pow2_unfold(bits);
        if bits == 1 {
            assert(false);
        }
        lemma_bit_length_below(n / 2, (bits - 1) as nat);
    }
}

/// Calls `simple_sds::bits::bit_len`, which returns the length of the binary
/// representation of `n`: 64 less the number of leading zeros of `n | 1`.
#[verifier::external_body]
pub(crate) fn bit_len(n: u64) -> (result: usize)
    ensures
        result == bit_length(n),
{
    simple_sds::bits::bit_len(n)
}

/// Calls `IntVector::with_capacity`, which returns an empty vector of the
/// given width, over an empty bit array. The source rejects a width outside
/// of 1 to 64 bits and multiplies the capacity by the width to reserve that
/// many bits: both are left out here.
#[verifier::external_body]
pub(crate) fn int_vector_with_capacity(capacity: usize, width: usize) -> (result: IntVector)
    requires
        1 <= width <= 64,
        capacity * width + 63 <= usize::MAX,
    ensures
        int_vector_items(result) == Seq::<u64>::empty(),
        int_vector_width(result) == width,
        int_vector_bits(result) == 0,
{
    IntVector::with_capacity(capacity, width).unwrap()
}

/// `Clone::clone` of `IntVector`, which the source derives: the copy holds
/// the same items at the same width in as many bits.
pub assume_specification[ <simple_sds::int_vector::IntVector as Clone>::clone ](
    v: &simple_sds::int_vector::IntVector,
) -> (result: simple_sds::int_vector::IntVector)
    ensures
        int_vector_items(result) == int_vector_items(*v),
        int_vector_width(result) == int_vector_width(*v),
        int_vector_bits(result) == int_vector_bits(*v),
;

/// Calls `Vector::width` of `IntVector`, which returns the width of an item
/// in bits.
#[verifier::external_body]
pub(crate) fn int_vector_item_width(v: &IntVector) -> (result: usize)
    ensures
        result == int_vector_width(*v),
{
    v.width()
}

/// Calls `RawVector::len` on the bit array of the vector, which `AsRef`
/// hands out: the length of the array in bits.
#[verifier::external_body]
pub(crate) fn int_vector_bit_len(v: &IntVector) -> (result: usize)
    ensures
        result == int_vector_bits(*v),
{
    let raw: &RawVector = v.as_ref();
    raw.len()
}

/// Calls `Vector::len` of `IntVector`, which returns the number of items.
#[verifier::external_body]
pub(crate) fn int_vector_len(v: &IntVector) -> (result: usize)
    ensures
        result == int_vector_items(*v).len(),
{
    v.len()
}

/// Calls `Access::get` of `IntVector`, which returns the item at `index`.
/// The source panics on an index past the end. It multiplies the index by
/// the width, reads that many bits from the words of the bit array, and
/// masks and shifts by the width: a vector whose width is not 1 to 64 bits,
/// or whose items do not take exactly the bits that it holds, is left out
/// here with the index past the end.
#[verifier::external_body]
pub(crate) fn int_vector_get(v: &IntVector, index: usize) -> (result: u64)
    requires
        int_vector_sound(*v),
        index < int_vector_items(*v).len(),
    ensures
        result == int_vector_items(*v)[index as int],
{
    v.get(index)
}

/// Calls `Push::push` of `IntVector`, which appends the lowest bits of
/// `value`, as many as the width of the vector, to the bit array, and keeps
/// the width. The source adds the width to the length in bits, and rounds
/// that up to whole words: a vector too long for that is left out here, and
/// so is one that cannot be read.
#[verifier::external_body]
pub(crate) fn int_vector_push(v: &mut IntVector, value: u64)
    requires
        int_vector_sound(*old(v)),
        (int_vector_items(*old(v)).len() + 1) * int_vector_width(*old(v)) + 63 <= usize::MAX,
    ensures
        int_vector_items(*final(v)) == int_vector_items(*old(v)).push(
            low_bits(value, int_vector_width(*old(v))),
        ),
        int_vector_width(*final(v)) == int_vector_width(*old(v)),
        int_vector_bits(*final(v)) == int_vector_bits(*old(v)) + int_vector_width(*old(v)),
{
    v.push(value)
}

} // verus!
