//! Byte strings stored one after the other, with an index of the offsets at
//! which they start.

use vstd::prelude::*;
use simple_sds::int_vector::IntVector;
use crate::sds::{
    bit_len, bit_length, int_vector_bit_len, int_vector_bits, int_vector_get,
    int_vector_item_width, int_vector_items, int_vector_len, int_vector_push, int_vector_sound,
    int_vector_width, int_vector_with_capacity, lemma_bit_length, low_bits,
};
use vstd::arithmetic::power2::pow2;

verus! {

/// The largest number of items that the library puts in a bit-packed vector:
/// with items of up to 64 bits, the length of the vector in bits must fit in
/// `usize`.
pub const MAX_ITEMS: usize = usize::MAX / 64 - 1;

/// Why the parts of a structure that were read do not form the structure.
#[derive(Copy, Clone, Debug, PartialEq, Eq, Structural)]
pub enum InvalidData {
    /// A bit-packed vector cannot be read: its items are not 1 to 64 bits
    /// wide, or they do not take exactly the bits that the vector holds.
    InvalidVector,
    /// The index holds no offset.
    EmptyIndex,
    /// Some offset of the index is lower than the one before it.
    UnsortedIndex,
    /// The index does not end at the number of bytes.
    IndexMismatch,
    /// The first string does not start at offset 0.
    FirstOffset,
    /// A packed character is not in the alphabet.
    PackedCharacter,
    /// A sorted identifier is not the identifier of a string, or the strings
    /// are not in strictly increasing order by the sorted identifiers.
    SortedIds,
    /// A key has no value.
    KeyWithoutValue,
    /// A key is not valid UTF-8.
    InvalidKey,
    /// A value is not valid UTF-8.
    InvalidValue,
    /// A key occurs twice.
    DuplicateKeys,
}

impl InvalidData {
    /// The short description of the error.
    pub open spec fn description(self) -> Seq<char> {
        match self {
            InvalidData::InvalidVector => "Invalid bit-packed vector"@,
            InvalidData::EmptyIndex => "Empty index"@,
            InvalidData::UnsortedIndex => "Index is not sorted"@,
            InvalidData::IndexMismatch => "Index / data length mismatch"@,
            InvalidData::FirstOffset => "First string does not start at offset 0"@,
            InvalidData::PackedCharacter => "Packed character is not in the alphabet"@,
            InvalidData::SortedIds => "Invalid sorted identifiers"@,
            InvalidData::KeyWithoutValue => "Key without a value"@,
            InvalidData::InvalidKey => "Invalid UTF-8 in a key"@,
            InvalidData::InvalidValue => "Invalid UTF-8 in a value"@,
            InvalidData::DuplicateKeys => "Duplicate keys"@,
        }
    }

    /// Returns a short description of the error.
    pub fn message(&self) -> (result: &'static str)
        ensures
            result@ == self.description(),
    {
        match self {
            InvalidData::InvalidVector => "Invalid bit-packed vector",
            InvalidData::EmptyIndex => "Empty index",
            InvalidData::UnsortedIndex => "Index is not sorted",
            InvalidData::IndexMismatch => "Index / data length mismatch",
            InvalidData::FirstOffset => "First string does not start at offset 0",
            InvalidData::PackedCharacter => "Packed character is not in the alphabet",
            InvalidData::SortedIds => "Invalid sorted identifiers",
            InvalidData::KeyWithoutValue => "Key without a value",
            InvalidData::InvalidKey => "Invalid UTF-8 in a key",
            InvalidData::InvalidValue => "Invalid UTF-8 in a value",
            InvalidData::DuplicateKeys => "Duplicate keys",
        }
    }
}

/// The offsets never decrease.
pub open spec fn sorted_index(index: Seq<u64>) -> bool {
    forall|i: int, j: int| 0 <= i <= j < index.len() ==> index[i] <= index[j]
}

/// The offsets are the index of `total` bytes: they start at zero, never
/// decrease, and end at `total`.
pub open spec fn valid_index(index: Seq<u64>, total: nat) -> bool {
    &&& index.len() >= 1
    &&& index[0] == 0
    &&& sorted_index(index)
    &&& index.last() == total
}

/// The byte strings that an index cuts the bytes into: string `i` runs from
/// offset `i` to offset `i + 1`.
pub open spec fn slices_of(index: Seq<u64>, data: Seq<u8>) -> Seq<Seq<u8>> {
    Seq::new(
        (index.len() - 1) as nat,
        |i: int| data.subrange(index[i] as int, index[i + 1] as int),
    )
}

/// What is wrong with an index for `total` bytes, if anything: the first of
/// its faults, in the order in which [`InvalidData`] lists them.
pub open spec fn index_fault(index: Seq<u64>, total: nat) -> Option<InvalidData> {
    if index.len() == 0 {
        Some(InvalidData::EmptyIndex)
    } else if !sorted_index(index) {
        Some(InvalidData::UnsortedIndex)
    } else if index.last() != total {
        Some(InvalidData::IndexMismatch)
    } else if index[0] != 0 {
        Some(InvalidData::FirstOffset)
    } else {
        None
    }
}

/// An index without a fault is valid, and a valid index has no fault.
pub proof fn lemma_index_fault(index: Seq<u64>, total: nat)
    ensures
        index_fault(index, total) is None <==> valid_index(index, total),
{
}

/// What is wrong with a vector that is to be the index of `total` bytes, if
/// anything: it cannot be read, or the first fault of its offsets.
pub open spec fn vector_fault(index: IntVector, total: nat) -> Option<InvalidData> {
    if !int_vector_sound(index) {
        Some(InvalidData::InvalidVector)
    } else {
        index_fault(int_vector_items(index), total)
    }
}

/// Returns `true` if the vector can be read: its items are 1 to 64 bits
/// wide and take exactly the bits that the vector holds.
pub(crate) fn is_sound(v: &IntVector) -> (result: bool)
    ensures
        result == int_vector_sound(*v),
{
    let width: usize = int_vector_item_width(v);
    if width == 0 || width > 64 {
        return false;
    }
    let bits: usize = int_vector_bit_len(v);
    match int_vector_len(v).checked_mul(width) {
        Some(needed) => needed == bits,
        None => false,
    }
}

/// Checks a vector that is to be the index of `total` bytes.
pub(crate) fn check_index(index: &IntVector, total: usize) -> (result: Option<InvalidData>)
    ensures
        result == vector_fault(*index, total as nat),
{
    if !is_sound(index) {
        return Some(InvalidData::InvalidVector);
    }
    let ghost items = int_vector_items(*index);
    let n: usize = int_vector_len(index);
    if n == 0 {
        return Some(InvalidData::EmptyIndex);
    }
    let first: u64 = int_vector_get(index, 0);
    let mut prev: u64 = first;
    let mut i: usize = 1;
    while i < n
        invariant
            int_vector_sound(*index),
            items == int_vector_items(*index),
            n == items.len(),
            1 <= i <= n,
            prev == items[i - 1],
            first == items[0],
            forall|a: int, b: int| 0 <= a <= b < i ==> items[a] <= items[b],
        decreases n - i,
    {
        let next: u64 = int_vector_get(index, i);
        if next < prev {
            assert(!(items[i - 1] <= items[i as int]));
            return Some(InvalidData::UnsortedIndex);
        }
        prev = next;
        i += 1;
    }
    if prev != total as u64 {
        return Some(InvalidData::IndexMismatch);
    }
    if first != 0 {
        return Some(InvalidData::FirstOffset);
    }
    None
}

/// An offset that does not exceed `total` is kept whole in an item as wide
/// as `total` is long.
pub proof fn lemma_low_bits_below(value: u64, total: u64)
    requires
        value <= total,
    ensures
        low_bits(value, bit_length(total)) == value,
{
    lemma_bit_length(total);
    if bit_length(total) < 64 {
        vstd::arithmetic::div_mod::lemma_small_mod(value as nat, pow2(bit_length(total)));
    }
}

/// Packs offsets that do not exceed `total` into a vector of integers as
/// wide as `total` is long.
pub(crate) fn pack_offsets(offsets: &Vec<usize>, total: usize) -> (result: IntVector)
    requires
        offsets@.len() <= MAX_ITEMS,
        forall|i: int| 0 <= i < offsets@.len() ==> #[trigger] offsets@[i] <= total,
    ensures
        int_vector_sound(result),
        int_vector_items(result).len() == offsets@.len(),
        forall|i: int|
            0 <= i < offsets@.len() ==> #[trigger] int_vector_items(result)[i] == offsets@[i],
{
    proof {
        lemma_bit_length(total as u64);
    }
    let n: usize = offsets.len();
    let width: usize = bit_len(total as u64);
    assert(n * width <= n * 64) by (nonlinear_arith)
        requires
            width <= 64,
    ;
    let mut index: IntVector = int_vector_with_capacity(n, width);
    let mut i: usize = 0;
    while i < n
        invariant
            n == offsets@.len(),
            n <= MAX_ITEMS,
            1 <= width <= 64,
            width == bit_length(total as u64),
            forall|a: int| 0 <= a < n ==> #[trigger] offsets@[a] <= total,
            i <= n,
            int_vector_width(index) == width,
            int_vector_bits(index) == i * width,
            int_vector_items(index).len() == i,
            forall|a: int| 0 <= a < i ==> #[trigger] int_vector_items(index)[a] == offsets@[a],
        decreases n - i,
    {
        let offset: usize = offsets[i];
        proof {
            assert((i + 1) * width <= n * 64) by (nonlinear_arith)
                requires
                    width <= 64,
                    i + 1 <= n,
            ;
            lemma_low_bits_below(offset as u64, total as u64);
            assert((i + 1) * width == i * width + width) by (nonlinear_arith);
        }
        int_vector_push(&mut index, offset as u64);
        i += 1;
    }
    index
}

} // verus!
