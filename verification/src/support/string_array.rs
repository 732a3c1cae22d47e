//! An immutable array of immutable strings, stored as the concatenation of
//! their bytes with an index of the offsets at which they start.

use vstd::prelude::*;
use vstd::slice::slice_subrange;
use vstd::string::StringSliceAdditionalSpecFns;
use vstd::utf8::valid_utf8;
use std::ops::Range;
use simple_sds::int_vector::IntVector;
use crate::sds::{
    bit_len, bit_length, int_vector_bits, int_vector_get, int_vector_items, int_vector_len,
    int_vector_push, int_vector_sound, int_vector_width, int_vector_with_capacity,
    lemma_bit_length,
};
use super::zeros;
use super::indexed::{
    index_fault, is_sound, lemma_index_fault, lemma_low_bits_below, pack_offsets, slices_of,
    sorted_index, valid_index, InvalidData, MAX_ITEMS,
};

verus! {

/// The bytes that packed characters stand for: each is an index into the
/// alphabet.
pub open spec fn unpacked(alphabet: Seq<u8>, packed: Seq<u64>) -> Seq<u8> {
    Seq::new(packed.len(), |i: int| alphabet[packed[i] as int])
}

/// The index of an array whose strings start at `starts` and take `total`
/// bytes together.
pub open spec fn offsets_of(starts: Seq<usize>, total: nat) -> Seq<u64> {
    Seq::new(
        starts.len() + 1,
        |i: int|
            if i < starts.len() {
                starts[i] as u64
            } else {
                total as u64
            },
    )
}

/// What is wrong with the parts of a packed array, if anything: a packed
/// character outside of the alphabet, or the first fault of the index.
pub open spec fn packed_fault(starts: Seq<usize>, alphabet: Seq<u8>, packed: Seq<u64>) -> Option<
    InvalidData,
> {
    if exists|i: int| 0 <= i < packed.len() && #[trigger] packed[i] >= alphabet.len() {
        Some(InvalidData::PackedCharacter)
    } else {
        index_fault(offsets_of(starts, packed.len()), packed.len())
    }
}

/// The width of a packed character for an alphabet of the given size: the
/// length in bits of the largest index into the alphabet.
pub open spec fn packed_width(sigma: nat) -> nat {
    bit_length(
        if sigma > 1 {
            (sigma - 1) as u64
        } else {
            0
        },
    )
}

/// What is wrong with the parts of a packed array whose packed characters
/// come in a vector, if anything: the vector cannot be read, or the first
/// fault of what it holds.
pub open spec fn parts_fault(starts: Seq<usize>, alphabet: Seq<u8>, packed: IntVector) -> Option<
    InvalidData,
> {
    if !int_vector_sound(packed) {
        Some(InvalidData::InvalidVector)
    } else {
        packed_fault(starts, alphabet, int_vector_items(packed))
    }
}

/// The alphabet of some bytes: the bytes that occur, in increasing order.
pub open spec fn is_alphabet(alphabet: Seq<u8>, data: Seq<u8>) -> bool {
    &&& forall|i: int, j: int| 0 <= i < j < alphabet.len() ==> alphabet[i] < alphabet[j]
    &&& forall|b: u8| alphabet.contains(b) <==> data.contains(b)
}

/// The parts that an array is packed into are read back as the array: the
/// offsets of a valid index without the last, an alphabet and packed
/// characters that stand for the bytes have no fault, and give the index
/// back.
pub proof fn lemma_packed_parts(
    offsets: Seq<u64>,
    bytes: Seq<u8>,
    starts: Seq<usize>,
    alphabet: Seq<u8>,
    packed: Seq<u64>,
)
    requires
        valid_index(offsets, bytes.len()),
        offsets_of(starts, bytes.len()) == offsets,
        unpacked(alphabet, packed) == bytes,
        forall|i: int| 0 <= i < packed.len() ==> (#[trigger] packed[i]) < alphabet.len(),
    ensures
        packed_fault(starts, alphabet, packed) is None,
        offsets_of(starts, packed.len()) == offsets,
        unpacked(alphabet, packed) == bytes,
{
    lemma_index_fault(offsets, bytes.len());
}

/// An immutable array of immutable strings.
///
/// The strings are concatenated and stored in a single byte vector.
/// This reduces the space overhead for the strings and the time overhead for serializing and loading them.
/// The serialization format further compresses the starting positions and compacts the alphabet in an attempt to use fewer than 8 bits per byte.
///
/// Because the bytes may come from an untrusted source, `StringArray` does not assume that the bytes are valid UTF-8 strings.
#[derive(Debug, PartialEq, Eq)]
pub struct StringArray {
    index: IntVector,
    strings: Vec<u8>,
}

impl View for StringArray {
    type V = Seq<Seq<u8>>;

    /// The bytes of each string.
    open spec fn view(&self) -> Seq<Seq<u8>> {
        slices_of(self.offsets(), self.bytes_all())
    }
}

impl Clone for StringArray {
    fn clone(&self) -> (result: Self)
        ensures
            result.offsets() == self.offsets(),
            result.bytes_all() == self.bytes_all(),
    {
        proof {
            use_type_invariant(self);
        }
        let index = self.index.clone();
        let strings = self.strings.clone();
        assert(strings@ =~= self.strings@);
        StringArray { index, strings }
    }
}

impl StringArray {
    #[verifier::type_invariant]
    spec fn inv(&self) -> bool {
        &&& int_vector_sound(self.index)
        &&& valid_index(int_vector_items(self.index), self.strings@.len())
        &&& int_vector_items(self.index).len() <= MAX_ITEMS
    }

    /// The offsets at which the strings start, and the number of bytes after
    /// them.
    pub closed spec fn offsets(&self) -> Seq<u64> {
        int_vector_items(self.index)
    }

    /// The bytes of all strings, one after the other.
    pub closed spec fn bytes_all(&self) -> Seq<u8> {
        self.strings@
    }

    /// Returns the number of strings in the array.
    #[inline]
    pub fn len(&self) -> (result: usize)
        ensures
            result == self@.len(),
            result < MAX_ITEMS,
    {
        proof {
            use_type_invariant(self);
        }
        int_vector_len(&self.index) - 1
    }

    /// Returns `true` if the array is empty.
    #[inline]
    pub fn is_empty(&self) -> (result: bool)
        ensures
            result == (self@.len() == 0),
    {
        self.len() == 0
    }

    // Returns the offset at position `i` of the index.
    fn offset(&self, i: usize) -> (result: usize)
        requires
            i <= self@.len(),
        ensures
            result == self.offsets()[i as int],
            result <= self.bytes_all().len(),
            forall|j: int| 0 <= j <= i ==> self.offsets()[j] <= result,
            forall|j: int| i <= j < self.offsets().len() ==> result <= self.offsets()[j],
    {
        proof {
            use_type_invariant(self);
        }
        let n: usize = int_vector_len(&self.index);
        let total: usize = self.strings.len();
        let result: u64 = int_vector_get(&self.index, i);
        proof {
            let items = int_vector_items(self.index);
            assert(items[i as int] <= items[n - 1]);
            assert(items.last() == items[n - 1]);
        }
        result as usize
    }

    /// Returns the length of the `i`th string in bytes.
    pub fn str_len(&self, i: usize) -> (result: usize)
        requires
            i < self@.len(),
        ensures
            result == self@[i as int].len(),
    {
        let n: usize = self.len();
        self.offset(i + 1) - self.offset(i)
    }

    /// Returns the total length of a range of strings in bytes.
    pub fn range_len(&self, strings: Range<usize>) -> (result: usize)
        requires
            strings.start <= strings.end <= self@.len(),
        ensures
            result == self.offsets()[strings.end as int] - self.offsets()[strings.start as int],
    {
        self.offset(strings.end) - self.offset(strings.start)
    }

    /// Returns a byte slice corresponding to the `i`th string.
    pub fn bytes(&self, i: usize) -> (result: &[u8])
        requires
            i < self@.len(),
        ensures
            result@ == self@[i as int],
    {
        let n: usize = self.len();
        let start: usize = self.offset(i);
        let limit: usize = self.offset(i + 1);
        slice_subrange(self.strings.as_slice(), start, limit)
    }

    /// Returns a byte slice corresponding to a range of strings.
    pub fn range(&self, strings: Range<usize>) -> (result: &[u8])
        requires
            strings.start <= strings.end <= self@.len(),
        ensures
            result@ == self.bytes_all().subrange(
                self.offsets()[strings.start as int] as int,
                self.offsets()[strings.end as int] as int,
            ),
    {
        let start: usize = self.offset(strings.start);
        let limit: usize = self.offset(strings.end);
        slice_subrange(self.strings.as_slice(), start, limit)
    }

    /// Returns a string slice corresponding to the `i`th string or an error if the bytes are not valid UTF-8.
    pub fn str(&self, i: usize) -> (result: Result<&str, core::str::Utf8Error>)
        requires
            i < self@.len(),
        ensures
            result is Ok <==> valid_utf8(self@[i as int]),
            result matches Ok(s) ==> s.spec_bytes() == self@[i as int],
    {
        core::str::from_utf8(self.bytes(i))
    }

    /// Returns a copy of the `i`th string or an error if the bytes are not valid UTF-8.
    pub fn string(&self, i: usize) -> (result: Result<String, core::str::Utf8Error>)
        requires
            i < self@.len(),
        ensures
            result is Ok <==> valid_utf8(self@[i as int]),
            result matches Ok(s) ==> s@ == vstd::utf8::decode_utf8(self@[i as int]),
    {
        match self.str(i) {
            Ok(v) => {
                proof {
                    vstd::utf8::encode_utf8_decode_utf8(v@);
                }
                Ok(v.to_owned())
            },
            Err(e) => Err(e),
        }
    }

    /// Returns an iterator over the string array.
    pub fn iter(&self) -> (result: StringIter<'_>)
        ensures
            result.strings() == self@,
            result.position() == 0,
            result.limit() == self@.len(),
    {
        StringIter { parent: self, next: 0, limit: self.len() }
    }

    // Returns (bytes to packed, packed to bytes, packed character width).
    fn alphabet(data: &[u8]) -> (result: (Vec<usize>, Vec<u8>, usize))
        ensures
            result.0@.len() == 256,
            is_alphabet(result.1@, data@),
            result.1@.len() <= 256,
            forall|b: u8|
                data@.contains(b) ==> (#[trigger] result.0@[b as int]) < result.1@.len()
                    && result.1@[result.0@[b as int] as int] == b,
            result.2 == packed_width(result.1@.len()),
    {
        // Determine the byte values that are present.
        let mut bytes_to_packed: Vec<usize> = zeros(256);
        let n: usize = data.len();
        let mut i: usize = 0;
        while i < n
            invariant
                n == data@.len(),
                i <= n,
                bytes_to_packed@.len() == 256,
                forall|b: u8|
                    (#[trigger] bytes_to_packed@[b as int]) == if data@.take(i as int).contains(b) {
                        1usize
                    } else {
                        0usize
                    },
            decreases n - i,
        {
            let byte: u8 = data[i];
            bytes_to_packed.set(byte as usize, 1);
            proof {
                assert forall|b: u8|
                    (#[trigger] bytes_to_packed@[b as int]) == if data@.take(i + 1).contains(b) {
                    1usize
                } else {
                    0usize
                } by {
                    let shorter = data@.take(i as int);
                    let longer = data@.take(i + 1);
                    assert(longer[i as int] == byte);
                    if shorter.contains(b) {
                        let k = choose|k: int| 0 <= k < shorter.len() && shorter[k] == b;
                        assert(longer[k] == b);
                    }
                    if longer.contains(b) && b != byte {
                        let k = choose|k: int| 0 <= k < longer.len() && longer[k] == b;
                        assert(shorter[k] == b);
                    }
                }
            }
            i += 1;
        }
        assert(data@.take(n as int) =~= data@);

        // Build the alphabet mappings.
        let mut packed_to_bytes: Vec<u8> = Vec::new();
        let mut index: usize = 0;
        while index < 256
            invariant
                index <= 256,
                bytes_to_packed@.len() == 256,
                packed_to_bytes@.len() <= index,
                forall|a: int, b: int|
                    0 <= a < b < packed_to_bytes@.len() ==> packed_to_bytes@[a]
                        < packed_to_bytes@[b],
                forall|a: int|
                    0 <= a < packed_to_bytes@.len() ==> (#[trigger] packed_to_bytes@[a]) < index
                        && data@.contains(packed_to_bytes@[a]),
                forall|b: u8|
                    b < index && data@.contains(b) ==> (#[trigger] bytes_to_packed@[b as int])
                        < packed_to_bytes@.len() && packed_to_bytes@[bytes_to_packed@[b as int] as int]
                        == b,
                forall|b: u8|
                    b >= index ==> (#[trigger] bytes_to_packed@[b as int]) == if data@.contains(b) {
                        1usize
                    } else {
                        0usize
                    },
            decreases 256 - index,
        {
            if bytes_to_packed[index] != 0 {
                let rank: usize = packed_to_bytes.len();
                bytes_to_packed.set(index, rank);
                packed_to_bytes.push(index as u8);
            }
            index += 1;
        }
        proof {
            assert forall|b: u8| packed_to_bytes@.contains(b) <==> data@.contains(b) by {
                if data@.contains(b) {
                    assert(packed_to_bytes@[bytes_to_packed@[b as int] as int] == b);
                }
            }
        }
        let sigma: usize = packed_to_bytes.len();
        let largest: usize = if sigma > 1 {
            sigma - 1
        } else {
            0
        };
        let width: usize = bit_len(largest as u64);
        (bytes_to_packed, packed_to_bytes, width)
    }

    /// Returns the offsets at which the strings start.
    pub fn starts(&self) -> (result: Vec<usize>)
        ensures
            result@.len() == self@.len(),
            forall|i: int| 0 <= i < result@.len() ==> #[trigger] result@[i] == self.offsets()[i],
            offsets_of(result@, self.bytes_all().len()) == self.offsets(),
    {
        proof {
            use_type_invariant(self);
        }
        let n: usize = self.len();
        let total: usize = self.strings.len();
        let mut result: Vec<usize> = Vec::with_capacity(n);
        let mut i: usize = 0;
        while i < n
            invariant
                n == self@.len(),
                i <= n,
                result@.len() == i,
                forall|a: int| 0 <= a < i ==> #[trigger] result@[a] == self.offsets()[a],
            decreases n - i,
        {
            result.push(self.offset(i));
            i += 1;
        }
        proof {
            assert(self.offsets().last() == self.offsets()[n as int]);
            assert(offsets_of(result@, total as nat) =~= self.offsets());
        }
        result
    }

    /// Returns the alphabet of the bytes of the array and the bytes as
    /// packed characters: each is the index of a byte in the alphabet, in as
    /// few bits as the largest index takes.
    ///
    /// The packed characters must fit in a bit-packed vector.
    pub fn pack(&self) -> (result: (Vec<u8>, IntVector))
        requires
            self.bytes_all().len() * 8 + 63 <= usize::MAX,
        ensures
            is_alphabet(result.0@, self.bytes_all()),
            int_vector_sound(result.1),
            forall|i: int|
                0 <= i < int_vector_items(result.1).len() ==> (#[trigger] int_vector_items(
                    result.1,
                )[i]) < result.0@.len(),
            unpacked(result.0@, int_vector_items(result.1)) == self.bytes_all(),
            int_vector_width(result.1) == packed_width(result.0@.len()),
    {
        let (pack, alphabet, width) = Self::alphabet(self.strings.as_slice());
        let n: usize = self.strings.len();
        let ghost largest: u64 = if alphabet@.len() > 1 {
            (alphabet@.len() - 1) as u64
        } else {
            0
        };
        proof {
            lemma_bit_length(largest);
            crate::sds::lemma_bit_length_small(largest);
        }
        assert(n * width <= n * 8) by (nonlinear_arith)
            requires
                width <= 8,
        ;
        let mut packed: IntVector = int_vector_with_capacity(n, width);
        let mut i: usize = 0;
        while i < n
            invariant
                n == self.strings@.len(),
                n * 8 + 63 <= usize::MAX,
                i <= n,
                alphabet@.len() <= 256,
                1 <= width <= 8,
                width == bit_length(largest),
                largest == if alphabet@.len() > 1 {
                    (alphabet@.len() - 1) as u64
                } else {
                    0
                },
                pack@.len() == 256,
                forall|b: u8|
                    self.strings@.contains(b) ==> (#[trigger] pack@[b as int]) < alphabet@.len()
                        && alphabet@[pack@[b as int] as int] == b,
                int_vector_width(packed) == width,
                int_vector_bits(packed) == i * width,
                int_vector_items(packed).len() == i,
                forall|a: int|
                    0 <= a < i ==> (#[trigger] int_vector_items(packed)[a]) < alphabet@.len()
                        && alphabet@[int_vector_items(packed)[a] as int] == self.strings@[a],
            decreases n - i,
        {
            let byte: u8 = self.strings[i];
            let code: usize = pack[byte as usize];
            proof {
                assert(self.strings@.contains(byte));
                assert(pack@[byte as int] < alphabet@.len());
                assert((i + 1) * width <= n * 8) by (nonlinear_arith)
                    requires
                        width <= 8,
                        i + 1 <= n,
                ;
                lemma_low_bits_below(code as u64, largest);
                assert((i + 1) * width == i * width + width) by (nonlinear_arith);
            }
            int_vector_push(&mut packed, code as u64);
            i += 1;
        }
        proof {
            assert(unpacked(alphabet@, int_vector_items(packed)) =~= self.strings@);
        }
        (alphabet, packed)
    }

    /// Builds the array from its packed parts: the offsets at which the
    /// strings start, the alphabet, and the bytes as packed characters.
    ///
    /// The packed characters must come in a vector that can be read, and
    /// every one of them must be in the alphabet. The first string, or the
    /// end where there is no string, must be at offset 0, and the offsets
    /// must neither decrease nor exceed the number of packed characters.
    /// Else the error tells the first of these that does not hold.
    /// There must be fewer strings than a bit-packed vector takes items.
    pub fn from_packed(starts: &[usize], alphabet: &[u8], packed: &IntVector) -> (result: Result<
        Self,
        InvalidData,
    >)
        requires
            starts@.len() < MAX_ITEMS,
        ensures
            match result {
                Ok(array) => {
                    &&& parts_fault(starts@, alphabet@, *packed) is None
                    &&& array.offsets() == offsets_of(starts@, int_vector_items(*packed).len())
                    &&& array.bytes_all() == unpacked(alphabet@, int_vector_items(*packed))
                },
                Err(error) => parts_fault(starts@, alphabet@, *packed) == Some(error),
            },
    {
        if !is_sound(packed) {
            return Err(InvalidData::InvalidVector);
        }
        let ghost items = int_vector_items(*packed);
        // Decompress the strings.
        let total: usize = int_vector_len(packed);
        let sigma: usize = alphabet.len();
        let mut strings: Vec<u8> = Vec::with_capacity(total);
        let mut i: usize = 0;
        while i < total
            invariant
                int_vector_sound(*packed),
                items == int_vector_items(*packed),
                total == items.len(),
                sigma == alphabet@.len(),
                i <= total,
                strings@.len() == i,
                forall|a: int|
                    0 <= a < i ==> (#[trigger] items[a]) < sigma && strings@[a]
                        == alphabet@[items[a] as int],
            decreases total - i,
        {
            let code: u64 = int_vector_get(packed, i);
            if code >= sigma as u64 {
                return Err(InvalidData::PackedCharacter);
            }
            strings.push(alphabet[code as usize]);
            i += 1;
        }
        assert(strings@ =~= unpacked(alphabet@, items));

        // Decompress the index.
        let n: usize = starts.len();
        let ghost wanted = offsets_of(starts@, total as nat);
        let mut offsets: Vec<usize> = Vec::with_capacity(n + 1);
        let mut prev: usize = 0;
        let mut i: usize = 0;
        while i < n
            invariant
                n == starts@.len(),
                wanted == offsets_of(starts@, total as nat),
                i <= n,
                offsets@.len() == i,
                forall|a: int| 0 <= a < i ==> #[trigger] offsets@[a] == starts@[a],
                forall|a: int, b: int| 0 <= a <= b < i ==> starts@[a] <= starts@[b],
                i > 0 ==> prev == starts@[i - 1],
                i == 0 ==> prev == 0,
                forall|a: int| 0 <= a < total ==> (#[trigger] items[a]) < sigma,
                int_vector_sound(*packed),
                items == int_vector_items(*packed),
                total == items.len(),
                sigma == alphabet@.len(),
            decreases n - i,
        {
            let start: usize = starts[i];
            if start < prev {
                proof {
                    assert(!(wanted[i - 1] <= wanted[i as int]));
                }
                return Err(InvalidData::UnsortedIndex);
            }
            offsets.push(start);
            prev = start;
            i += 1;
        }
        if prev > total {
            proof {
                assert(!(wanted[n - 1] <= wanted[n as int]));
            }
            return Err(InvalidData::UnsortedIndex);
        }
        offsets.push(total);
        proof {
            assert(sorted_index(wanted));
            assert(wanted.last() == total);
        }
        if offsets[0] != 0 {
            return Err(InvalidData::FirstOffset);
        }
        proof {
            assert forall|a: int| 0 <= a < offsets@.len() implies #[trigger] offsets@[a]
                <= total by {
                assert(wanted[a] <= wanted[n as int]);
            }
        }
        let index: IntVector = pack_offsets(&offsets, total);
        proof {
            assert(int_vector_items(index) =~= wanted);
            lemma_index_fault(wanted, total as nat);
        }
        Ok(StringArray { index, strings })
    }

    /// Builds the array of the given strings.
    ///
    /// There must be fewer strings than a bit-packed vector takes items.
    pub fn from_strs(source: &[&str]) -> (result: Self)
        requires
            source@.len() < MAX_ITEMS,
        ensures
            result@ == Seq::new(source@.len(), |i: int| source@[i].spec_bytes()),
    {
        let n: usize = source.len();
        let mut strings: Vec<u8> = Vec::new();
        let mut offsets: Vec<usize> = Vec::with_capacity(n + 1);
        offsets.push(0);
        let mut i: usize = 0;
        while i < n
            invariant
                n == source@.len(),
                i <= n,
                offsets@.len() == i + 1,
                offsets@[0] == 0,
                offsets@[i as int] == strings@.len(),
                forall|a: int, b: int| 0 <= a <= b <= i ==> offsets@[a] <= offsets@[b],
                forall|a: int|
                    0 <= a < i ==> strings@.subrange(offsets@[a] as int, offsets@[a + 1] as int)
                        == (#[trigger] source@[a]).spec_bytes(),
            decreases n - i,
        {
            let ghost before = strings@;
            strings.extend_from_slice(source[i].as_bytes());
            offsets.push(strings.len());
            proof {
                assert forall|a: int| 0 <= a < i + 1 implies strings@.subrange(
                    offsets@[a] as int,
                    offsets@[a + 1] as int,
                ) == (#[trigger] source@[a]).spec_bytes() by {
                    if a < i {
                        assert(offsets@[a] <= offsets@[a + 1] <= offsets@[i as int]);
                        assert(strings@.subrange(offsets@[a] as int, offsets@[a + 1] as int)
                            =~= before.subrange(offsets@[a] as int, offsets@[a + 1] as int));
                    } else {
                        assert(strings@.subrange(offsets@[a] as int, offsets@[a + 1] as int)
                            =~= source@[a].spec_bytes());
                    }
                }
            }
            i += 1;
        }
        let total: usize = strings.len();
        let index: IntVector = pack_offsets(&offsets, total);
        proof {
            let items = int_vector_items(index);
            assert(items.last() == items[n as int]);
            assert(valid_index(items, total as nat));
        }
        let result = StringArray { index, strings };
        proof {
            assert(result@ =~= Seq::new(source@.len(), |i: int| source@[i].spec_bytes())) by {
                assert forall|a: int| 0 <= a < n implies result@[a] == source@[a].spec_bytes() by {
                    assert(int_vector_items(result.index)[a] == offsets@[a]);
                    assert(int_vector_items(result.index)[a + 1] == offsets@[a + 1]);
                }
            }
        }
        result
    }
}

//-----------------------------------------------------------------------------

/// A read-only iterator over [`StringArray`], from both ends.
///
/// The items are the byte slices of the strings.
#[derive(Debug)]
pub struct StringIter<'a> {
    parent: &'a StringArray,
    // The first index we have not used.
    next: usize,
    // The first index we should not use.
    limit: usize,
}

impl<'a> Clone for StringIter<'a> {
    fn clone(&self) -> (result: Self)
        ensures
            result == *self,
    {
        proof {
            use_type_invariant(self);
        }
        StringIter { parent: self.parent, next: self.next, limit: self.limit }
    }
}

impl<'a> StringIter<'a> {
    #[verifier::type_invariant]
    spec fn inv(&self) -> bool {
        self.next <= self.limit <= self.parent@.len()
    }

    /// The strings of the array that is iterated over.
    pub closed spec fn strings(&self) -> Seq<Seq<u8>> {
        self.parent@
    }

    /// The first index that has not been visited from the front.
    pub closed spec fn position(&self) -> int {
        self.next as int
    }

    /// The first index that has been visited from the back, or the number
    /// of strings.
    pub closed spec fn limit(&self) -> int {
        self.limit as int
    }

    /// Returns the next string from the front, or `None` if every string
    /// has been visited.
    pub fn next(&mut self) -> (result: Option<&'a [u8]>)
        ensures
            final(self).strings() == old(self).strings(),
            final(self).limit() == old(self).limit(),
            0 <= old(self).position() <= old(self).limit() <= old(self).strings().len(),
            match result {
                Some(bytes) => {
                    &&& old(self).position() < old(self).limit()
                    &&& bytes@ == old(self).strings()[old(self).position()]
                    &&& final(self).position() == old(self).position() + 1
                },
                None => {
                    &&& old(self).position() == old(self).limit()
                    &&& final(self).position() == old(self).position()
                },
            },
    {
        proof {
            use_type_invariant(&*self);
        }
        if self.next >= self.limit {
            None
        } else {
            let result = Some(self.parent.bytes(self.next));
            self.next += 1;
            result
        }
    }

    /// Returns the next string from the back, or `None` if every string has
    /// been visited.
    pub fn next_back(&mut self) -> (result: Option<&'a [u8]>)
        ensures
            final(self).strings() == old(self).strings(),
            final(self).position() == old(self).position(),
            0 <= old(self).position() <= old(self).limit() <= old(self).strings().len(),
            match result {
                Some(bytes) => {
                    &&& old(self).position() < old(self).limit()
                    &&& bytes@ == old(self).strings()[old(self).limit() - 1]
                    &&& final(self).limit() == old(self).limit() - 1
                },
                None => {
                    &&& old(self).position() == old(self).limit()
                    &&& final(self).limit() == old(self).limit()
                },
            },
    {
        proof {
            use_type_invariant(&*self);
        }
        if self.next >= self.limit {
            None
        } else {
            self.limit -= 1;
            Some(self.parent.bytes(self.limit))
        }
    }

    /// Returns the number of strings that have not been visited.
    #[inline]
    pub fn len(&self) -> (result: usize)
        ensures
            result == self.limit() - self.position(),
    {
        proof {
            use_type_invariant(self);
        }
        self.limit - self.next
    }
}

} // verus!
