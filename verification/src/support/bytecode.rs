//! Variable-length integers: little-endian groups of seven bits, with the high
//! bit of a byte set when another group follows.

use vstd::prelude::*;
use vstd::std_specs::convert::FromSpecImpl;

verus! {

/// The bytes that encode `value`: its seven-bit groups from the lowest up,
/// each but the last with the high bit set.
pub open spec fn int_encoding(value: nat) -> Seq<u8>
    decreases value,
{
    if value < 128 {
        seq![value as u8]
    } else {
        seq![(value % 128 + 128) as u8] + int_encoding(value / 128)
    }
}

/// The integer that starts at position `start` of `bytes`, with the position
/// of the first byte after it; `None` when the bytes end before a byte
/// without the high bit.
pub open spec fn int_decoding(bytes: Seq<u8>, start: int) -> Option<(nat, int)>
    decreases bytes.len() - start,
{
    if start < 0 || start >= bytes.len() {
        None
    } else if bytes[start] < 128 {
        Some((bytes[start] as nat, start + 1))
    } else {
        match int_decoding(bytes, start + 1) {
            Some((rest, next)) => Some(((bytes[start] - 128) as nat + 128 * rest, next)),
            None => None,
        }
    }
}

/// What a decoder that has read the groups worth `acc` so far, the next of
/// them weighing `weight`, makes of the rest `tail` of the integer.
pub open spec fn int_resume(tail: Option<(nat, int)>, acc: nat, weight: nat) -> Option<(nat, int)> {
    match tail {
        Some((rest, next)) => Some((acc + weight * rest, next)),
        None => None,
    }
}

/// Reading one more byte with the high bit set moves its seven bits into the
/// accumulated value and multiplies the weight by 128.
pub proof fn lemma_int_resume_step(bytes: Seq<u8>, pos: int, acc: nat, weight: nat)
    requires
        0 <= pos < bytes.len(),
        bytes[pos] >= 128,
    ensures
        int_resume(int_decoding(bytes, pos), acc, weight) == int_resume(
            int_decoding(bytes, pos + 1),
            acc + weight * ((bytes[pos] - 128) as nat),
            weight * 128,
        ),
{
    let d = (bytes[pos] - 128) as nat;
    match int_decoding(bytes, pos + 1) {
        Some((rest, next)) => {
            assert(acc + weight * (d + 128 * rest) == acc + weight * d + (weight * 128) * rest)
                by (nonlinear_arith);
        },
        None => {},
    }
}

/// A decoded integer ends after its first byte at the earliest and inside the
/// bytes at the latest.
pub proof fn lemma_int_decoding_bounds(bytes: Seq<u8>, start: int)
    ensures
        int_decoding(bytes, start) matches Some((_, next)) ==> 0 <= start < next <= bytes.len(),
    decreases bytes.len() - start,
{
    if 0 <= start < bytes.len() && bytes[start] >= 128 {
        lemma_int_decoding_bounds(bytes, start + 1);
    }
}

/// An encoding is never empty.
pub proof fn lemma_int_encoding_len(value: nat)
    ensures
        int_encoding(value).len() >= 1,
    decreases value,
{
    if value >= 128 {
        lemma_int_encoding_len(value / 128);
    }
}

/// Decoding inverts encoding, wherever the encoding stands among other bytes:
/// after any `prefix` and before any `suffix`, the encoding of `value` decodes
/// to `value` and ends where the suffix begins.
pub proof fn lemma_int_round_trip(prefix: Seq<u8>, value: nat, suffix: Seq<u8>)
    ensures
        int_decoding(prefix + int_encoding(value) + suffix, prefix.len() as int) == Some(
            (value, (prefix.len() + int_encoding(value).len()) as int),
        ),
    decreases value,
{
    let bytes = prefix + int_encoding(value) + suffix;
    let start = prefix.len() as int;
    lemma_int_encoding_len(value);
    assert(bytes[start] == int_encoding(value)[0]);
    if value < 128 {
        assert(int_encoding(value).len() == 1);
    } else {
        let head = seq![(value % 128 + 128) as u8];
        let rest = int_encoding(value / 128);
        assert(prefix + int_encoding(value) + suffix =~= (prefix + head) + rest + suffix);
        lemma_int_round_trip(prefix + head, value / 128, suffix);
        assert(bytes[start] == (value % 128 + 128) as u8);
        assert(int_encoding(value).len() == 1 + rest.len());
    }
}

/// The encodings of the integers of `values`, one after the other.
pub open spec fn ints_encoding(values: Seq<nat>) -> Seq<u8>
    decreases values.len(),
{
    if values.len() == 0 {
        Seq::<u8>::empty()
    } else {
        ints_encoding(values.drop_last()) + int_encoding(values.last())
    }
}

/// The integers that a decoder yields from position `start` on, until the
/// bytes are exhausted.
pub open spec fn ints_decoding(bytes: Seq<u8>, start: int) -> Seq<nat>
    decreases bytes.len() - start,
{
    match int_decoding(bytes, start) {
        Some((value, next)) => {
            if start < next <= bytes.len() {
                seq![value] + ints_decoding(bytes, next)
            } else {
                Seq::<nat>::empty()
            }
        },
        None => Seq::<nat>::empty(),
    }
}

/// The first `count` integers from position `start` on, with the position of
/// the first byte after them; `None` when the bytes hold fewer.
pub open spec fn ints_at(bytes: Seq<u8>, start: int, count: nat) -> Option<(Seq<nat>, int)>
    decreases count,
{
    if count == 0 {
        Some((Seq::<nat>::empty(), start))
    } else {
        match ints_at(bytes, start, (count - 1) as nat) {
            Some((values, middle)) => match int_decoding(bytes, middle) {
                Some((value, next)) => Some((values.push(value), next)),
                None => None,
            },
            None => None,
        }
    }
}

/// Where `count` integers can be read, so can fewer, and they are the first
/// of the `count`; each integer takes a byte at least.
pub proof fn lemma_ints_at_prefix(bytes: Seq<u8>, start: int, fewer: nat, count: nat)
    requires
        fewer <= count,
        0 <= start,
        ints_at(bytes, start, count) is Some,
    ensures
        ints_at(bytes, start, count) matches Some((values, next)) && ints_at(bytes, start, fewer)
            matches Some((first, middle)) && {
            &&& first == values.take(fewer as int)
            &&& values.len() == count
            &&& start + fewer <= middle
            &&& middle + (count - fewer) <= next
            &&& count > 0 ==> next <= bytes.len()
        },
    decreases count,
{
    if count == 0 {
        let values = ints_at(bytes, start, count).unwrap().0;
        assert(values.take(0) =~= values);
    } else {
        let (init, middle) = ints_at(bytes, start, (count - 1) as nat).unwrap();
        let (value, next) = int_decoding(bytes, middle).unwrap();
        lemma_int_decoding_bounds(bytes, middle);
        if fewer == count {
            lemma_ints_at_prefix(bytes, start, (count - 1) as nat, (count - 1) as nat);
            assert(init.push(value).take(count as int) =~= init.push(value));
        } else {
            lemma_ints_at_prefix(bytes, start, fewer, (count - 1) as nat);
            assert(init.push(value).take(fewer as int) =~= init.take(fewer as int));
        }
    }
}

/// Before any `suffix`, the encodings of `values` decode to `values`, one by
/// one, and end where the suffix begins.
pub proof fn lemma_ints_at_round_trip(prefix: Seq<u8>, values: Seq<nat>, suffix: Seq<u8>)
    ensures
        ints_at(prefix + ints_encoding(values) + suffix, prefix.len() as int, values.len())
            == Some((values, (prefix.len() + ints_encoding(values).len()) as int)),
    decreases values.len(),
{
    let bytes = prefix + ints_encoding(values) + suffix;
    if values.len() > 0 {
        let init = values.drop_last();
        let last = values.last();
        let init_code = ints_encoding(init);
        let last_code = int_encoding(last);
        assert(bytes =~= prefix + init_code + (last_code + suffix));
        lemma_ints_at_round_trip(prefix, init, last_code + suffix);
        assert(bytes =~= (prefix + init_code) + last_code + suffix);
        lemma_int_round_trip(prefix + init_code, last, suffix);
        assert(init.push(last) =~= values);
    }
}

/// Before any `suffix`, the encodings of `values` decode to `values` followed
/// by what the suffix decodes to.
pub proof fn lemma_ints_round_trip_before(prefix: Seq<u8>, values: Seq<nat>, suffix: Seq<u8>)
    ensures
        ints_decoding(prefix + ints_encoding(values) + suffix, prefix.len() as int) == values
            + ints_decoding(
            prefix + ints_encoding(values) + suffix,
            (prefix.len() + ints_encoding(values).len()) as int,
        ),
    decreases values.len(),
{
    let bytes = prefix + ints_encoding(values) + suffix;
    let start = prefix.len() as int;
    if values.len() == 0 {
        assert(values + ints_decoding(bytes, start) =~= ints_decoding(bytes, start));
    } else {
        let init = values.drop_last();
        let last = values.last();
        let init_code = ints_encoding(init);
        let last_code = int_encoding(last);
        assert(bytes =~= prefix + init_code + (last_code + suffix));
        lemma_ints_round_trip_before(prefix, init, last_code + suffix);
        let middle = (prefix.len() + init_code.len()) as int;
        assert(bytes =~= (prefix + init_code) + last_code + suffix);
        lemma_int_round_trip(prefix + init_code, last, suffix);
        lemma_int_encoding_len(last);
        let end = middle + last_code.len();
        assert(ints_decoding(bytes, middle) =~= seq![last] + ints_decoding(bytes, end));
        assert(init + (seq![last] + ints_decoding(bytes, end)) =~= values + ints_decoding(
            bytes,
            end,
        ));
    }
}

/// Decoding a sequence of encoded integers gives the sequence back, wherever
/// the encodings start.
pub proof fn lemma_ints_round_trip(prefix: Seq<u8>, values: Seq<nat>)
    ensures
        ints_decoding(prefix + ints_encoding(values), prefix.len() as int) == values,
{
    lemma_ints_round_trip_before(prefix, values, Seq::<u8>::empty());
    assert(prefix + ints_encoding(values) + Seq::<u8>::empty() =~= prefix + ints_encoding(
        values,
    ));
    let bytes = prefix + ints_encoding(values);
    assert(int_decoding(bytes, bytes.len() as int) is None);
    assert(ints_decoding(bytes, bytes.len() as int) =~= Seq::<nat>::empty());
    assert(values + Seq::<nat>::empty() =~= values);
}

//-----------------------------------------------------------------------------

/// A variable-length encoder for unsigned integers.
///
/// `ByteCode` encodes an integer as a sequence of bytes in little-endian order and stores it in the internal [`Vec`].
/// Each byte contains 7 bits of data, and the high bit indicates whether the encoding continues.
/// Raw bytes can be appended to the encoding using [`ByteCode::write_byte`].
#[derive(Debug, PartialEq, Eq)]
pub struct ByteCode {
    bytes: Vec<u8>,
}

impl Clone for ByteCode {
    fn clone(&self) -> (result: Self)
        ensures
            result@ == self@,
    {
        let bytes: Vec<u8> = self.bytes.clone();
        assert(bytes@ =~= self.bytes@);
        ByteCode { bytes }
    }
}

impl View for ByteCode {
    type V = Seq<u8>;

    /// The bytes written so far.
    closed spec fn view(&self) -> Seq<u8> {
        self.bytes@
    }
}

impl Default for ByteCode {
    fn default() -> (result: Self)
        ensures
            result@ == Seq::<u8>::empty(),
    {
        ByteCode { bytes: Vec::new() }
    }
}

impl ByteCode {
    /// Creates a new encoder.
    pub fn new() -> (result: Self)
        ensures
            result@ == Seq::<u8>::empty(),
    {
        ByteCode { bytes: Vec::new() }
    }

    /// Encodes `value` and stores the encoding.
    pub fn write(&mut self, value: usize)
        ensures
            final(self)@ == old(self)@ + int_encoding(value as nat),
    {
        let mut value: usize = value;
        let ghost start = self.bytes@;
        let ghost whole = int_encoding(value as nat);
        while value > 0x7F
            invariant
                self.bytes@ + int_encoding(value as nat) == start + whole,
            decreases value,
        {
            let low: u8 = (value & 0x7F) as u8;
            assert(value & 0x7F == value % 128) by (bit_vector);
            assert(low | 0x80 == low + 128) by (bit_vector)
                requires
                    low < 128,
            ;
            assert(value >> 7 == value / 128) by (bit_vector);
            proof {
                let head = seq![(value % 128 + 128) as u8];
                assert(self.bytes@.push(low | 0x80) + int_encoding((value / 128) as nat)
                    =~= self.bytes@ + (head + int_encoding((value / 128) as nat)));
            }
            self.bytes.push(low | 0x80);
            value = value >> 7;
        }
        proof {
            assert(self.bytes@.push(value as u8) =~= self.bytes@ + int_encoding(value as nat));
        }
        self.bytes.push(value as u8);
    }

    /// Appends a byte to the encoding.
    pub fn write_byte(&mut self, byte: u8)
        ensures
            final(self)@ == old(self)@.push(byte),
    {
        self.bytes.push(byte);
    }

    /// Returns the total number of bytes in the encoding.
    #[inline]
    pub fn len(&self) -> (result: usize)
        ensures
            result == self@.len(),
    {
        self.bytes.len()
    }

    /// Returns `true` if the encoding is empty.
    #[inline]
    pub fn is_empty(&self) -> (result: bool)
        ensures
            result == (self@.len() == 0),
    {
        self.bytes.len() == 0
    }
}

impl AsRef<[u8]> for ByteCode {
    #[inline]
    fn as_ref(&self) -> (result: &[u8])
        ensures
            result@ == self@,
    {
        self.bytes.as_slice()
    }
}

impl From<ByteCode> for Vec<u8> {
    fn from(source: ByteCode) -> (result: Self)
        ensures
            result@ == source@,
    {
        source.bytes
    }
}

impl FromSpecImpl<ByteCode> for Vec<u8> {
    open spec fn obeys_from_spec() -> bool {
        true
    }

    closed spec fn from_spec(source: ByteCode) -> Self {
        source.bytes
    }
}

//-----------------------------------------------------------------------------

/// A cursor that decodes integers from a byte slice encoded by [`ByteCode`].
///
/// Raw bytes can be read from the encoding using [`ByteCodeIter::byte`].
/// An integer that runs past the end of the slice, or whose value does not
/// fit in `usize`, exhausts the cursor: nothing is returned and no byte is
/// left to read.
#[derive(Debug)]
pub struct ByteCodeIter<'a> {
    bytes: &'a [u8],
    offset: usize,
}

impl<'a> Clone for ByteCodeIter<'a> {
    fn clone(&self) -> (result: Self)
        ensures
            result == *self,
    {
        proof {
            use_type_invariant(self);
        }
        ByteCodeIter { bytes: self.bytes, offset: self.offset }
    }
}

impl<'a> ByteCodeIter<'a> {
    #[verifier::type_invariant]
    spec fn inv(&self) -> bool {
        self.offset <= self.bytes@.len()
    }

    /// The bytes that the cursor reads.
    pub closed spec fn source(&self) -> Seq<u8> {
        self.bytes@
    }

    /// The position of the first byte that has not been read.
    pub closed spec fn position(&self) -> int {
        self.offset as int
    }

    /// Returns an iterator over the byte slice.
    pub fn new(bytes: &'a [u8]) -> (result: Self)
        ensures
            result.source() == bytes@,
            result.position() == 0,
    {
        ByteCodeIter { bytes, offset: 0 }
    }

    /// Returns the next byte from the slice, or `None` if there are no more bytes left.
    pub fn byte(&mut self) -> (result: Option<u8>)
        ensures
            final(self).source() == old(self).source(),
            0 <= old(self).position() <= old(self).source().len(),
            result == if old(self).position() < old(self).source().len() {
                Some(old(self).source()[old(self).position()])
            } else {
                None
            },
            final(self).position() == if result is Some {
                old(self).position() + 1
            } else {
                old(self).position()
            },
    {
        proof {
            use_type_invariant(&*self);
        }
        if self.offset >= self.bytes.len() {
            return None;
        }
        let result = Some(self.bytes[self.offset]);
        self.offset += 1;
        result
    }

    /// Moves the cursor to the end of the slice.
    pub(crate) fn exhaust(&mut self)
        ensures
            final(self).source() == old(self).source(),
            final(self).position() == old(self).source().len(),
    {
        self.offset = self.bytes.len();
    }

    /// Returns the first unvisited offset in the byte slice.
    #[inline]
    pub fn offset(&self) -> (result: usize)
        ensures
            result == self.position(),
            result <= self.source().len(),
    {
        proof {
            use_type_invariant(self);
        }
        self.offset
    }

    /// Returns the next integer, or `None` if the bytes end before the
    /// integer does or its value does not fit in `usize`; in both cases the
    /// cursor is then at the end of the slice.
    pub fn next(&mut self) -> (result: Option<usize>)
        ensures
            final(self).source() == old(self).source(),
            match int_decoding(old(self).source(), old(self).position()) {
                Some((value, next)) => if value <= usize::MAX {
                    result == Some(value as usize) && final(self).position() == next
                } else {
                    result is None && final(self).position() == old(self).source().len()
                },
                None => result is None && final(self).position() == old(self).source().len(),
            },
    {
        proof {
            use_type_invariant(&*self);
        }
        let n: usize = self.bytes.len();
        let ghost start = self.offset as int;
        let ghost bytes = self.bytes@;
        let ghost acc: nat = 0;
        let ghost weight: nat = 1;
        let mut result: usize = 0;
        let mut scale: Option<usize> = Some(1);
        assert(int_resume(int_decoding(bytes, start), 0, 1) == int_decoding(bytes, start)) by {
            match int_decoding(bytes, start) {
                Some((rest, next)) => {
                    assert(0 + 1 * rest == rest);
                },
                None => {},
            }
        }
        while self.offset < n
            invariant
                n == bytes.len(),
                self.bytes@ == bytes,
                old(self).bytes@ == bytes,
                old(self).offset == start,
                start <= self.offset <= n,
                int_decoding(bytes, start) == int_resume(
                    int_decoding(bytes, self.offset as int),
                    acc,
                    weight,
                ),
                result == acc,
                weight >= 1,
                match scale {
                    Some(s) => s == weight,
                    None => weight > usize::MAX,
                },
            decreases n - self.offset,
        {
            let b: u8 = self.bytes[self.offset];
            let ghost pos = self.offset as int;
            self.offset += 1;
            let d: usize = (b & 0x7F) as usize;
            assert(b & 0x7F == if b >= 128 { (b - 128) as u8 } else { b }) by (bit_vector);
            assert((b & 0x80 == 0) == (b < 128)) by (bit_vector);
            // The value with this byte's bits added, if it still fits.
            let sum: Option<usize> = if d == 0 {
                assert(weight * 0 == 0);
                Some(result)
            } else {
                match scale {
                    Some(s) => match s.checked_mul(d) {
                        Some(term) => result.checked_add(term),
                        None => None,
                    },
                    None => {
                        assert(weight * d >= weight) by (nonlinear_arith)
                            requires
                                d >= 1,
                                weight >= 0,
                        ;
                        None
                    },
                }
            };
            match sum {
                Some(total) => {
                    assert(total == acc + weight * (d as nat));
                    if b & 0x80 == 0 {
                        assert(int_decoding(bytes, pos) == Some((d as nat, pos + 1)));
                        return Some(total);
                    }
                    proof {
                        lemma_int_resume_step(bytes, pos, acc, weight);
                        acc = acc + weight * (d as nat);
                        weight = weight * 128;
                    }
                    result = total;
                    scale = match scale {
                        Some(s) => s.checked_mul(128),
                        None => None,
                    };
                },
                None => {
                    proof {
                        assert(acc + weight * (d as nat) > usize::MAX);
                        if b >= 128 {
                            lemma_int_resume_step(bytes, pos, acc, weight);
                            match int_decoding(bytes, pos + 1) {
                                Some((rest, next)) => {
                                    assert((weight * 128) * rest >= 0) by (nonlinear_arith)
                                        requires
                                            weight >= 0,
                                            rest >= 0,
                                    ;
                                },
                                None => {},
                            }
                        }
                    }
                    self.offset = n;
                    return None;
                },
            }
        }
        None
    }
}

} // verus!
