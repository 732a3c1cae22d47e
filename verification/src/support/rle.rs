//! Run-length encoding of (value, length) runs over an alphabet of known size.
//!
//! With a small alphabet a short run takes a single byte; a long run takes
//! that byte at its largest length and the rest of the length as a
//! variable-length integer. With a large alphabet the value and the length
//! are two variable-length integers.

use vstd::prelude::*;
use vstd::arithmetic::div_mod::lemma_fundamental_div_mod_converse;
use vstd::std_specs::convert::FromSpecImpl;
use super::Run;
use super::bytecode::{
    int_decoding, int_encoding, lemma_int_decoding_bounds, lemma_int_encoding_len,
    lemma_int_round_trip, ByteCode, ByteCodeIter,
};

verus! {

/// Alphabets of at least this size are large: runs over them are written as
/// two integers.
pub const THRESHOLD: usize = 255;

/// The number of values that a byte can hold.
pub const UNIVERSE: usize = 256;

/// The alphabet size that the codec works with: `0` stands for a large
/// alphabet of unknown size.
pub open spec fn effective_sigma(sigma: usize) -> usize {
    if sigma == 0 {
        usize::MAX
    } else {
        sigma
    }
}

/// The run length from which a run over an alphabet of (effective) size
/// `sigma` no longer fits in one byte; `0` for a large alphabet.
pub open spec fn run_threshold(sigma: usize) -> usize {
    if 0 < sigma < THRESHOLD {
        (UNIVERSE / sigma) as usize
    } else {
        0
    }
}

/// The byte that packs a value and a short length.
pub open spec fn packed_run(sigma: usize, value: usize, len: usize) -> u8 {
    (value + sigma * (len - 1)) as u8
}

/// The bytes that encode `run` over an alphabet of (effective) size `sigma`.
/// An empty run has no encoding.
pub open spec fn run_encoding(sigma: usize, run: Run) -> Seq<u8> {
    if run.len == 0 {
        Seq::<u8>::empty()
    } else if sigma >= THRESHOLD {
        int_encoding(run.value as nat) + int_encoding((run.len - 1) as nat)
    } else if run.len < run_threshold(sigma) {
        seq![packed_run(sigma, run.value, run.len)]
    } else {
        seq![packed_run(sigma, run.value, run_threshold(sigma))] + int_encoding(
            (run.len - run_threshold(sigma)) as nat,
        )
    }
}

/// The run that starts at position `start` of `bytes`, as its value, its
/// length and the position of the first byte after it; `None` when the bytes
/// end before the run does.
pub open spec fn run_decoding(bytes: Seq<u8>, start: int, sigma: usize) -> Option<(nat, nat, int)> {
    if sigma >= THRESHOLD {
        match int_decoding(bytes, start) {
            Some((value, middle)) => match int_decoding(bytes, middle) {
                Some((len, next)) => Some((value, len + 1, next)),
                None => None,
            },
            None => None,
        }
    } else if 0 <= start < bytes.len() && sigma > 0 {
        let value = (bytes[start] % (sigma as u8)) as nat;
        let len = (bytes[start] / (sigma as u8) + 1) as nat;
        if len == run_threshold(sigma) {
            match int_decoding(bytes, start + 1) {
                Some((extra, next)) => Some((value, len + extra, next)),
                None => None,
            }
        } else {
            Some((value, len, start + 1))
        }
    } else {
        None
    }
}

/// The runs that a decoder yields from position `start` on: it stops where
/// the bytes are exhausted or a run does not fit in `usize`.
pub open spec fn runs_decoding(bytes: Seq<u8>, start: int, sigma: usize) -> Seq<Run>
    decreases bytes.len() - start,
{
    match run_decoding(bytes, start, sigma) {
        Some((value, len, next)) => {
            if value <= usize::MAX && len <= usize::MAX && start < next <= bytes.len() {
                seq![Run { value: value as usize, len: len as usize }] + runs_decoding(
                    bytes,
                    next,
                    sigma,
                )
            } else {
                Seq::<Run>::empty()
            }
        },
        None => Seq::<Run>::empty(),
    }
}

/// The encodings of `runs`, one after the other.
pub open spec fn runs_encoding(sigma: usize, runs: Seq<Run>) -> Seq<u8>
    decreases runs.len(),
{
    if runs.len() == 0 {
        Seq::<u8>::empty()
    } else {
        runs_encoding(sigma, runs.drop_last()) + run_encoding(sigma, runs.last())
    }
}

/// A decoded run has a length of at least one, a value below a small
/// alphabet's size, and ends after its first byte and inside the bytes.
pub proof fn lemma_run_decoding_bounds(bytes: Seq<u8>, start: int, sigma: usize)
    requires
        sigma > 0,
    ensures
        run_decoding(bytes, start, sigma) matches Some((value, len, next)) ==> {
            &&& 0 <= start < next <= bytes.len()
            &&& len >= 1
            &&& sigma < THRESHOLD ==> value < sigma
        },
{
    if sigma >= THRESHOLD {
        lemma_int_decoding_bounds(bytes, start);
        if let Some((value, middle)) = int_decoding(bytes, start) {
            lemma_int_decoding_bounds(bytes, middle);
        }
    } else if 0 <= start < bytes.len() {
        lemma_int_decoding_bounds(bytes, start + 1);
    }
}

/// The product of a small alphabet's size and its threshold fits in a byte.
pub proof fn lemma_run_threshold(sigma: usize)
    requires
        0 < sigma < THRESHOLD,
    ensures
        run_threshold(sigma) >= 1,
        sigma * run_threshold(sigma) <= UNIVERSE,
        sigma * run_threshold(sigma) + sigma > UNIVERSE,
{
    let t = 256int / (sigma as int);
    assert(256int == sigma * t + 256int % (sigma as int)) by {
        vstd::arithmetic::div_mod::lemma_fundamental_div_mod(256, sigma as int);
    }
    assert(t >= 1) by {
        vstd::arithmetic::div_mod::lemma_div_is_ordered(sigma as int, 256, sigma as int);
        vstd::arithmetic::div_mod::lemma_div_basics(sigma as int);
    }
}

/// The byte that packs `value` and `len` holds both: the remainder by the
/// alphabet's size is the value, the quotient is the length less one.
pub proof fn lemma_packed_run(sigma: usize, value: usize, len: usize)
    requires
        0 < sigma < THRESHOLD,
        value < sigma,
        1 <= len <= run_threshold(sigma),
    ensures
        value + sigma * (len - 1) < UNIVERSE,
        packed_run(sigma, value, len) % (sigma as u8) == value,
        packed_run(sigma, value, len) / (sigma as u8) == len - 1,
{
    lemma_run_threshold(sigma);
    let t = run_threshold(sigma) as int;
    assert(sigma * (len - 1) <= sigma * (t - 1)) by (nonlinear_arith)
        requires
            len <= t,
            sigma > 0,
    ;
    assert(sigma * (t - 1) == sigma * t - sigma) by (nonlinear_arith);
    let code = value + sigma * (len - 1);
    assert(code == (len - 1) * sigma + value) by (nonlinear_arith)
        requires
            code == value + sigma * (len - 1),
    ;
    lemma_fundamental_div_mod_converse(code as int, sigma as int, len - 1, value as int);
}

/// Decoding inverts encoding, wherever the encoding stands among other bytes:
/// after any `prefix` and before any `suffix`, the encoding of a non-empty
/// run with a value inside the alphabet decodes to that run and ends where
/// the suffix begins.
pub proof fn lemma_run_round_trip(prefix: Seq<u8>, sigma: usize, run: Run, suffix: Seq<u8>)
    requires
        sigma > 0,
        run.len > 0,
        run.value < sigma,
    ensures
        run_decoding(prefix + run_encoding(sigma, run) + suffix, prefix.len() as int, sigma)
            == Some(
            (
                run.value as nat,
                run.len as nat,
                (prefix.len() + run_encoding(sigma, run).len()) as int,
            ),
        ),
        run_encoding(sigma, run).len() >= 1,
{
    let code = run_encoding(sigma, run);
    let bytes = prefix + code + suffix;
    let start = prefix.len() as int;
    if sigma >= THRESHOLD {
        let first = int_encoding(run.value as nat);
        let second = int_encoding((run.len - 1) as nat);
        lemma_int_encoding_len(run.value as nat);
        lemma_int_encoding_len((run.len - 1) as nat);
        assert(bytes =~= prefix + first + (second + suffix));
        lemma_int_round_trip(prefix, run.value as nat, second + suffix);
        assert(bytes =~= (prefix + first) + second + suffix);
        lemma_int_round_trip(prefix + first, (run.len - 1) as nat, suffix);
    } else {
        let t = run_threshold(sigma);
        lemma_run_threshold(sigma);
        if run.len < t {
            lemma_packed_run(sigma, run.value, run.len);
            assert(bytes[start] == packed_run(sigma, run.value, run.len));
        } else {
            lemma_packed_run(sigma, run.value, t);
            let head = seq![packed_run(sigma, run.value, t)];
            let rest = int_encoding((run.len - t) as nat);
            lemma_int_encoding_len((run.len - t) as nat);
            assert(bytes[start] == packed_run(sigma, run.value, t));
            assert(bytes =~= (prefix + head) + rest + suffix);
            lemma_int_round_trip(prefix + head, (run.len - t) as nat, suffix);
        }
    }
}

/// The runs of `runs` that are not empty, in order.
pub open spec fn nonempty_runs(runs: Seq<Run>) -> Seq<Run>
    decreases runs.len(),
{
    if runs.len() == 0 {
        Seq::<Run>::empty()
    } else if runs.last().len > 0 {
        nonempty_runs(runs.drop_last()).push(runs.last())
    } else {
        nonempty_runs(runs.drop_last())
    }
}

/// Every run can be encoded over the alphabet: one that is not empty has a
/// value inside it.
pub open spec fn encodable_runs(sigma: usize, runs: Seq<Run>) -> bool {
    forall|i: int| 0 <= i < runs.len() ==> (#[trigger] runs[i]).len > 0 ==> runs[i].value < sigma
}

/// Where no run is empty, none is left out.
pub proof fn lemma_nonempty_runs_all(runs: Seq<Run>)
    requires
        forall|i: int| 0 <= i < runs.len() ==> (#[trigger] runs[i]).len > 0,
    ensures
        nonempty_runs(runs) == runs,
    decreases runs.len(),
{
    if runs.len() > 0 {
        lemma_nonempty_runs_all(runs.drop_last());
        assert(runs.drop_last().push(runs.last()) =~= runs);
    }
}

/// Decoding a sequence of encoded runs gives its non-empty runs back,
/// wherever the encodings start.
pub proof fn lemma_runs_round_trip(prefix: Seq<u8>, sigma: usize, runs: Seq<Run>)
    requires
        sigma > 0,
        encodable_runs(sigma, runs),
    ensures
        runs_decoding(prefix + runs_encoding(sigma, runs), prefix.len() as int, sigma)
            == nonempty_runs(runs),
{
    lemma_runs_round_trip_before(prefix, sigma, runs, Seq::<u8>::empty());
    assert(prefix + runs_encoding(sigma, runs) + Seq::<u8>::empty() =~= prefix + runs_encoding(
        sigma,
        runs,
    ));
    let bytes = prefix + runs_encoding(sigma, runs);
    let end = bytes.len() as int;
    assert(run_decoding(bytes, end, sigma) is None) by {
        lemma_run_decoding_bounds(bytes, end, sigma);
    }
    assert(runs_decoding(bytes, end, sigma) =~= Seq::<Run>::empty());
    assert(nonempty_runs(runs) + Seq::<Run>::empty() =~= nonempty_runs(runs));
}

/// Decoding a sequence of encoded runs gives the sequence back, wherever the
/// encodings start, when no run is empty and every value is inside the
/// alphabet.
pub proof fn lemma_runs_round_trip_exact(prefix: Seq<u8>, sigma: usize, runs: Seq<Run>)
    requires
        sigma > 0,
        forall|i: int| 0 <= i < runs.len() ==> (#[trigger] runs[i]).len > 0 && runs[i].value < sigma,
    ensures
        runs_decoding(prefix + runs_encoding(sigma, runs), prefix.len() as int, sigma) == runs,
{
    lemma_runs_round_trip(prefix, sigma, runs);
    lemma_nonempty_runs_all(runs);
}

/// Before any `suffix`, the encodings of `runs` decode to the non-empty runs
/// of `runs` followed by what the suffix decodes to.
pub proof fn lemma_runs_round_trip_before(
    prefix: Seq<u8>,
    sigma: usize,
    runs: Seq<Run>,
    suffix: Seq<u8>,
)
    requires
        sigma > 0,
        encodable_runs(sigma, runs),
    ensures
        runs_decoding(prefix + runs_encoding(sigma, runs) + suffix, prefix.len() as int, sigma)
            == nonempty_runs(runs) + runs_decoding(
            prefix + runs_encoding(sigma, runs) + suffix,
            (prefix.len() + runs_encoding(sigma, runs).len()) as int,
            sigma,
        ),
    decreases runs.len(),
{
    let code = runs_encoding(sigma, runs);
    let bytes = prefix + code + suffix;
    let start = prefix.len() as int;
    if runs.len() == 0 {
        assert(Seq::<Run>::empty() + runs_decoding(bytes, start, sigma) =~= runs_decoding(
            bytes,
            start,
            sigma,
        ));
    } else {
        let init = runs.drop_last();
        let last = runs.last();
        let init_code = runs_encoding(sigma, init);
        let last_code = run_encoding(sigma, last);
        assert(encodable_runs(sigma, init)) by {
            assert forall|i: int| 0 <= i < init.len() && (#[trigger] init[i]).len > 0 implies init[i].value
                < sigma by {
                assert(init[i] == runs[i]);
            }
        }
        assert(bytes =~= prefix + init_code + (last_code + suffix));
        lemma_runs_round_trip_before(prefix, sigma, init, last_code + suffix);
        let middle = (prefix.len() + init_code.len()) as int;
        if last.len > 0 {
            assert(bytes =~= (prefix + init_code) + last_code + suffix);
            lemma_run_round_trip(prefix + init_code, sigma, last, suffix);
            let end = middle + last_code.len();
            assert(runs_decoding(bytes, middle, sigma) =~= seq![last] + runs_decoding(
                bytes,
                end,
                sigma,
            ));
            assert(nonempty_runs(init) + (seq![last] + runs_decoding(bytes, end, sigma))
                =~= nonempty_runs(runs) + runs_decoding(bytes, end, sigma));
        } else {
            assert(code =~= init_code);
        }
    }
}

//-----------------------------------------------------------------------------

/// A run-length encoder for non-empty runs of unsigned integers.
///
/// The exact encoding depends on alphabet size `sigma`.
/// If `sigma` is small, the encoder tries to encode short runs as a single byte.
/// For long runs, the remaining run length is encoded using [`ByteCode`].
/// For a large `sigma`, both the value and the run length are encoded using [`ByteCode`].
/// Alphabet size `sigma == 0` indicates a large alphabet of unknown size.
///
/// Raw bytes and [`ByteCode`]-encoded integers can be appended to the encoding using [`RLE::write_byte`] and [`RLE::write_int`].
#[derive(Debug, PartialEq, Eq)]
pub struct RLE {
    bytes: ByteCode,
    sigma: usize,
    threshold: usize,
}

impl Clone for RLE {
    fn clone(&self) -> (result: Self)
        ensures
            result@ == self@,
            result.alphabet() == self.alphabet(),
            result.wf() == self.wf(),
    {
        RLE { bytes: self.bytes.clone(), sigma: self.sigma, threshold: self.threshold }
    }
}

impl View for RLE {
    type V = Seq<u8>;

    /// The bytes written so far.
    closed spec fn view(&self) -> Seq<u8> {
        self.bytes@
    }
}

impl RLE {
    /// The encoder is well formed: its alphabet is not empty and its
    /// threshold for short runs is the one of its alphabet. Every encoder
    /// that this module hands out is well formed.
    pub closed spec fn wf(&self) -> bool {
        self.sigma > 0 && self.threshold == run_threshold(self.sigma)
    }

    /// The effective alphabet size of the encoder.
    pub closed spec fn alphabet(&self) -> usize {
        self.sigma
    }

    /// Creates a new encoder with alphabet size `0`.
    pub fn new() -> (result: Self)
        ensures
            result.wf(),
            result@ == Seq::<u8>::empty(),
            result.alphabet() == effective_sigma(0),
    {
        let (sigma, threshold) = Self::sanitize(0);
        RLE { bytes: ByteCode::new(), sigma, threshold }
    }

    /// Creates a new encoder with the given alphabet size.
    pub fn with_sigma(sigma: usize) -> (result: Self)
        ensures
            result.wf(),
            result@ == Seq::<u8>::empty(),
            result.alphabet() == effective_sigma(sigma),
    {
        let (sigma, threshold) = Self::sanitize(sigma);
        RLE { bytes: ByteCode::new(), sigma, threshold }
    }

    /// Encodes and stores a run.
    ///
    /// Does nothing if `run.len == 0`. The value of any other run must be
    /// inside the alphabet.
    pub fn write(&mut self, run: Run)
        requires
            old(self).wf(),
            run.len > 0 ==> run.value < old(self).alphabet(),
        ensures
            final(self).wf(),
            final(self)@ == old(self)@ + run_encoding(old(self).alphabet(), run),
            final(self).alphabet() == old(self).alphabet(),
    {
        if run.len == 0 {
            assert(self@ + Seq::<u8>::empty() =~= self@);
            return ;
        }
        self.write_unchecked(run);
    }

    /// Encodes and stores a run that is not empty and whose value is inside
    /// the alphabet.
    pub fn write_unchecked(&mut self, run: Run)
        requires
            old(self).wf(),
            run.len > 0,
            run.value < old(self).alphabet(),
        ensures
            final(self).wf(),
            final(self)@ == old(self)@ + run_encoding(old(self).alphabet(), run),
            final(self).alphabet() == old(self).alphabet(),
    {
        let ghost before = self.bytes@;
        if self.sigma >= THRESHOLD {
            self.bytes.write(run.value);
            self.bytes.write(run.len - 1);
            assert(self.bytes@ =~= before + (int_encoding(run.value as nat) + int_encoding(
                (run.len - 1) as nat,
            )));
        } else if run.len < self.threshold {
            self.write_basic(run.value, run.len);
            assert(self.bytes@ =~= before + seq![packed_run(self.sigma, run.value, run.len)]);
        } else {
            proof {
                lemma_run_threshold(self.sigma);
            }
            let threshold: usize = self.threshold;
            self.write_basic(run.value, threshold);
            self.bytes.write(run.len - threshold);
            assert(self.bytes@ =~= before + (seq![packed_run(self.sigma, run.value, threshold)]
                + int_encoding((run.len - threshold) as nat)));
        }
    }

    /// Appends a byte to the encoding.
    pub fn write_byte(&mut self, byte: u8)
        ensures
            final(self).wf() == old(self).wf(),
            final(self)@ == old(self)@.push(byte),
            final(self).alphabet() == old(self).alphabet(),
    {
        self.bytes.write_byte(byte);
    }

    /// Encodes `value` using [`ByteCode`] and stores the encoding.
    pub fn write_int(&mut self, value: usize)
        ensures
            final(self).wf() == old(self).wf(),
            final(self)@ == old(self)@ + int_encoding(value as nat),
            final(self).alphabet() == old(self).alphabet(),
    {
        self.bytes.write(value);
    }

    /// Returns the total number of bytes in the encoding.
    #[inline]
    pub fn len(&self) -> (result: usize)
        ensures
            result == self@.len(),
    {
        self.bytes.len()
    }

    /// Returns `true` if the encoding is empty.
    #[inline]
    pub fn is_empty(&self) -> (result: bool)
        ensures
            result == (self@.len() == 0),
    {
        self.bytes.len() == 0
    }

    /// Returns the alphabet size.
    #[inline]
    pub fn sigma(&self) -> (result: usize)
        ensures
            result == self.alphabet(),
            self.wf() ==> result > 0,
    {
        self.sigma
    }

    /// Changes the alphabet size to `sigma`.
    pub fn set_sigma(&mut self, sigma: usize)
        ensures
            final(self).wf(),
            final(self)@ == old(self)@,
            final(self).alphabet() == effective_sigma(sigma),
    {
        let (sigma, threshold) = Self::sanitize(sigma);
        self.sigma = sigma;
        self.threshold = threshold;
    }

    // Writes a single-byte run.
    fn write_basic(&mut self, value: usize, len: usize)
        requires
            old(self).wf(),
            0 < old(self).sigma < THRESHOLD,
            value < old(self).sigma,
            1 <= len <= run_threshold(old(self).sigma),
        ensures
            final(self).bytes@ == old(self).bytes@.push(packed_run(old(self).sigma, value, len)),
            final(self).sigma == old(self).sigma,
            final(self).threshold == old(self).threshold,
    {
        proof {
            lemma_packed_run(self.sigma, value, len);
            assert(self.sigma * (len - 1) <= value + self.sigma * (len - 1)) by (nonlinear_arith);
            assert(0 <= self.sigma * (len - 1)) by (nonlinear_arith)
                requires
                    len >= 1,
            ;
        }
        let code: usize = value + self.sigma * (len - 1);
        self.bytes.write_byte(code as u8);
    }

    // Returns (effective sigma, threshold for short runs).
    pub(crate) fn sanitize(sigma: usize) -> (result: (usize, usize))
        ensures
            result.0 == effective_sigma(sigma),
            result.1 == run_threshold(result.0),
            result.0 > 0,
    {
        let sigma: usize = if sigma == 0 { usize::MAX } else { sigma };
        let threshold: usize = if sigma < THRESHOLD { UNIVERSE / sigma } else { 0 };
        (sigma, threshold)
    }
}

impl Default for RLE {
    fn default() -> (result: Self)
        ensures
            result.wf(),
            result@ == Seq::<u8>::empty(),
            result.alphabet() == effective_sigma(0),
    {
        let (sigma, threshold) = Self::sanitize(0);
        RLE { bytes: ByteCode::new(), sigma, threshold }
    }
}

impl AsRef<[u8]> for RLE {
    #[inline]
    fn as_ref(&self) -> (result: &[u8])
        ensures
            result@ == self@,
    {
        self.bytes.as_ref()
    }
}

impl From<RLE> for Vec<u8> {
    fn from(source: RLE) -> (result: Self)
        ensures
            result@ == source@,
    {
        Vec::<u8>::from(source.bytes)
    }
}

impl FromSpecImpl<RLE> for Vec<u8> {
    open spec fn obeys_from_spec() -> bool {
        true
    }

    closed spec fn from_spec(source: RLE) -> Self {
        <Vec<u8> as vstd::std_specs::convert::FromSpec<ByteCode>>::from_spec(source.bytes)
    }
}

//-----------------------------------------------------------------------------

/// A cursor that decodes runs from a byte slice encoded by [`RLE`].
///
/// Alphabet size `sigma == 0` indicates a large alphabet of unknown size.
/// Raw bytes and [`ByteCode`]-encoded integers can be read from the encoding using [`RLEIter::byte`] and [`RLEIter::next_int`].
/// A run that the bytes do not hold whole, or whose value or length does not
/// fit in `usize`, exhausts the cursor.
#[derive(Debug)]
pub struct RLEIter<'a> {
    source: ByteCodeIter<'a>,
    sigma: usize,
    threshold: usize,
}

impl<'a> Clone for RLEIter<'a> {
    fn clone(&self) -> (result: Self)
        ensures
            result == *self,
    {
        RLEIter { source: self.source.clone(), sigma: self.sigma, threshold: self.threshold }
    }
}

impl<'a> RLEIter<'a> {
    /// The decoder is well formed: its alphabet is not empty and its
    /// threshold for short runs is the one of its alphabet. Every decoder
    /// that this module hands out is well formed.
    pub closed spec fn wf(&self) -> bool {
        self.sigma > 0 && self.threshold == run_threshold(self.sigma)
    }

    /// The bytes that the cursor reads.
    pub closed spec fn source(&self) -> Seq<u8> {
        self.source.source()
    }

    /// The position of the first byte that has not been read.
    pub closed spec fn position(&self) -> int {
        self.source.position()
    }

    /// The effective alphabet size of the decoder.
    pub closed spec fn alphabet(&self) -> usize {
        self.sigma
    }

    /// The runs that the cursor has yet to yield.
    pub open spec fn remaining(&self) -> Seq<Run> {
        runs_decoding(self.source(), self.position(), self.alphabet())
    }

    /// Creates a new iterator over the byte slice with alphabet size `0`.
    pub fn new(bytes: &'a [u8]) -> (result: Self)
        ensures
            result.wf(),
            result.source() == bytes@,
            result.position() == 0,
            result.alphabet() == effective_sigma(0),
    {
        let (sigma, threshold) = RLE::sanitize(0);
        RLEIter { source: ByteCodeIter::new(bytes), sigma, threshold }
    }

    /// Creates a new iterator.
    ///
    /// # Arguments
    ///
    /// * `bytes`: Byte slice.
    /// * `sigma`: Alphabet size.
    pub fn with_sigma(bytes: &'a [u8], sigma: usize) -> (result: Self)
        ensures
            result.wf(),
            result.source() == bytes@,
            result.position() == 0,
            result.alphabet() == effective_sigma(sigma),
    {
        let (sigma, threshold) = RLE::sanitize(sigma);
        RLEIter { source: ByteCodeIter::new(bytes), sigma, threshold }
    }

    /// Returns the next byte from the slice, or `None` if there are no more bytes left.
    pub fn byte(&mut self) -> (result: Option<u8>)
        ensures
            final(self).wf() == old(self).wf(),
            final(self).source() == old(self).source(),
            final(self).alphabet() == old(self).alphabet(),
            0 <= old(self).position() <= old(self).source().len(),
            result == if old(self).position() < old(self).source().len() {
                Some(old(self).source()[old(self).position()])
            } else {
                None
            },
            final(self).position() == if result is Some {
                old(self).position() + 1
            } else {
                old(self).position()
            },
    {
        self.source.byte()
    }

    /// Returns the next [`ByteCode`]-encoded integer from the slice, or `None` if no more integers can be decoded.
    pub fn next_int(&mut self) -> (result: Option<usize>)
        ensures
            final(self).wf() == old(self).wf(),
            final(self).source() == old(self).source(),
            final(self).alphabet() == old(self).alphabet(),
            match int_decoding(old(self).source(), old(self).position()) {
                Some((value, next)) => if value <= usize::MAX {
                    result == Some(value as usize) && final(self).position() == next
                } else {
                    result is None && final(self).position() == old(self).source().len()
                },
                None => result is None && final(self).position() == old(self).source().len(),
            },
    {
        self.source.next()
    }

    /// Returns the first unvisited offset in the byte slice.
    #[inline]
    pub fn offset(&self) -> (result: usize)
        ensures
            result == self.position(),
            result <= self.source().len(),
    {
        self.source.offset()
    }

    /// Returns the alphabet size.
    #[inline]
    pub fn sigma(&self) -> (result: usize)
        ensures
            result == self.alphabet(),
            self.wf() ==> result > 0,
    {
        self.sigma
    }

    /// Changes the alphabet size to `sigma`.
    pub fn set_sigma(&mut self, sigma: usize)
        ensures
            final(self).wf(),
            final(self).source() == old(self).source(),
            final(self).position() == old(self).position(),
            final(self).alphabet() == effective_sigma(sigma),
    {
        let (sigma, threshold) = RLE::sanitize(sigma);
        self.sigma = sigma;
        self.threshold = threshold;
    }

    /// Returns the next run, or `None` if the bytes end before the run does
    /// or its value or length does not fit in `usize`; in both cases the
    /// cursor is then at the end of the slice.
    pub fn next(&mut self) -> (result: Option<Run>)
        requires
            old(self).wf(),
        ensures
            final(self).wf(),
            final(self).source() == old(self).source(),
            final(self).alphabet() == old(self).alphabet(),
            match run_decoding(old(self).source(), old(self).position(), old(self).alphabet()) {
                Some((value, len, next)) => if value <= usize::MAX && len <= usize::MAX {
                    &&& result == Some(Run { value: value as usize, len: len as usize })
                    &&& final(self).position() == next
                } else {
                    result is None && final(self).position() == old(self).source().len()
                },
                None => result is None && final(self).position() == old(self).source().len(),
            },
            match result {
                Some(run) => {
                    &&& old(self).remaining() == seq![run] + final(self).remaining()
                    &&& run.len >= 1
                    &&& old(self).alphabet() < THRESHOLD ==> run.value < old(self).alphabet()
                },
                None => {
                    &&& old(self).remaining() == Seq::<Run>::empty()
                    &&& final(self).remaining() == Seq::<Run>::empty()
                },
            },
    {
        proof {
            lemma_run_decoding_bounds(self.source(), self.position(), self.sigma);
            lemma_run_decoding_bounds(self.source(), self.source().len() as int, self.sigma);
        }
        if self.sigma >= THRESHOLD {
            let value: usize = match self.source.next() {
                Some(value) => value,
                None => {
                    return None;
                },
            };
            let len: usize = match self.source.next() {
                Some(len) => len,
                None => {
                    return None;
                },
            };
            if len == usize::MAX {
                self.source.exhaust();
                return None;
            }
            Some(Run { value, len: len + 1 })
        } else {
            let byte: u8 = match self.source.byte() {
                Some(byte) => byte,
                None => {
                    return None;
                },
            };
            let sigma: u8 = self.sigma as u8;
            let value: usize = (byte % sigma) as usize;
            let mut len: usize = (byte / sigma) as usize + 1;
            if len == self.threshold {
                let extra: usize = match self.source.next() {
                    Some(extra) => extra,
                    None => {
                        return None;
                    },
                };
                len = match len.checked_add(extra) {
                    Some(len) => len,
                    None => {
                        self.source.exhaust();
                        return None;
                    },
                };
            }
            Some(Run { value, len })
        }
    }
}

} // verus!
