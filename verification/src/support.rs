//! Support structures: orientations, node and path identifiers, runs, and
//! the byte-level codecs.

use vstd::prelude::*;
use std::ops::Range;
use vstd::std_specs::convert::FromSpecImpl;

pub mod bytecode;
pub mod rle;
pub mod disjoint_sets;
pub mod indexed;
pub mod string_array;
pub mod order;
pub mod dictionary;
pub mod tags;

pub use self::bytecode::{ByteCode, ByteCodeIter};
pub use self::rle::{RLE, RLEIter};
pub use self::disjoint_sets::DisjointSets;
pub use self::indexed::InvalidData;
pub use self::string_array::{StringArray, StringIter};
pub use self::dictionary::Dictionary;
pub use self::tags::Tags;

verus! {

//-----------------------------------------------------------------------------

/// Orientation of a node or a path in a bidirected sequence graph.
#[derive(Copy, Clone, Debug, Hash, PartialEq, Eq, Structural, PartialOrd, Ord)]
pub enum Orientation {
    /// Forward orientation.
    Forward,
    /// Reverse or reverse complement orientation.
    Reverse,
}

impl Orientation {
    /// The other orientation.
    pub open spec fn flipped(self) -> Orientation {
        match self {
            Orientation::Forward => Orientation::Reverse,
            Orientation::Reverse => Orientation::Forward,
        }
    }

    /// The bit that stands for the orientation in a packed identifier:
    /// `0` for forward, `1` for reverse.
    pub open spec fn bit(self) -> nat {
        match self {
            Orientation::Forward => 0,
            Orientation::Reverse => 1,
        }
    }

    /// Returns the other orientation.
    #[inline]
    pub fn flip(&self) -> (result: Orientation)
        ensures
            result == self.flipped(),
    {
        match *self {
            Orientation::Forward => Orientation::Reverse,
            Orientation::Reverse => Orientation::Forward,
        }
    }
}

/// The complement of a nucleotide: `A` (0x41) and `T` (0x54) are exchanged,
/// `C` (0x43) and `G` (0x47) are exchanged, and every other byte (lower case
/// included) stays as it is.
pub open spec fn complement(c: u8) -> u8 {
    if c == 0x41 {
        0x54
    } else if c == 0x54 {
        0x41
    } else if c == 0x43 {
        0x47
    } else if c == 0x47 {
        0x43
    } else {
        c
    }
}

/// Returns the reverse complement of the sequence.
pub fn reverse_complement(sequence: &[u8]) -> (result: Vec<u8>)
    ensures
        result@.len() == sequence@.len(),
        forall|i: int|
            0 <= i < sequence@.len() ==> #[trigger] result@[i] == complement(
                sequence@[sequence@.len() - 1 - i],
            ),
{
    let n: usize = sequence.len();
    let mut result: Vec<u8> = Vec::with_capacity(n);
    let mut i: usize = 0;
    while i < n
        invariant
            n == sequence@.len(),
            i <= n,
            result@.len() == i,
            forall|j: int|
                0 <= j < i ==> #[trigger] result@[j] == complement(sequence@[n - 1 - j]),
        decreases n - i,
    {
        let c: u8 = sequence[n - 1 - i];
        let d: u8 = if c == 0x41 {
            0x54
        } else if c == 0x54 {
            0x41
        } else if c == 0x43 {
            0x47
        } else if c == 0x47 {
            0x43
        } else {
            c
        };
        result.push(d);
        i += 1;
    }
    result
}

//-----------------------------------------------------------------------------

/// A run as a (value, length) pair.
#[derive(Copy, Clone, Debug, Default, Hash, PartialEq, Eq, Structural, PartialOrd, Ord)]
pub struct Run {
    /// Value in the run.
    pub value: usize,
    /// Length of the run.
    pub len: usize,
}

impl Run {
    /// Creates a new run.
    #[inline]
    pub fn new(value: usize, len: usize) -> (result: Self)
        ensures
            result.value == value,
            result.len == len,
    {
        Run { value, len }
    }
}

impl From<(usize, usize)> for Run {
    #[inline]
    fn from(run: (usize, usize)) -> (result: Self) {
        Run { value: run.0, len: run.1 }
    }
}

impl FromSpecImpl<(usize, usize)> for Run {
    open spec fn obeys_from_spec() -> bool {
        true
    }

    open spec fn from_spec(run: (usize, usize)) -> Self {
        Run { value: run.0, len: run.1 }
    }
}

//-----------------------------------------------------------------------------

/// The packed identifier of `id` in orientation `o`: `2 * id + o.bit()`.
pub open spec fn packed(id: nat, o: Orientation) -> nat {
    2 * id + o.bit()
}

/// The orientation that a packed identifier holds in its lowest bit.
pub open spec fn packed_orientation(x: nat) -> Orientation {
    if x % 2 == 0 {
        Orientation::Forward
    } else {
        Orientation::Reverse
    }
}

/// The packed identifier of the same object in the other orientation.
pub open spec fn packed_flip(x: nat) -> nat {
    if x % 2 == 0 {
        x + 1
    } else {
        (x - 1) as nat
    }
}

/// Packing and unpacking invert each other, and flipping a packed identifier
/// flips its orientation and nothing else.
pub proof fn lemma_packed(id: nat, o: Orientation)
    ensures
        packed(id, o) / 2 == id,
        packed_orientation(packed(id, o)) == o,
        packed_flip(packed(id, o)) == packed(id, o.flipped()),
        packed_flip(packed_flip(packed(id, o))) == packed(id, o),
{
}

/// Returns the GBWT node identifier corresponding to the given node of the graph and orientation.
///
/// This encoding is used in bidirectional GBWT indexes.
#[inline]
pub fn encode_node(id: usize, orientation: Orientation) -> (result: usize)
    requires
        id <= usize::MAX / 2,
    ensures
        result == packed(id as nat, orientation),
{
    match orientation {
        Orientation::Forward => 2 * id,
        Orientation::Reverse => 2 * id + 1,
    }
}

/// Returns the identifier of the node of the graph corresponding to the given GBWT node.
#[inline]
pub fn node_id(id: usize) -> (result: usize)
    ensures
        result == id / 2,
{
    id / 2
}

/// Returns the orientation of the node of the graph corresponding to the given GBWT node.
#[inline]
pub fn node_orientation(id: usize) -> (result: Orientation)
    ensures
        result == packed_orientation(id as nat),
{
    assert(id & 1 == id % 2) by (bit_vector);
    match id & 1 {
        0 => Orientation::Forward,
        _ => Orientation::Reverse,
    }
}

/// Decodes a GBWT node identifier as a node identifier and orientation in the graph.
#[inline]
pub fn decode_node(id: usize) -> (result: (usize, Orientation))
    ensures
        result.0 == id / 2,
        result.1 == packed_orientation(id as nat),
        packed(result.0 as nat, result.1) == id,
{
    (node_id(id), node_orientation(id))
}

/// Returns the GBWT node identifier for the same node of the graph in the other orientation.
#[inline]
pub fn flip_node(id: usize) -> (result: usize)
    ensures
        result == packed_flip(id as nat),
        result == id ^ 1,
{
    assert(id % 2 == 0 ==> id ^ 1 == id + 1) by (bit_vector);
    assert(id % 2 != 0 ==> id ^ 1 == id - 1) by (bit_vector);
    id ^ 1
}

/// Returns the sequence identifier corresponding to the given path and orientation.
///
/// This encoding is used in bidirectional GBWT indexes.
#[inline]
pub fn encode_path(id: usize, orientation: Orientation) -> (result: usize)
    requires
        id <= usize::MAX / 2,
    ensures
        result == packed(id as nat, orientation),
{
    match orientation {
        Orientation::Forward => 2 * id,
        Orientation::Reverse => 2 * id + 1,
    }
}

/// Returns the path identifier corresponding to the given sequence.
#[inline]
pub fn path_id(id: usize) -> (result: usize)
    ensures
        result == id / 2,
{
    id / 2
}

/// Returns the orientation of the path corresponding to the given sequence.
#[inline]
pub fn path_orientation(id: usize) -> (result: Orientation)
    ensures
        result == packed_orientation(id as nat),
{
    assert(id & 1 == id % 2) by (bit_vector);
    match id & 1 {
        0 => Orientation::Forward,
        _ => Orientation::Reverse,
    }
}

/// Decodes a sequence identifier as a path identifier and orientation in the graph.
#[inline]
pub fn decode_path(id: usize) -> (result: (usize, Orientation))
    ensures
        result.0 == id / 2,
        result.1 == packed_orientation(id as nat),
        packed(result.0 as nat, result.1) == id,
{
    (path_id(id), path_orientation(id))
}

/// Returns the sequence identifier for the same path in the other orientation.
#[inline]
pub fn flip_path(id: usize) -> (result: usize)
    ensures
        result == packed_flip(id as nat),
        result == id ^ 1,
{
    assert(id % 2 == 0 ==> id ^ 1 == id + 1) by (bit_vector);
    assert(id % 2 != 0 ==> id ^ 1 == id - 1) by (bit_vector);
    id ^ 1
}

/// Returns the reverse of the given path.
///
/// The reverse path visits the other orientation of each node in reverse order.
pub fn reverse_path(path: &[usize]) -> (result: Vec<usize>)
    ensures
        result@.len() == path@.len(),
        forall|i: int|
            0 <= i < path@.len() ==> #[trigger] result@[i] == packed_flip(
                path@[path@.len() - 1 - i] as nat,
            ),
{
    let n: usize = path.len();
    let mut result: Vec<usize> = Vec::with_capacity(n);
    let mut i: usize = 0;
    while i < n
        invariant
            n == path@.len(),
            i <= n,
            result@.len() == i,
            forall|j: int|
                0 <= j < i ==> #[trigger] result@[j] == packed_flip(path@[n - 1 - j] as nat),
        decreases n - i,
    {
        result.push(flip_node(path[n - 1 - i]));
        i += 1;
    }
    result
}

/// Returns the intersection of two ranges.
#[inline]
pub fn intersect(a: &Range<usize>, b: &Range<usize>) -> (result: Range<usize>)
    ensures
        result.start == if a.start >= b.start { a.start } else { b.start },
        result.end == if a.end <= b.end { a.end } else { b.end },
{
    let start: usize = if a.start >= b.start { a.start } else { b.start };
    let end: usize = if a.end <= b.end { a.end } else { b.end };
    start..end
}

/// Returns `n` zeros.
pub(crate) fn zeros(n: usize) -> (result: Vec<usize>)
    ensures
        result@.len() == n,
        forall|i: int| 0 <= i < n ==> #[trigger] result@[i] == 0,
{
    let mut result: Vec<usize> = Vec::new();
    let mut i: usize = 0;
    while i < n
        invariant
            i <= n,
            result@.len() == i,
            forall|j: int| 0 <= j < i ==> #[trigger] result@[j] == 0,
        decreases n - i,
    {
        result.push(0);
        i += 1;
    }
    result
}

} // verus!
