//! Core of a graph BWT index: the per-node record format, the container of
//! records, and the byte codecs that the records are written with.
//!
//! A record stores the outgoing edges of one node and a run-length encoded
//! sequence of ranks into that edge list. The container concatenates the
//! records of all nodes and finds each one through an index of byte offsets.

use vstd::prelude::*;

pub mod support;
pub mod bwt;
pub mod sds;
pub mod text;

verus! {

/// Node identifier `0` is reserved: it terminates every path.
pub const ENDMARKER: usize = 0;

} // verus!
