//! The byte format of a record: the edge list as variable-length integers,
//! followed by the runs over the alphabet of the edges' ranks.
//!
//! The edge list is written as the number of edges, the first successor, the
//! gap from each successor to the next, and then the offsets of all edges.

use vstd::prelude::*;
use crate::support::Run;
use crate::support::bytecode::{
    int_decoding, int_encoding, ints_at, ints_encoding, lemma_int_decoding_bounds,
    lemma_int_encoding_len, lemma_int_round_trip, lemma_ints_at_prefix, lemma_ints_at_round_trip,
};
use crate::support::rle::{
    encodable_runs, lemma_runs_round_trip, nonempty_runs, runs_decoding, runs_encoding,
};
use super::Pos;
use super::model::{
    expand, lemma_expand_concat, lemma_expand_first, run_block, strictly_increasing, valid_record,
};

verus! {

/// The sum of the first `upto` integers of `gaps`.
pub open spec fn gaps_sum(gaps: Seq<nat>, upto: int) -> nat
    decreases upto,
{
    if upto <= 0 {
        0
    } else {
        gaps_sum(gaps, upto - 1) + gaps[upto - 1]
    }
}

/// The edge list that is written as `gaps` and `offsets`: the successor of
/// each edge is the sum of the gaps up to it.
pub open spec fn edges_from(gaps: Seq<nat>, offsets: Seq<nat>) -> Seq<Pos> {
    Seq::new(
        gaps.len(),
        |r: int| Pos { node: gaps_sum(gaps, r + 1) as usize, offset: offsets[r] as usize },
    )
}

/// `gaps` and `offsets` are those of an edge list: no gap after the first is
/// zero, and every successor and offset fits in `usize`.
pub open spec fn edge_fields_fit(gaps: Seq<nat>, offsets: Seq<nat>) -> bool {
    &&& forall|r: int| 1 <= r < gaps.len() ==> #[trigger] gaps[r] >= 1
    &&& gaps_sum(gaps, gaps.len() as int) <= usize::MAX
    &&& forall|r: int| 0 <= r < offsets.len() ==> #[trigger] offsets[r] <= usize::MAX
}

/// How an edge list is written: the first successor and the gaps between
/// successive successors.
pub open spec fn edge_gaps(edges: Seq<Pos>) -> Seq<nat> {
    Seq::new(
        edges.len(),
        |r: int|
            if r == 0 {
                edges[0].node as nat
            } else {
                (edges[r].node - edges[r - 1].node) as nat
            },
    )
}

/// The offsets of an edge list.
pub open spec fn edge_offsets(edges: Seq<Pos>) -> Seq<nat> {
    Seq::new(edges.len(), |r: int| edges[r].offset as nat)
}

/// The bytes that encode an edge list.
pub open spec fn edges_encoding(edges: Seq<Pos>) -> Seq<u8> {
    int_encoding(edges.len()) + ints_encoding(edge_gaps(edges)) + ints_encoding(
        edge_offsets(edges),
    )
}

/// The edge list at the start of `bytes`, with the number of bytes that it
/// takes; `None` when the bytes do not start with an edge list: they end too
/// early, announce no edge, repeat a successor, or hold an integer that does
/// not fit in `usize`.
pub open spec fn edges_decoding(bytes: Seq<u8>) -> Option<(Seq<Pos>, int)> {
    match int_decoding(bytes, 0) {
        Some((count, first)) => match ints_at(bytes, first, count) {
            Some((gaps, second)) => match ints_at(bytes, second, count) {
                Some((offsets, next)) => if count >= 1 && edge_fields_fit(gaps, offsets) {
                    Some((edges_from(gaps, offsets), next))
                } else {
                    None
                },
                None => None,
            },
            None => None,
        },
        None => None,
    }
}

/// The bytes of a record with the given edges and runs.
pub open spec fn record_encoding(edges: Seq<Pos>, runs: Seq<Run>) -> Seq<u8> {
    edges_encoding(edges) + runs_encoding(edges.len() as usize, runs)
}

/// The ranks that the bytes of a record hold after an edge list of `sigma`
/// edges.
pub open spec fn ranks_decoding(bwt: Seq<u8>, sigma: usize) -> Seq<usize> {
    expand(runs_decoding(bwt, 0, sigma))
}

/// What the bytes of a record hold: its edge list, the ranks after it, and
/// the number of bytes that the edge list takes; `None` when the bytes do not
/// start with an edge list, or the ranks do not form a record with it.
pub open spec fn record_decoding(bytes: Seq<u8>) -> Option<(Seq<Pos>, Seq<usize>, int)> {
    match edges_decoding(bytes) {
        Some((edges, split)) => {
            let ranks = ranks_decoding(bytes.skip(split), edges.len() as usize);
            if valid_record(edges, ranks) {
                Some((edges, ranks, split))
            } else {
                None
            }
        },
        None => None,
    }
}

/// The bytes hold a record.
pub open spec fn has_record(bytes: Seq<u8>) -> bool {
    record_decoding(bytes) is Some
}

/// The bytes do not start with an edge list if the successor of some edge
/// cannot be read: its gap is missing, is zero after the first edge, or
/// leads past `usize`.
pub proof fn lemma_edges_decoding_gap_fails(
    bytes: Seq<u8>,
    count: nat,
    first: int,
    r: nat,
    gaps: Seq<nat>,
    pos: int,
)
    requires
        int_decoding(bytes, 0) == Some((count, first)),
        r < count,
        ints_at(bytes, first, r) == Some((gaps, pos)),
        match int_decoding(bytes, pos) {
            Some((gap, _)) => (r >= 1 && gap == 0) || gaps_sum(gaps, r as int) + gap
                > usize::MAX,
            None => true,
        },
    ensures
        edges_decoding(bytes) is None,
{
    lemma_int_decoding_bounds(bytes, 0);
    if let Some((all, second)) = ints_at(bytes, first, count) {
        lemma_ints_at_prefix(bytes, first, r + 1, count);
        lemma_ints_at_prefix(bytes, first, r, count);
        let gap = all[r as int];
        assert(int_decoding(bytes, pos) is Some);
        assert(all.take(r as int + 1)[r as int] == gap);
        lemma_gaps_sum_prefix(gaps, all, r as int);
        lemma_gaps_sum_monotone(all, r as int + 1, count as int);
        if let Some((offsets, next)) = ints_at(bytes, second, count) {
            assert(!edge_fields_fit(all, offsets));
        }
    }
}

/// The bytes do not start with an edge list if the offset of some edge
/// cannot be read.
pub proof fn lemma_edges_decoding_offset_fails(
    bytes: Seq<u8>,
    count: nat,
    first: int,
    gaps: Seq<nat>,
    second: int,
    r: nat,
    offsets: Seq<nat>,
    pos: int,
)
    requires
        int_decoding(bytes, 0) == Some((count, first)),
        ints_at(bytes, first, count) == Some((gaps, second)),
        r < count,
        ints_at(bytes, second, r) == Some((offsets, pos)),
        match int_decoding(bytes, pos) {
            Some((offset, _)) => offset > usize::MAX,
            None => true,
        },
    ensures
        edges_decoding(bytes) is None,
{
    lemma_int_decoding_bounds(bytes, 0);
    lemma_ints_at_prefix(bytes, first, count, count);
    if let Some((all, next)) = ints_at(bytes, second, count) {
        lemma_ints_at_prefix(bytes, second, r + 1, count);
        lemma_ints_at_prefix(bytes, second, r, count);
        assert(int_decoding(bytes, pos) is Some);
        assert(all.take(r as int + 1)[r as int] == all[r as int]);
        assert(!edge_fields_fit(gaps, all));
    }
}

/// The sum of more gaps is no less.
pub proof fn lemma_gaps_sum_monotone(gaps: Seq<nat>, a: int, b: int)
    requires
        a <= b,
    ensures
        gaps_sum(gaps, a) <= gaps_sum(gaps, b),
    decreases b - a,
{
    if a < b {
        lemma_gaps_sum_monotone(gaps, a, b - 1);
    }
}

/// The sum of the first gaps does not depend on the gaps that follow.
pub proof fn lemma_gaps_sum_prefix(gaps: Seq<nat>, other: Seq<nat>, upto: int)
    requires
        upto <= gaps.len(),
        upto <= other.len(),
        forall|r: int| 0 <= r < upto ==> gaps[r] == other[r],
    ensures
        gaps_sum(gaps, upto) == gaps_sum(other, upto),
    decreases upto,
{
    if upto > 0 {
        lemma_gaps_sum_prefix(gaps, other, upto - 1);
    }
}

/// The gaps of a sorted edge list add up to its successors.
pub proof fn lemma_edge_gaps_sum(edges: Seq<Pos>, upto: int)
    requires
        strictly_increasing(edges),
        0 < upto <= edges.len(),
    ensures
        gaps_sum(edge_gaps(edges), upto) == edges[upto - 1].node,
    decreases upto,
{
    let gaps = edge_gaps(edges);
    if upto > 1 {
        lemma_edge_gaps_sum(edges, upto - 1);
        assert(edges[upto - 2].node < edges[upto - 1].node);
        assert(gaps[upto - 1] == edges[upto - 1].node - edges[upto - 2].node);
    } else {
        assert(gaps_sum(gaps, 0) == 0);
        assert(gaps[0] == edges[0].node);
    }
}

/// An edge list that was decoded has as many edges as were announced, sorted
/// by successor without repetition.
pub proof fn lemma_edges_from_increasing(gaps: Seq<nat>, offsets: Seq<nat>)
    requires
        gaps.len() == offsets.len(),
        edge_fields_fit(gaps, offsets),
    ensures
        strictly_increasing(edges_from(gaps, offsets)),
{
    let edges = edges_from(gaps, offsets);
    assert forall|a: int, b: int| 0 <= a < b < edges.len() implies edges[a].node
        < edges[b].node by {
        lemma_gaps_sum_monotone(gaps, a + 1, b);
        lemma_gaps_sum_monotone(gaps, b + 1, gaps.len() as int);
        assert(gaps[b] >= 1);
    }
}

/// What was decoded as an edge list is one: it has an edge and its
/// successors are strictly increasing.
pub proof fn lemma_edges_decoding_valid(bytes: Seq<u8>)
    ensures
        edges_decoding(bytes) matches Some((edges, next)) ==> {
            &&& edges.len() >= 1
            &&& strictly_increasing(edges)
            &&& edges.len() <= next <= bytes.len()
        },
{
    if let Some((count, first)) = int_decoding(bytes, 0) {
        lemma_int_decoding_bounds(bytes, 0);
        if let Some((gaps, second)) = ints_at(bytes, first, count) {
            lemma_ints_at_prefix(bytes, first, count, count);
            if let Some((offsets, next)) = ints_at(bytes, second, count) {
                lemma_ints_at_prefix(bytes, second, count, count);
                if count >= 1 && edge_fields_fit(gaps, offsets) {
                    lemma_edges_from_increasing(gaps, offsets);
                }
            }
        }
    }
}

/// Decoding inverts encoding: before any `suffix`, the encoding of an edge
/// list with an edge and strictly increasing successors decodes to that list
/// and ends where the suffix begins.
pub proof fn lemma_edges_round_trip(edges: Seq<Pos>, suffix: Seq<u8>)
    requires
        edges.len() >= 1,
        strictly_increasing(edges),
    ensures
        edges_decoding(edges_encoding(edges) + suffix) == Some(
            (edges, edges_encoding(edges).len() as int),
        ),
{
    let count = edges.len();
    let gaps = edge_gaps(edges);
    let offsets = edge_offsets(edges);
    let head = int_encoding(count);
    let gap_code = ints_encoding(gaps);
    let offset_code = ints_encoding(offsets);
    let bytes = edges_encoding(edges) + suffix;
    let empty = Seq::<u8>::empty();
    assert(bytes =~= empty + head + (gap_code + offset_code + suffix));
    lemma_int_round_trip(empty, count, gap_code + offset_code + suffix);
    assert(bytes =~= head + gap_code + (offset_code + suffix));
    lemma_ints_at_round_trip(head, gaps, offset_code + suffix);
    assert(bytes =~= (head + gap_code) + offset_code + suffix);
    lemma_ints_at_round_trip(head + gap_code, offsets, suffix);
    assert(edge_fields_fit(gaps, offsets)) by {
        lemma_edge_gaps_sum(edges, count as int);
    }
    assert(edges_from(gaps, offsets) =~= edges) by {
        assert forall|r: int| 0 <= r < count implies edges_from(gaps, offsets)[r] == edges[r] by {
            lemma_edge_gaps_sum(edges, r + 1);
        }
    }
}

/// The ranks of a sequence of runs are those of its non-empty runs.
pub proof fn lemma_expand_nonempty(runs: Seq<Run>)
    ensures
        expand(nonempty_runs(runs)) == expand(runs),
    decreases runs.len(),
{
    if runs.len() > 0 {
        let init = runs.drop_last();
        let last = runs.last();
        lemma_expand_nonempty(init);
        assert(init + seq![last] =~= runs);
        lemma_expand_concat(init, seq![last]);
        assert(expand(seq![last]) =~= run_block(last)) by {
            lemma_expand_first(last, Seq::<Run>::empty());
            assert(seq![last] + Seq::<Run>::empty() =~= seq![last]);
        }
        if last.len > 0 {
            assert(nonempty_runs(init).push(last) =~= nonempty_runs(init) + seq![last]);
            lemma_expand_concat(nonempty_runs(init), seq![last]);
        } else {
            assert(run_block(last) =~= Seq::<usize>::empty());
            assert(expand(init) + Seq::<usize>::empty() =~= expand(init));
        }
    }
}

/// A record that was written is read back: the bytes of a record start with
/// its edge list, and the rest holds the ranks that its runs stand for.
pub proof fn lemma_record_round_trip(edges: Seq<Pos>, runs: Seq<Run>)
    requires
        1 <= edges.len() <= usize::MAX,
        strictly_increasing(edges),
        encodable_runs(edges.len() as usize, runs),
    ensures
        edges_decoding(record_encoding(edges, runs)) == Some(
            (edges, edges_encoding(edges).len() as int),
        ),
        ranks_decoding(
            record_encoding(edges, runs).skip(edges_encoding(edges).len() as int),
            edges.len() as usize,
        ) == expand(runs),
        record_encoding(edges, runs).len() >= 1,
{
    let sigma = edges.len() as usize;
    let run_code = runs_encoding(sigma, runs);
    lemma_edges_round_trip(edges, run_code);
    let bwt = record_encoding(edges, runs).skip(edges_encoding(edges).len() as int);
    assert(bwt =~= run_code);
    let empty = Seq::<u8>::empty();
    assert(empty + run_code =~= run_code);
    lemma_runs_round_trip(empty, sigma, runs);
    lemma_expand_nonempty(runs);
    lemma_int_encoding_len(edges.len());
}

/// What was written for a record is read back as that record: its bytes hold
/// its edge list and the ranks that its runs stand for.
pub proof fn lemma_built_record(edges: Seq<Pos>, runs: Seq<Run>)
    requires
        encodable_runs(edges.len() as usize, runs),
        valid_record(edges, expand(runs)),
    ensures
        record_decoding(record_encoding(edges, runs)) == Some(
            (edges, expand(runs), edges_encoding(edges).len() as int),
        ),
{
    lemma_record_round_trip(edges, runs);
}

/// Bytes that hold a record are not empty.
pub proof fn lemma_record_decoding_nonempty(bytes: Seq<u8>)
    ensures
        record_decoding(bytes) is Some ==> bytes.len() >= 1,
{
    lemma_edges_decoding_valid(bytes);
}

} // verus!
