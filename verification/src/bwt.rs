//! The BWT stored as an array of compressed node records.

use vstd::prelude::*;
use vstd::slice::slice_subrange;
use vstd::std_specs::convert::FromSpecImpl;
use std::ops::Range;
use simple_sds::int_vector::IntVector;
use crate::ENDMARKER;
use crate::sds::{int_vector_get, int_vector_items, int_vector_len, int_vector_sound};
use crate::support::{zeros, ByteCodeIter, RLEIter, Run, RLE};
use crate::support::bytecode::{
    int_decoding, int_encoding, ints_at, ints_encoding, lemma_int_decoding_bounds,
};
use crate::support::indexed::{
    check_index, lemma_index_fault, pack_offsets, slices_of, valid_index, vector_fault,
    InvalidData, MAX_ITEMS,
};
use crate::support::rle::{encodable_runs, runs_encoding};
use self::format::{
    edge_fields_fit, edge_gaps, edge_offsets, edges_decoding, edges_encoding, edges_from,
    gaps_sum, has_record, lemma_edges_decoding_gap_fails, lemma_edges_decoding_offset_fails,
    lemma_edges_decoding_valid, lemma_record_decoding_nonempty, ranks_decoding, record_decoding,
    record_encoding,
};
use self::model::{
    count_between, edge_rank, expand, lands, lemma_count_block, lemma_count_monotone,
    lemma_count_step, lemma_edge_rank, lemma_edge_rank_none, lemma_expand_first, lemma_lf_fits,
    lemma_offset_to_found, lemma_predecessor_found, lemma_predecessor_none, lemma_scan_block,
    lf_target, occurrences, run_block, smaller_in_range, spec_decompress, spec_follow, spec_lf,
    spec_offset_to, spec_predecessor_at, strictly_increasing, valid_record,
};

pub mod model;
pub mod format;
pub mod pos;

pub use self::pos::Pos;

verus! {

//-----------------------------------------------------------------------------

/// What a record is, apart from its bytes: its identifier, its edge list and
/// the sequence of ranks that its runs stand for.
pub struct RecordView {
    /// Identifier of the record.
    pub id: usize,
    /// The edges, sorted by successor.
    pub edges: Seq<Pos>,
    /// For each position of the record, the rank of the edge that it follows.
    pub ranks: Seq<usize>,
}

/// A record of the BWT: the outgoing edges of a node and, for each path
/// position at the node, the rank of the edge that the path takes next.
///
/// The record borrows the bytes of its runs and decodes them on each query.
/// Its edge list is decoded once, when the record is made.
#[derive(Debug, PartialEq, Eq)]
pub struct Record<'a> {
    id: usize,
    edges: Vec<Pos>,
    bwt: &'a [u8],
    len: usize,
}

impl<'a> Clone for Record<'a> {
    fn clone(&self) -> (result: Self)
        ensures
            result@ == self@,
            result.run_bytes() == self.run_bytes(),
    {
        proof {
            use_type_invariant(self);
        }
        let edges: Vec<Pos> = self.edges.clone();
        assert(edges@ =~= self.edges@);
        Record { id: self.id, edges, bwt: self.bwt, len: self.len }
    }
}

impl<'a> View for Record<'a> {
    type V = RecordView;

    closed spec fn view(&self) -> RecordView {
        RecordView {
            id: self.id,
            edges: self.edges@,
            ranks: ranks_decoding(self.bwt@, self.edges@.len() as usize),
        }
    }
}

impl<'a> Record<'a> {
    #[verifier::type_invariant]
    spec fn inv(&self) -> bool {
        &&& valid_record(self.edges@, ranks_decoding(self.bwt@, self.edges@.len() as usize))
        &&& self.len == ranks_decoding(self.bwt@, self.edges@.len() as usize).len()
    }

    /// The bytes that hold the runs of the record.
    pub closed spec fn run_bytes(&self) -> Seq<u8> {
        self.bwt@
    }

    /// Creates the record with identifier `id` from its bytes.
    ///
    /// Returns `None` if the bytes do not hold a record: they do not start
    /// with an edge list, a run names a rank that no edge has, or the length
    /// of the record or a position that it leads to exceeds `usize`.
    pub fn new(id: usize, bytes: &'a [u8]) -> (result: Option<Self>)
        ensures
            match record_decoding(bytes@) {
                Some((edges, ranks, split)) => {
                    &&& result matches Some(record)
                    &&& record@ == (RecordView { id, edges, ranks })
                    &&& record.run_bytes() == bytes@.skip(split)
                    &&& valid_record(edges, ranks)
                },
                None => result is None,
            },
    {
        let (edges, split) = match Self::decompress_edges(bytes) {
            Some(decoded) => decoded,
            None => {
                return None;
            },
        };
        proof {
            lemma_edges_decoding_valid(bytes@);
        }
        let bwt: &[u8] = slice_subrange(bytes, split, bytes.len());
        assert(bwt@ =~= bytes@.skip(split as int));
        let sigma: usize = edges.len();
        let ghost ranks = ranks_decoding(bwt@, sigma);

        // The position after the last occurrence so far, for each rank.
        let mut ends: Vec<usize> = Vec::new();
        let mut r: usize = 0;
        while r < sigma
            invariant
                sigma == edges@.len(),
                r <= sigma,
                ends@.len() == r,
                forall|q: int| 0 <= q < r ==> #[trigger] ends@[q] == edges@[q].offset,
            decreases sigma - r,
        {
            ends.push(edges[r].offset);
            r += 1;
        }

        let mut iter = RLEIter::with_sigma(bwt, sigma);
        let mut len: usize = 0;
        let ghost mut prefix: Seq<usize> = Seq::empty();
        assert(ranks =~= prefix + expand(iter.remaining()));
        loop
            invariant
                1 <= sigma == edges@.len(),
                edges_decoding(bytes@) == Some((edges@, split as int)),
                bwt@ == bytes@.skip(split as int),
                ranks == ranks_decoding(bwt@, sigma),
                strictly_increasing(edges@),
                iter.wf(),
                iter.source() == bwt@,
                iter.alphabet() == sigma,
                0 <= iter.position() <= bwt@.len(),
                ranks == prefix + expand(iter.remaining()),
                prefix.len() == len,
                forall|i: int| 0 <= i < len ==> #[trigger] prefix[i] < sigma,
                ends@.len() == sigma,
                forall|q: int|
                    0 <= q < sigma ==> #[trigger] ends@[q] == edges@[q].offset + occurrences(
                        ranks,
                        q,
                        len as int,
                    ),
            ensures
                ranks == prefix,
            decreases bwt@.len() - iter.position(),
        {
            proof {
                crate::support::rle::lemma_run_decoding_bounds(bwt@, iter.position(), sigma);
            }
            let ghost before = iter.remaining();
            let run: Run = match iter.next() {
                Some(run) => run,
                None => {
                    assert(expand(before) =~= Seq::<usize>::empty());
                    assert(prefix + Seq::<usize>::empty() =~= prefix);
                    break ;
                },
            };
            proof {
                lemma_expand_first(run, iter.remaining());
                assert(ranks =~= (prefix + run_block(run)) + expand(iter.remaining()));
                assert(ranks[len as int] == run.value);
            }
            if run.value >= sigma {
                assert(!valid_record(edges@, ranks));
                return None;
            }
            let longer: usize = match len.checked_add(run.len) {
                Some(longer) => longer,
                None => {
                    assert(!valid_record(edges@, ranks));
                    return None;
                },
            };
            proof {
                assert forall|q: int| 0 <= q < sigma implies occurrences(ranks, q, longer as int)
                    == occurrences(ranks, q, len as int) + if q == run.value {
                    run.len as int
                } else {
                    0
                } by {
                    lemma_count_block(ranks, q, q + 1, len as int, longer as int, run.value);
                }
            }
            let end: usize = match ends[run.value].checked_add(run.len) {
                Some(end) => end,
                None => {
                    proof {
                        let v = run.value as int;
                        assert(ranks.len() >= longer);
                        lemma_count_monotone(ranks, v, v + 1, longer as int, ranks.len() as int);
                        assert(ends@[v] == edges@[v].offset + occurrences(ranks, v, len as int));
                        assert(occurrences(ranks, v, longer as int) == occurrences(
                            ranks,
                            v,
                            len as int,
                        ) + run.len);
                        assert(edges@[v].offset + occurrences(ranks, v, ranks.len() as int)
                            > usize::MAX);
                    }
                    assert(!valid_record(edges@, ranks));
                    return None;
                },
            };
            ends.set(run.value, end);
            len = longer;
            proof {
                prefix = prefix + run_block(run);
            }
        }
        proof {
            assert forall|q: int| 0 <= q < edges@.len() implies (#[trigger] edges@[q]).offset
                + occurrences(ranks, q, ranks.len() as int) <= usize::MAX by {
                assert(ends@[q] == edges@[q].offset + occurrences(ranks, q, len as int));
            }
            assert(valid_record(edges@, ranks));
        }
        Some(Record { id, edges, bwt, len })
    }

    /// Reads the edge list at the start of the bytes of a record.
    ///
    /// Returns the edges and the number of bytes that they take, or `None`
    /// if the bytes do not start with an edge list.
    pub fn decompress_edges(bytes: &[u8]) -> (result: Option<(Vec<Pos>, usize)>)
        ensures
            match edges_decoding(bytes@) {
                Some((edges, next)) => result matches Some((list, offset)) && list@ == edges
                    && offset == next,
                None => result is None,
            },
    {
        let total: usize = bytes.len();
        let mut iter = ByteCodeIter::new(bytes);
        let sigma: usize = match iter.next() {
            Some(sigma) => sigma,
            None => {
                proof {
                    assert(bytes@.len() == total);
                    lemma_edges_decoding_huge(bytes@);
                }
                return None;
            },
        };
        if sigma == 0 {
            return None;
        }
        let ghost first = iter.position();
        let ghost mut gaps: Seq<nat> = Seq::empty();
        let mut edges: Vec<Pos> = Vec::new();
        let mut prev: usize = 0;
        let mut r: usize = 0;
        while r < sigma
            invariant
                iter.source() == bytes@,
                int_decoding(bytes@, 0) == Some((sigma as nat, first)),
                r <= sigma,
                ints_at(bytes@, first, r as nat) == Some((gaps, iter.position())),
                gaps.len() == r,
                edges@.len() == r,
                forall|q: int| 1 <= q < r ==> #[trigger] gaps[q] >= 1,
                gaps_sum(gaps, r as int) == prev,
                forall|q: int|
                    0 <= q < r ==> (#[trigger] edges@[q]).node == gaps_sum(gaps, q + 1),
            decreases sigma - r,
        {
            let ghost pos = iter.position();
            let gap: usize = match iter.next() {
                Some(gap) => gap,
                None => {
                    proof {
                        lemma_edges_decoding_gap_fails(
                            bytes@,
                            sigma as nat,
                            first,
                            r as nat,
                            gaps,
                            pos,
                        );
                    }
                    return None;
                },
            };
            if r > 0 && gap == 0 {
                proof {
                    lemma_edges_decoding_gap_fails(bytes@, sigma as nat, first, r as nat, gaps, pos);
                }
                return None;
            }
            let node: usize = match prev.checked_add(gap) {
                Some(node) => node,
                None => {
                    proof {
                        lemma_edges_decoding_gap_fails(
                            bytes@,
                            sigma as nat,
                            first,
                            r as nat,
                            gaps,
                            pos,
                        );
                    }
                    return None;
                },
            };
            proof {
                let longer = gaps.push(gap as nat);
                assert forall|q: int| 0 <= q <= r implies gaps_sum(longer, q) == gaps_sum(
                    gaps,
                    q,
                ) by {
                    self::format::lemma_gaps_sum_prefix(longer, gaps, q);
                }
                gaps = longer;
            }
            edges.push(Pos { node, offset: 0 });
            prev = node;
            r += 1;
        }
        let ghost second = iter.position();
        let ghost mut offsets: Seq<nat> = Seq::empty();
        let mut r: usize = 0;
        while r < sigma
            invariant
                iter.source() == bytes@,
                int_decoding(bytes@, 0) == Some((sigma as nat, first)),
                ints_at(bytes@, first, sigma as nat) == Some((gaps, second)),
                r <= sigma,
                ints_at(bytes@, second, r as nat) == Some((offsets, iter.position())),
                gaps.len() == sigma,
                offsets.len() == r,
                edges@.len() == sigma,
                forall|q: int| 0 <= q < r ==> #[trigger] offsets[q] <= usize::MAX,
                forall|q: int|
                    0 <= q < sigma ==> (#[trigger] edges@[q]).node == gaps_sum(gaps, q + 1),
                forall|q: int| 0 <= q < r ==> (#[trigger] edges@[q]).offset == offsets[q],
            decreases sigma - r,
        {
            let ghost pos = iter.position();
            let offset: usize = match iter.next() {
                Some(offset) => offset,
                None => {
                    proof {
                        lemma_edges_decoding_offset_fails(
                            bytes@,
                            sigma as nat,
                            first,
                            gaps,
                            second,
                            r as nat,
                            offsets,
                            pos,
                        );
                    }
                    return None;
                },
            };
            let node: usize = edges[r].node;
            edges.set(r, Pos { node, offset });
            proof {
                offsets = offsets.push(offset as nat);
            }
            r += 1;
        }
        proof {
            assert(edge_fields_fit(gaps, offsets));
            assert(edges@ =~= edges_from(gaps, offsets));
        }
        Some((edges, iter.offset()))
    }

    /// Returns the identifier of the record.
    #[inline]
    pub fn id(&self) -> (result: usize)
        ensures
            result == self@.id,
    {
        self.id
    }

    /// Returns the number of outgoing edges, which is at least one.
    #[inline]
    pub fn outdegree(&self) -> (result: usize)
        ensures
            result == self@.edges.len(),
            result >= 1,
            valid_record(self@.edges, self@.ranks),
    {
        proof {
            use_type_invariant(self);
        }
        self.edges.len()
    }

    /// Returns the successor node of rank `i`.
    #[inline]
    pub fn successor(&self, i: usize) -> (result: usize)
        requires
            i < self@.edges.len(),
        ensures
            result == self@.edges[i as int].node,
    {
        self.edges[i].node
    }

    /// Returns the offset of the edge of rank `i`: the position in the
    /// record of the successor that the first path along the edge goes to.
    #[inline]
    pub fn offset(&self, i: usize) -> (result: usize)
        requires
            i < self@.edges.len(),
        ensures
            result == self@.edges[i as int].offset,
    {
        self.edges[i].offset
    }

    /// Returns the number of positions in the record.
    #[inline]
    pub fn len(&self) -> (result: usize)
        ensures
            result == self@.ranks.len(),
    {
        proof {
            use_type_invariant(self);
        }
        self.len
    }

    /// Returns `true` if the record has no positions.
    #[inline]
    pub fn is_empty(&self) -> (result: bool)
        ensures
            result == (self@.ranks.len() == 0),
    {
        proof {
            use_type_invariant(self);
        }
        self.len == 0
    }

    /// Returns the position that position `i` is mapped to: the position in
    /// the record of the successor that the path at `i` continues from.
    ///
    /// Returns `None` if `i` is past the end of the record or the path ends
    /// here (its successor is the endmarker).
    pub fn lf(&self, i: usize) -> (result: Option<Pos>)
        ensures
            result == spec_lf(self@.edges, self@.ranks, i as int),
    {
        proof {
            use_type_invariant(self);
        }
        if i >= self.len {
            return None;
        }
        let sigma: usize = self.edges.len();
        let ghost edges = self.edges@;
        let ghost ranks = ranks_decoding(self.bwt@, sigma);
        let mut counts: Vec<usize> = zeros(sigma);
        let mut iter = RLEIter::with_sigma(self.bwt, sigma);
        let mut offset: usize = 0;
        let ghost mut prefix: Seq<usize> = Seq::empty();
        assert(ranks =~= prefix + expand(iter.remaining()));
        loop
            invariant
                valid_record(edges, ranks),
                edges == self.edges@,
                sigma == edges.len(),
                self@.edges == edges,
                self@.ranks == ranks,
                iter.wf(),
                iter.source() == self.bwt@,
                iter.alphabet() == sigma,
                0 <= iter.position() <= self.bwt@.len(),
                ranks == prefix + expand(iter.remaining()),
                prefix.len() == offset,
                offset <= i < ranks.len(),
                counts@.len() == sigma,
                forall|q: int|
                    0 <= q < sigma ==> #[trigger] counts@[q] == occurrences(
                        ranks,
                        q,
                        offset as int,
                    ),
            decreases self.bwt@.len() - iter.position(),
        {
            proof {
                crate::support::rle::lemma_run_decoding_bounds(self.bwt@, iter.position(), sigma);
            }
            let ghost before = iter.remaining();
            let run: Run = match iter.next() {
                Some(run) => run,
                None => {
                    assert(expand(before) =~= Seq::<usize>::empty());
                    assert(prefix + Seq::<usize>::empty() =~= prefix);
                    return None;
                },
            };
            proof {
                lemma_expand_first(run, iter.remaining());
                assert(ranks =~= (prefix + run_block(run)) + expand(iter.remaining()));
                assert(ranks[offset as int] == run.value);
                assert(ranks.len() >= offset + run.len);
                let v = run.value as int;
                lemma_scan_block(ranks, offset as int, offset + run.len, run.value);
                lemma_count_monotone(ranks, v, v + 1, offset + run.len, ranks.len() as int);
                assert(counts@[v] == occurrences(ranks, v, offset as int));
                assert(occurrences(ranks, v, offset + run.len) == occurrences(
                    ranks,
                    v,
                    offset as int,
                ) + run.len);
                assert(edges[v].offset + occurrences(ranks, v, ranks.len() as int) <= usize::MAX);
            }
            if run.len > i - offset {
                let edge: Pos = self.edges[run.value];
                proof {
                    assert(ranks[i as int] == run.value);
                    lemma_scan_block(ranks, offset as int, i as int, run.value);
                    lemma_lf_fits(edges, ranks, i as int);
                }
                if edge.node == ENDMARKER {
                    return None;
                }
                return Some(
                    Pos { node: edge.node, offset: edge.offset + counts[run.value] + (i - offset) },
                );
            }
            counts.set(run.value, counts[run.value] + run.len);
            offset += run.len;
            proof {
                prefix = prefix + run_block(run);
            }
        }
    }

    /// Returns the positions that the positions of the record are mapped to,
    /// in order. The paths that end here are mapped into the record of the
    /// endmarker.
    pub fn decompress(&self) -> (result: Vec<Pos>)
        ensures
            result@ == spec_decompress(self@.edges, self@.ranks),
    {
        proof {
            use_type_invariant(self);
        }
        let sigma: usize = self.edges.len();
        let ghost edges = self.edges@;
        let ghost ranks = ranks_decoding(self.bwt@, sigma);
        let mut result: Vec<Pos> = Vec::new();
        let mut counts: Vec<usize> = zeros(sigma);
        let mut iter = RLEIter::with_sigma(self.bwt, sigma);
        let mut offset: usize = 0;
        let ghost mut prefix: Seq<usize> = Seq::empty();
        assert(ranks =~= prefix + expand(iter.remaining()));
        loop
            invariant
                valid_record(edges, ranks),
                edges == self.edges@,
                sigma == edges.len(),
                iter.wf(),
                iter.source() == self.bwt@,
                iter.alphabet() == sigma,
                0 <= iter.position() <= self.bwt@.len(),
                ranks == prefix + expand(iter.remaining()),
                prefix.len() == offset,
                offset <= ranks.len(),
                counts@.len() == sigma,
                forall|q: int|
                    0 <= q < sigma ==> #[trigger] counts@[q] == occurrences(
                        ranks,
                        q,
                        offset as int,
                    ),
                result@.len() == offset,
                forall|x: int| 0 <= x < offset ==> #[trigger] result@[x] == lf_target(edges, ranks, x),
            ensures
                result@.len() == ranks.len(),
                forall|x: int|
                    0 <= x < ranks.len() ==> #[trigger] result@[x] == lf_target(edges, ranks, x),
            decreases self.bwt@.len() - iter.position(),
        {
            proof {
                crate::support::rle::lemma_run_decoding_bounds(self.bwt@, iter.position(), sigma);
            }
            let ghost before = iter.remaining();
            let run: Run = match iter.next() {
                Some(run) => run,
                None => {
                    assert(expand(before) =~= Seq::<usize>::empty());
                    assert(prefix + Seq::<usize>::empty() =~= prefix);
                    break ;
                },
            };
            proof {
                lemma_expand_first(run, iter.remaining());
                assert(ranks =~= (prefix + run_block(run)) + expand(iter.remaining()));
                assert(ranks[offset as int] == run.value);
                assert(ranks.len() >= offset + run.len);
                let v = run.value as int;
                lemma_scan_block(ranks, offset as int, offset + run.len, run.value);
                lemma_count_monotone(ranks, v, v + 1, offset + run.len, ranks.len() as int);
                assert(counts@[v] == occurrences(ranks, v, offset as int));
                assert(occurrences(ranks, v, offset + run.len) == occurrences(
                    ranks,
                    v,
                    offset as int,
                ) + run.len);
                assert(edges[v].offset + occurrences(ranks, v, ranks.len() as int) <= usize::MAX);
            }
            let edge: Pos = self.edges[run.value];
            let base: usize = edge.offset + counts[run.value];
            let mut j: usize = 0;
            while j < run.len
                invariant
                    valid_record(edges, ranks),
                    j <= run.len,
                    offset + run.len <= ranks.len(),
                    run.value < edges.len(),
                    edge == edges[run.value as int],
                    base == edge.offset + occurrences(ranks, run.value as int, offset as int),
                    base + run.len <= usize::MAX,
                    forall|x: int| offset <= x < offset + run.len ==> ranks[x] == run.value,
                    result@.len() == offset + j,
                    forall|x: int|
                        0 <= x < offset + j ==> #[trigger] result@[x] == lf_target(
                            edges,
                            ranks,
                            x,
                        ),
                decreases run.len - j,
            {
                proof {
                    lemma_scan_block(ranks, offset as int, offset + j, run.value);
                    lemma_lf_fits(edges, ranks, offset + j);
                }
                result.push(Pos { node: edge.node, offset: base + j });
                j += 1;
            }
            counts.set(run.value, counts[run.value] + run.len);
            offset += run.len;
            proof {
                prefix = prefix + run_block(run);
            }
        }
        assert(result@ =~= spec_decompress(edges, ranks));
        result
    }

    // Returns the rank of the edge to `node`, if there is one.
    fn edge_to(&self, node: usize) -> (result: Option<usize>)
        ensures
            match edge_rank(self@.edges, node) {
                Some(r) => result == Some(r as usize) && 0 <= r < self@.edges.len(),
                None => result is None,
            },
    {
        proof {
            use_type_invariant(self);
            lemma_edge_rank_none(self.edges@, node);
        }
        let sigma: usize = self.edges.len();
        let mut rank: usize = 0;
        while rank < sigma
            invariant
                sigma == self.edges@.len(),
                rank <= sigma,
                strictly_increasing(self.edges@),
                self@.edges == self.edges@,
                forall|q: int| 0 <= q < rank ==> (#[trigger] self.edges@[q]).node != node,
            decreases sigma - rank,
        {
            if self.edges[rank].node == node {
                proof {
                    lemma_edge_rank(self.edges@, rank as int);
                }
                return Some(rank);
            }
            rank += 1;
        }
        None
    }

    /// Follows the edge to `node` from every position of `range`.
    ///
    /// Returns the range of positions in the record of `node` that the
    /// positions of `range` with an edge to `node` are mapped to, or `None`
    /// if there are none: the range is empty, no position in it has such an
    /// edge, or `node` is the endmarker. The part of `range` past the end of
    /// the record is ignored.
    pub fn follow(&self, range: Range<usize>, node: usize) -> (result: Option<Range<usize>>)
        ensures
            match spec_follow(
                self@.edges,
                self@.ranks,
                range.start as int,
                range.end as int,
                node,
            ) {
                Some((first, last)) => result matches Some(found) && found.start == first
                    && found.end == last,
                None => result is None,
            },
    {
        match self.bd_follow(range, node) {
            Some((found, _)) => Some(found),
            None => None,
        }
    }

    /// Follows the edge to `node` from every position of `range`, for
    /// bidirectional search.
    ///
    /// Returns what [`Record::follow`] returns, together with the number of
    /// positions in `range` whose edge has a lower rank than the edge to
    /// `node`.
    pub fn bd_follow(&self, range: Range<usize>, node: usize) -> (result: Option<
        (Range<usize>, usize),
    >)
        ensures
            match spec_follow(
                self@.edges,
                self@.ranks,
                range.start as int,
                range.end as int,
                node,
            ) {
                Some((first, last)) => {
                    &&& result matches Some((found, before))
                    &&& found.start == first
                    &&& found.end == last
                    &&& edge_rank(self@.edges, node) matches Some(rank)
                    &&& before == smaller_in_range(
                        self@.ranks,
                        rank,
                        range.start as int,
                        range.end as int,
                    )
                },
                None => result is None,
            },
    {
        proof {
            use_type_invariant(self);
        }
        let start: usize = range.start;
        let limit: usize = range.end;
        if start >= limit || node == ENDMARKER {
            return None;
        }
        let rank: usize = match self.edge_to(node) {
            Some(rank) => rank,
            None => {
                return None;
            },
        };
        let sigma: usize = self.edges.len();
        let ghost edges = self.edges@;
        let ghost ranks = ranks_decoding(self.bwt@, sigma);
        let base: usize = self.edges[rank].offset;
        let mut first: usize = base;
        let mut last: usize = base;
        let mut before: usize = 0;
        let mut iter = RLEIter::with_sigma(self.bwt, sigma);
        let mut offset: usize = 0;
        let ghost mut prefix: Seq<usize> = Seq::empty();
        assert(ranks =~= prefix + expand(iter.remaining()));
        loop
            invariant
                valid_record(edges, ranks),
                sigma == edges.len(),
                rank < sigma,
                base == edges[rank as int].offset,
                start < limit,
                iter.wf(),
                iter.source() == self.bwt@,
                iter.alphabet() == sigma,
                0 <= iter.position() <= self.bwt@.len(),
                ranks == prefix + expand(iter.remaining()),
                prefix.len() == offset,
                offset <= ranks.len(),
                first == base + occurrences(ranks, rank as int, vstd::math::min(offset as int, start as int)),
                last == base + occurrences(ranks, rank as int, vstd::math::min(offset as int, limit as int)),
                before == count_between(ranks, 0, rank as int, vstd::math::min(offset as int, limit as int))
                    - count_between(ranks, 0, rank as int, vstd::math::min(offset as int, start as int)),
            ensures
                first == base + occurrences(ranks, rank as int, start as int),
                last == base + occurrences(ranks, rank as int, limit as int),
                before == smaller_in_range(ranks, rank as int, start as int, limit as int),
            decreases self.bwt@.len() - iter.position(),
        {
            if offset >= limit {
                break ;
            }
            proof {
                crate::support::rle::lemma_run_decoding_bounds(self.bwt@, iter.position(), sigma);
            }
            let ghost remaining = iter.remaining();
            let run: Run = match iter.next() {
                Some(run) => run,
                None => {
                    assert(expand(remaining) =~= Seq::<usize>::empty());
                    assert(prefix + Seq::<usize>::empty() =~= prefix);
                    break ;
                },
            };
            // The positions of the run before the start and before the limit of the range.
            let skipped: usize = if start > offset {
                if start - offset < run.len {
                    start - offset
                } else {
                    run.len
                }
            } else {
                0
            };
            let taken: usize = if limit - offset < run.len {
                limit - offset
            } else {
                run.len
            };
            proof {
                let r = rank as int;
                let v = run.value;
                lemma_expand_first(run, iter.remaining());
                assert(ranks =~= (prefix + run_block(run)) + expand(iter.remaining()));
                assert(ranks.len() >= offset + run.len);
                let a0 = vstd::math::min(offset as int, start as int);
                let a1 = vstd::math::min(offset + run.len, start as int);
                let b0 = offset as int;
                let b1 = vstd::math::min(offset + run.len, limit as int);
                assert(a1 == a0 + skipped);
                assert(b1 == b0 + taken);
                if start > offset {
                    lemma_scan_block(ranks, a0, a1, v);
                }
                lemma_scan_block(ranks, b0, b1, v);
                assert(occurrences(ranks, r, a1) == occurrences(ranks, r, a0) + if r == v {
                    skipped as int
                } else {
                    0
                });
                assert(occurrences(ranks, r, b1) == occurrences(ranks, r, b0) + if r == v {
                    taken as int
                } else {
                    0
                });
                assert(count_between(ranks, 0, r, a1) == count_between(ranks, 0, r, a0) + if v < r {
                    skipped as int
                } else {
                    0
                });
                assert(count_between(ranks, 0, r, b1) == count_between(ranks, 0, r, b0) + if v < r {
                    taken as int
                } else {
                    0
                });
                lemma_count_monotone(ranks, r, r + 1, b1, ranks.len() as int);
                lemma_count_monotone(ranks, r, r + 1, a1, b1);
                lemma_count_monotone(ranks, 0, r, 0, b1);
                assert(edges[r].offset + occurrences(ranks, r, ranks.len() as int) <= usize::MAX);
            }
            if run.value == rank {
                first += skipped;
                last += taken;
            } else if run.value < rank {
                before += taken - skipped;
            }
            offset += run.len;
            proof {
                prefix = prefix + run_block(run);
            }
        }
        if first < last {
            Some((first..last, before))
        } else {
            None
        }
    }

    /// Returns the position of the record that is mapped to `pos`, or `None`
    /// if there is none: no edge leads to the node of `pos`, that node is the
    /// endmarker, or no path along the edge arrives at the offset of `pos`.
    ///
    /// This inverts [`Record::lf`].
    pub fn offset_to(&self, pos: Pos) -> (result: Option<usize>)
        ensures
            match spec_offset_to(self@.edges, self@.ranks, pos) {
                Some(i) => result == Some(i as usize) && i < self@.ranks.len(),
                None => result is None,
            },
            result matches Some(i) ==> spec_lf(self@.edges, self@.ranks, i as int) == Some(pos),
    {
        proof {
            use_type_invariant(self);
        }
        let sigma: usize = self.edges.len();
        let ghost edges = self.edges@;
        let ghost ranks = ranks_decoding(self.bwt@, sigma);
        if pos.node == ENDMARKER {
            return None;
        }
        let rank: usize = match self.edge_to(pos.node) {
            Some(rank) => rank,
            None => {
                proof {
                    lemma_edge_rank_none(edges, pos.node);
                    assert forall|j: int| 0 <= j < ranks.len() implies spec_lf(edges, ranks, j)
                        != Some(pos) by {
                        lemma_lf_fits(edges, ranks, j);
                    }
                }
                return None;
            },
        };
        proof {
            lemma_edge_rank_none(edges, pos.node);
        }
        let base: usize = self.edges[rank].offset;
        if pos.offset < base {
            proof {
                assert forall|j: int| 0 <= j < ranks.len() implies spec_lf(edges, ranks, j)
                    != Some(pos) by {
                    lemma_lf_fits(edges, ranks, j);
                    lemma_edge_rank(edges, ranks[j] as int);
                }
            }
            return None;
        }
        let target: usize = pos.offset - base;
        let mut seen: usize = 0;
        let mut iter = RLEIter::with_sigma(self.bwt, sigma);
        let mut offset: usize = 0;
        let ghost mut prefix: Seq<usize> = Seq::empty();
        assert(ranks =~= prefix + expand(iter.remaining()));
        loop
            invariant
                valid_record(edges, ranks),
                edges == self.edges@,
                self@.edges == edges,
                self@.ranks == ranks,
                sigma == edges.len(),
                rank < sigma,
                edges[rank as int].node == pos.node,
                pos.node != ENDMARKER,
                base == edges[rank as int].offset,
                pos.offset == base + target,
                iter.wf(),
                iter.source() == self.bwt@,
                iter.alphabet() == sigma,
                0 <= iter.position() <= self.bwt@.len(),
                ranks == prefix + expand(iter.remaining()),
                prefix.len() == offset,
                offset <= ranks.len(),
                seen == occurrences(ranks, rank as int, offset as int),
                seen <= target,
            ensures
                offset == ranks.len(),
                seen == occurrences(ranks, rank as int, ranks.len() as int),
                seen <= target,
            decreases self.bwt@.len() - iter.position(),
        {
            proof {
                crate::support::rle::lemma_run_decoding_bounds(self.bwt@, iter.position(), sigma);
            }
            let ghost remaining = iter.remaining();
            let run: Run = match iter.next() {
                Some(run) => run,
                None => {
                    assert(expand(remaining) =~= Seq::<usize>::empty());
                    assert(prefix + Seq::<usize>::empty() =~= prefix);
                    break ;
                },
            };
            proof {
                let r = rank as int;
                lemma_expand_first(run, iter.remaining());
                assert(ranks =~= (prefix + run_block(run)) + expand(iter.remaining()));
                assert(ranks.len() >= offset + run.len);
                lemma_scan_block(ranks, offset as int, offset + run.len, run.value);
                assert(occurrences(ranks, r, offset + run.len) == occurrences(
                    ranks,
                    r,
                    offset as int,
                ) + if r == run.value {
                    run.len as int
                } else {
                    0
                });
            }
            if run.value == rank {
                if run.len > target - seen {
                    let found: usize = offset + (target - seen);
                    proof {
                        let r = rank as int;
                        assert(ranks[found as int] == run.value);
                        lemma_scan_block(ranks, offset as int, found as int, run.value);
                        assert(occurrences(ranks, r, found as int) == occurrences(
                            ranks,
                            r,
                            offset as int,
                        ) + (found - offset));
                        lemma_lf_fits(edges, ranks, found as int);
                        assert(spec_lf(edges, ranks, found as int) == Some(pos));
                        lemma_offset_to_found(edges, ranks, pos, found as int);
                    }
                    return Some(found);
                }
                seen += run.len;
            }
            offset += run.len;
            proof {
                prefix = prefix + run_block(run);
            }
        }
        proof {
            let r = rank as int;
            assert forall|j: int| 0 <= j < ranks.len() implies spec_lf(edges, ranks, j) != Some(
                pos,
            ) by {
                lemma_lf_fits(edges, ranks, j);
                lemma_edge_rank(edges, ranks[j] as int);
                if ranks[j] == rank {
                    lemma_count_step(ranks, r, r + 1, j);
                    lemma_count_monotone(ranks, r, r + 1, j + 1, ranks.len() as int);
                }
            }
        }
        None
    }

    /// Returns the position of the record that is mapped to offset `i` of a
    /// successor, paired with the identifier of the record.
    ///
    /// Successors are tried in the order of their ranks, and the endmarker is
    /// left out: the result is for the first edge that has a path arriving at
    /// offset `i` of its successor. Returns `None` if there is no such edge.
    pub fn predecessor_at(&self, i: usize) -> (result: Option<Pos>)
        ensures
            match spec_predecessor_at(self@.edges, self@.ranks, self@.id, i) {
                Some((node, offset)) => result == Some(Pos { node, offset: offset as usize })
                    && offset < self@.ranks.len(),
                None => result is None,
            },
    {
        proof {
            use_type_invariant(self);
        }
        let sigma: usize = self.edges.len();
        let ghost edges = self.edges@;
        let ghost ranks = ranks_decoding(self.bwt@, sigma);
        // The best position so far, with its rank.
        let mut best: Option<(usize, usize)> = None;
        let mut counts: Vec<usize> = zeros(sigma);
        let mut iter = RLEIter::with_sigma(self.bwt, sigma);
        let mut offset: usize = 0;
        let ghost mut prefix: Seq<usize> = Seq::empty();
        assert(ranks =~= prefix + expand(iter.remaining()));
        loop
            invariant
                valid_record(edges, ranks),
                edges == self.edges@,
                sigma == edges.len(),
                iter.wf(),
                iter.source() == self.bwt@,
                iter.alphabet() == sigma,
                0 <= iter.position() <= self.bwt@.len(),
                ranks == prefix + expand(iter.remaining()),
                prefix.len() == offset,
                offset <= ranks.len(),
                counts@.len() == sigma,
                forall|q: int|
                    0 <= q < sigma ==> #[trigger] counts@[q] == occurrences(
                        ranks,
                        q,
                        offset as int,
                    ),
                match best {
                    Some((r, j)) => {
                        &&& j < offset
                        &&& lands(edges, ranks, j as int, i as int)
                        &&& ranks[j as int] == r
                        &&& forall|other: int|
                            0 <= other < offset && lands(edges, ranks, other, i as int) ==> r
                                <= ranks[other]
                    },
                    None => forall|other: int|
                        0 <= other < offset ==> !lands(edges, ranks, other, i as int),
                },
            ensures
                offset == ranks.len(),
                match best {
                    Some((r, j)) => {
                        &&& j < offset
                        &&& lands(edges, ranks, j as int, i as int)
                        &&& ranks[j as int] == r
                        &&& forall|other: int|
                            0 <= other < offset && lands(edges, ranks, other, i as int) ==> r
                                <= ranks[other]
                    },
                    None => forall|other: int|
                        0 <= other < offset ==> !lands(edges, ranks, other, i as int),
                },
            decreases self.bwt@.len() - iter.position(),
        {
            proof {
                crate::support::rle::lemma_run_decoding_bounds(self.bwt@, iter.position(), sigma);
            }
            let ghost remaining = iter.remaining();
            let run: Run = match iter.next() {
                Some(run) => run,
                None => {
                    assert(expand(remaining) =~= Seq::<usize>::empty());
                    assert(prefix + Seq::<usize>::empty() =~= prefix);
                    break ;
                },
            };
            proof {
                let v = run.value as int;
                lemma_expand_first(run, iter.remaining());
                assert(ranks =~= (prefix + run_block(run)) + expand(iter.remaining()));
                assert(ranks[offset as int] == run.value);
                assert(ranks.len() >= offset + run.len);
                lemma_scan_block(ranks, offset as int, offset + run.len, run.value);
                lemma_count_monotone(ranks, v, v + 1, offset + run.len, ranks.len() as int);
                assert(counts@[v] == occurrences(ranks, v, offset as int));
                assert(occurrences(ranks, v, offset + run.len) == occurrences(
                    ranks,
                    v,
                    offset as int,
                ) + run.len);
                assert(edges[v].offset + occurrences(ranks, v, ranks.len() as int) <= usize::MAX);
                // Where the positions of the run are mapped to.
                assert forall|x: int| offset <= x < offset + run.len implies lf_target(
                    edges,
                    ranks,
                    x,
                ).offset == edges[v].offset + counts@[v] + (x - offset) by {
                    lemma_scan_block(ranks, offset as int, x, run.value);
                    assert(occurrences(ranks, v, x) == occurrences(ranks, v, offset as int) + (x
                        - offset));
                    lemma_lf_fits(edges, ranks, x);
                }
            }
            let edge: Pos = self.edges[run.value];
            let low: usize = edge.offset + counts[run.value];
            if edge.node != ENDMARKER && low <= i && i - low < run.len {
                let found: usize = offset + (i - low);
                let better: bool = match best {
                    Some((r, _)) => run.value < r,
                    None => true,
                };
                assert(lands(edges, ranks, found as int, i as int));
                if better {
                    best = Some((run.value, found));
                }
            }
            counts.set(run.value, counts[run.value] + run.len);
            offset += run.len;
            proof {
                prefix = prefix + run_block(run);
            }
        }
        match best {
            Some((_, found)) => {
                proof {
                    lemma_predecessor_found(edges, ranks, self.id, i, found as int);
                }
                Some(Pos { node: self.id, offset: found })
            },
            None => {
                proof {
                    lemma_predecessor_none(edges, ranks, self.id, i);
                }
                None
            },
        }
    }

    /// Returns the bytes that hold the runs of the record: the ranks of the
    /// record are what the runs in these bytes stand for, over the alphabet
    /// of the ranks of the edges.
    #[inline]
    pub fn bwt(&self) -> (result: &'a [u8])
        ensures
            result@ == self.run_bytes(),
            self@.ranks == ranks_decoding(self.run_bytes(), self@.edges.len() as usize),
    {
        self.bwt
    }
}

/// Bytes whose first integer does not fit in `usize` announce more edges
/// than they can hold.
proof fn lemma_edges_decoding_huge(bytes: Seq<u8>)
    requires
        bytes.len() <= usize::MAX,
        match int_decoding(bytes, 0) {
            Some((count, _)) => count > usize::MAX,
            None => true,
        },
    ensures
        edges_decoding(bytes) is None,
{
    if let Some((count, first)) = int_decoding(bytes, 0) {
        lemma_int_decoding_bounds(bytes, 0);
        if ints_at(bytes, first, count) is Some {
            crate::support::bytecode::lemma_ints_at_prefix(bytes, first, count, count);
        }
    }
}

//-----------------------------------------------------------------------------

/// The BWT encoded as a sequence of records, stored as a byte array with an
/// index of the offsets at which the records start.
///
/// The record with identifier `i` takes the bytes from offset `i` to offset
/// `i + 1` of the index. A record without bytes is absent.
#[derive(Debug, PartialEq, Eq)]
pub struct BWT {
    index: IntVector,
    data: Vec<u8>,
}

impl Clone for BWT {
    fn clone(&self) -> (result: Self)
        ensures
            result.offsets() == self.offsets(),
            result.bytes() == self.bytes(),
    {
        proof {
            use_type_invariant(self);
        }
        let index = self.index.clone();
        let data = self.data.clone();
        assert(data@ =~= self.data@);
        BWT { index, data }
    }
}

impl View for BWT {
    type V = Seq<Seq<u8>>;

    /// The bytes of each record.
    open spec fn view(&self) -> Seq<Seq<u8>> {
        slices_of(self.offsets(), self.bytes())
    }
}

impl BWT {
    #[verifier::type_invariant]
    spec fn inv(&self) -> bool {
        &&& int_vector_sound(self.index)
        &&& valid_index(int_vector_items(self.index), self.data@.len())
    }

    /// The offsets of the index.
    pub closed spec fn offsets(&self) -> Seq<u64> {
        int_vector_items(self.index)
    }

    /// The bytes of all records, one after the other.
    pub closed spec fn bytes(&self) -> Seq<u8> {
        self.data@
    }

    /// Makes a container of an index and the bytes of the records.
    ///
    /// The index must be a vector that can be read, hold an offset, start at
    /// zero, never decrease and end at the number of bytes. Else the error
    /// tells the first of these that does not hold.
    pub fn from_parts(index: IntVector, data: Vec<u8>) -> (result: Result<Self, InvalidData>)
        ensures
            match result {
                Ok(bwt) => {
                    &&& int_vector_sound(index)
                    &&& valid_index(int_vector_items(index), data@.len())
                    &&& bwt.offsets() == int_vector_items(index)
                    &&& bwt.bytes() == data@
                },
                Err(error) => vector_fault(index, data@.len()) == Some(error),
            },
    {
        proof {
            lemma_index_fault(int_vector_items(index), data@.len());
        }
        match check_index(&index, data.len()) {
            Some(error) => Err(error),
            None => Ok(BWT { index, data }),
        }
    }

    /// Returns the index of the container: the offset at which each record
    /// starts, and the number of bytes after them.
    pub fn index(&self) -> (result: &IntVector)
        ensures
            int_vector_sound(*result),
            int_vector_items(*result) == self.offsets(),
            valid_index(self.offsets(), self.bytes().len()),
    {
        proof {
            use_type_invariant(self);
        }
        &self.index
    }

    /// Returns the bytes of all records, one after the other.
    pub fn data(&self) -> (result: &Vec<u8>)
        ensures
            result@ == self.bytes(),
            valid_index(self.offsets(), self.bytes().len()),
    {
        proof {
            use_type_invariant(self);
        }
        &self.data
    }

    /// Returns the number of records in the BWT, absent ones included.
    #[inline]
    pub fn len(&self) -> (result: usize)
        ensures
            result == self@.len(),
    {
        proof {
            use_type_invariant(self);
        }
        int_vector_len(&self.index) - 1
    }

    /// Returns `true` if the BWT has no records.
    #[inline]
    pub fn is_empty(&self) -> (result: bool)
        ensures
            result == (self@.len() == 0),
    {
        self.len() == 0
    }

    // Returns the bytes of record `i`.
    fn record_bytes(&self, i: usize) -> (result: &[u8])
        requires
            i < self@.len(),
        ensures
            result@ == self@[i as int],
    {
        proof {
            use_type_invariant(self);
        }
        let ghost items = int_vector_items(self.index);
        let n: usize = int_vector_len(&self.index);
        assert(self@.len() == n - 1);
        let start: u64 = int_vector_get(&self.index, i);
        let limit: u64 = int_vector_get(&self.index, i + 1);
        let total: usize = self.data.len();
        assert(items[i as int] <= items[i + 1]);
        assert(items[i + 1] <= items[n - 1]);
        assert(items.last() == items[n - 1]);
        assert(start <= limit <= total);
        slice_subrange(self.data.as_slice(), start as usize, limit as usize)
    }

    /// Returns the record with identifier `i`, or `None` if there is no such
    /// record: `i` is not below the number of records, the record is absent,
    /// or its bytes do not hold a record.
    pub fn record(&self, i: usize) -> (result: Option<Record<'_>>)
        ensures
            result is Some <==> i < self@.len() && has_record(self@[i as int]),
            result matches Some(record) ==> {
                &&& record_decoding(self@[i as int]) matches Some((edges, ranks, split))
                &&& record@ == (RecordView { id: i, edges, ranks })
                &&& record.run_bytes() == self@[i as int].skip(split)
                &&& valid_record(edges, ranks)
            },
    {
        if i >= self.len() {
            return None;
        }
        let bytes: &[u8] = self.record_bytes(i);
        if bytes.len() == 0 {
            proof {
                lemma_record_decoding_nonempty(bytes@);
            }
            return None;
        }
        Record::new(i, bytes)
    }

    /// Returns the bytes of the record with identifier `i`, cut after the
    /// edge list: the bytes of the edges and the bytes of the runs.
    ///
    /// Returns `None` if `i` is not below the number of records or the bytes
    /// of the record do not start with an edge list.
    pub fn compressed_record(&self, i: usize) -> (result: Option<(&[u8], &[u8])>)
        ensures
            result is Some <==> i < self@.len() && edges_decoding(self@[i as int]) is Some,
            result matches Some((head, tail)) ==> {
                &&& edges_decoding(self@[i as int]) matches Some((_, split))
                &&& head@ == self@[i as int].take(split)
                &&& tail@ == self@[i as int].skip(split)
            },
    {
        if i >= self.len() {
            return None;
        }
        let bytes: &[u8] = self.record_bytes(i);
        proof {
            lemma_edges_decoding_valid(bytes@);
        }
        let split: usize = match Record::decompress_edges(bytes) {
            Some((_, split)) => split,
            None => {
                return None;
            },
        };
        let head: &[u8] = slice_subrange(bytes, 0, split);
        let tail: &[u8] = slice_subrange(bytes, split, bytes.len());
        assert(head@ =~= bytes@.take(split as int));
        assert(tail@ =~= bytes@.skip(split as int));
        Some((head, tail))
    }

    /// Returns an iterator over the records in the BWT.
    pub fn iter(&self) -> (result: RecordIter<'_>)
        ensures
            result.container() == self@,
            result.position() == 0,
    {
        RecordIter { parent: self, next: 0 }
    }

    /// Returns an iterator over the identifiers of the records in the BWT.
    pub fn id_iter(&self) -> (result: IdIter<'_>)
        ensures
            result.container() == self@,
            result.position() == 0,
    {
        IdIter { parent: self, next: 0 }
    }
}

impl From<BWTBuilder> for BWT {
    fn from(source: BWTBuilder) -> (result: Self)
        ensures
            result@ == source@,
    {
        proof {
            use_type_invariant(&source);
        }
        let total: usize = source.data.len();
        assert forall|i: int| 0 <= i < source.offsets@.len() implies #[trigger] source.offsets@[i]
            <= total by {
            assert(source.offsets@[i] <= source.offsets@[source.offsets@.len() - 1]);
        }
        let index: IntVector = pack_offsets(&source.offsets, total);
        let result = BWT { index, data: source.data };
        assert(result@ =~= source@);
        result
    }
}

impl FromSpecImpl<BWTBuilder> for BWT {
    /// The conversion is specified by what `from` ensures of the records,
    /// not by a value: the index of the result is built by the vector's own
    /// operations.
    open spec fn obeys_from_spec() -> bool {
        false
    }

    open spec fn from_spec(source: BWTBuilder) -> Self {
        arbitrary()
    }
}

//-----------------------------------------------------------------------------

/// The largest number of records that a builder takes: the index of a
/// container must fit in a bit-packed vector.
pub open spec fn max_records() -> nat {
    (MAX_ITEMS - 1) as nat
}

/// A builder that makes a [`BWT`] of the edges and runs of its records,
/// appended in the order of their identifiers.
#[derive(Debug)]
pub struct BWTBuilder {
    data: Vec<u8>,
    offsets: Vec<usize>,
}

impl View for BWTBuilder {
    type V = Seq<Seq<u8>>;

    /// The bytes of each record appended so far.
    closed spec fn view(&self) -> Seq<Seq<u8>> {
        Seq::new(
            (self.offsets@.len() - 1) as nat,
            |i: int| self.data@.subrange(self.offsets@[i] as int, self.offsets@[i + 1] as int),
        )
    }
}

impl BWTBuilder {
    #[verifier::type_invariant]
    spec fn inv(&self) -> bool {
        &&& 1 <= self.offsets@.len() <= max_records() + 1
        &&& self.offsets@[0] == 0
        &&& forall|i: int, j: int|
            0 <= i <= j < self.offsets@.len() ==> self.offsets@[i] <= self.offsets@[j]
        &&& self.offsets@.last() == self.data@.len()
    }

    /// Creates a new builder without records.
    pub fn new() -> (result: Self)
        ensures
            result@ == Seq::<Seq<u8>>::empty(),
    {
        let mut offsets: Vec<usize> = Vec::new();
        offsets.push(0);
        let result = BWTBuilder { data: Vec::new(), offsets };
        assert(result@ =~= Seq::<Seq<u8>>::empty());
        result
    }

    /// Returns the number of records appended so far, absent ones included.
    pub fn len(&self) -> (result: usize)
        ensures
            result == self@.len(),
            result <= max_records(),
    {
        proof {
            use_type_invariant(self);
        }
        self.offsets.len() - 1
    }

    /// Returns `true` if no record has been appended.
    pub fn is_empty(&self) -> (result: bool)
        ensures
            result == (self@.len() == 0),
    {
        self.len() == 0
    }

    /// Appends the record of the next node.
    ///
    /// Without edges the record is absent: it takes no bytes. Else its bytes
    /// are the edge list followed by the runs, over the alphabet of the
    /// ranks of the edges. Empty runs are left out.
    ///
    /// # Arguments
    ///
    /// * `edges`: The outgoing edges, with strictly increasing successors.
    /// * `bwt`: The runs of ranks of edges; every run that is not empty must
    ///   name an edge.
    pub fn append(&mut self, edges: &[Pos], bwt: &[Run])
        requires
            old(self)@.len() < max_records(),
            strictly_increasing(edges@),
            edges@.len() > 0 ==> encodable_runs(edges@.len() as usize, bwt@),
        ensures
            final(self)@ == old(self)@.push(
                if edges@.len() == 0 {
                    Seq::<u8>::empty()
                } else {
                    record_encoding(edges@, bwt@)
                },
            ),
    {
        let mut current = BWTBuilder::new();
        core::mem::swap(self, &mut current);
        proof {
            use_type_invariant(&current);
        }
        let ghost before = current@;
        let mut data: Vec<u8> = current.data;
        let mut offsets: Vec<usize> = current.offsets;
        let ghost old_data = data@;
        let ghost old_offsets = offsets@;
        let ghost record = if edges@.len() == 0 {
            Seq::<u8>::empty()
        } else {
            record_encoding(edges@, bwt@)
        };
        if edges.len() > 0 {
            let encoded: Vec<u8> = encode_record(edges, bwt);
            data.extend_from_slice(encoded.as_slice());
        }
        assert(data@ =~= old_data + record);
        offsets.push(data.len());
        *self = BWTBuilder { data, offsets };
        assert(self@ =~= before.push(record)) by {
            assert forall|i: int| 0 <= i < before.len() implies self@[i] == before[i] by {
                assert(old_offsets[i] <= old_offsets[i + 1]);
                assert(old_offsets[i + 1] <= old_offsets[old_offsets.len() - 1]);
                assert(self@[i] =~= before[i]);
            }
            assert(self@[before.len() as int] =~= record);
        }
    }
}

/// Returns the bytes of the record with the given edges and runs.
fn encode_record(edges: &[Pos], bwt: &[Run]) -> (result: Vec<u8>)
    requires
        edges@.len() > 0,
        strictly_increasing(edges@),
        encodable_runs(edges@.len() as usize, bwt@),
    ensures
        result@ == record_encoding(edges@, bwt@),
{
    let sigma: usize = edges.len();
    let ghost gaps = edge_gaps(edges@);
    let ghost offsets = edge_offsets(edges@);
    let mut encoder = RLE::with_sigma(sigma);
    encoder.write_int(sigma);
    let ghost head = encoder@;
    assert(head =~= int_encoding(sigma as nat));
    let mut prev: usize = 0;
    let mut r: usize = 0;
    assert(encoder@ =~= head + ints_encoding(gaps.take(0)));
    while r < sigma
        invariant
            sigma == edges@.len(),
            sigma > 0,
            strictly_increasing(edges@),
            gaps == edge_gaps(edges@),
            r <= sigma,
            encoder.wf(),
            encoder.alphabet() == sigma,
            encoder@ == head + ints_encoding(gaps.take(r as int)),
            r > 0 ==> prev == edges@[r - 1].node,
            r == 0 ==> prev == 0,
        decreases sigma - r,
    {
        let node: usize = edges[r].node;
        proof {
            if r > 0 {
                assert(edges@[r - 1].node < edges@[r as int].node);
            }
            assert(gaps.take(r + 1).drop_last() =~= gaps.take(r as int));
            assert(gaps.take(r + 1).last() == gaps[r as int]);
        }
        encoder.write_int(node - prev);
        prev = node;
        r += 1;
    }
    assert(gaps.take(sigma as int) =~= gaps);
    let ghost middle = encoder@;
    let mut r: usize = 0;
    assert(encoder@ =~= middle + ints_encoding(offsets.take(0)));
    while r < sigma
        invariant
            sigma == edges@.len(),
            offsets == edge_offsets(edges@),
            r <= sigma,
            encoder.wf(),
            encoder.alphabet() == sigma,
            encoder@ == middle + ints_encoding(offsets.take(r as int)),
        decreases sigma - r,
    {
        proof {
            assert(offsets.take(r + 1).drop_last() =~= offsets.take(r as int));
            assert(offsets.take(r + 1).last() == offsets[r as int]);
        }
        encoder.write_int(edges[r].offset);
        r += 1;
    }
    assert(offsets.take(sigma as int) =~= offsets);
    let ghost list = encoder@;
    assert(list =~= edges_encoding(edges@));
    let count: usize = bwt.len();
    let mut j: usize = 0;
    assert(encoder@ =~= list + runs_encoding(sigma, bwt@.take(0)));
    while j < count
        invariant
            count == bwt@.len(),
            sigma > 0,
            encodable_runs(sigma, bwt@),
            j <= count,
            encoder.wf(),
            encoder.alphabet() == sigma,
            encoder@ == list + runs_encoding(sigma, bwt@.take(j as int)),
        decreases count - j,
    {
        proof {
            assert(bwt@.take(j + 1).drop_last() =~= bwt@.take(j as int));
            assert(bwt@.take(j + 1).last() == bwt@[j as int]);
        }
        encoder.write(bwt[j]);
        j += 1;
    }
    assert(bwt@.take(count as int) =~= bwt@);
    Vec::<u8>::from(encoder)
}

//-----------------------------------------------------------------------------

/// An iterator over the records of a [`BWT`], in the order of their
/// identifiers. Absent records are passed over.
#[derive(Debug)]
pub struct RecordIter<'a> {
    parent: &'a BWT,
    // The first identifier we have not visited.
    next: usize,
}

impl<'a> RecordIter<'a> {
    /// The bytes of each record of the container that is iterated over.
    pub closed spec fn container(&self) -> Seq<Seq<u8>> {
        self.parent@
    }

    /// The first identifier that has not been visited.
    pub closed spec fn position(&self) -> int {
        self.next as int
    }

    /// Returns the next record, or `None` if there are no more records.
    pub fn next(&mut self) -> (result: Option<Record<'a>>)
        ensures
            final(self).container() == old(self).container(),
            match result {
                Some(record) => {
                    &&& 0 <= old(self).position() <= record@.id < old(self).container().len()
                    &&& final(self).position() == record@.id + 1
                    &&& forall|i: int|
                        old(self).position() <= i < record@.id ==> !has_record(
                            old(self).container()[i],
                        )
                    &&& record_decoding(old(self).container()[record@.id as int]) matches Some(
                        (edges, ranks, split),
                    )
                    &&& record@.edges == edges
                    &&& record@.ranks == ranks
                    &&& record.run_bytes() == old(self).container()[record@.id as int].skip(split)
                },
                None => {
                    &&& final(self).position() >= old(self).container().len()
                    &&& forall|i: int|
                        0 <= old(self).position() <= i < old(self).container().len()
                            ==> !has_record(old(self).container()[i])
                },
            },
    {
        let n: usize = self.parent.len();
        while self.next < n
            invariant
                self.parent == old(self).parent,
                n == self.parent@.len(),
                old(self).next <= self.next,
                forall|i: int|
                    old(self).next <= i < self.next && i < n ==> !has_record(self.parent@[i]),
            decreases n - self.next,
        {
            let i: usize = self.next;
            self.next += 1;
            match self.parent.record(i) {
                Some(record) => {
                    return Some(record);
                },
                None => {},
            }
        }
        None
    }
}

/// An iterator over the identifiers of the records of a [`BWT`], in
/// increasing order. Absent records are passed over.
#[derive(Debug)]
pub struct IdIter<'a> {
    parent: &'a BWT,
    // The first identifier we have not visited.
    next: usize,
}

impl<'a> IdIter<'a> {
    /// The bytes of each record of the container that is iterated over.
    pub closed spec fn container(&self) -> Seq<Seq<u8>> {
        self.parent@
    }

    /// The first identifier that has not been visited.
    pub closed spec fn position(&self) -> int {
        self.next as int
    }

    /// Returns the identifier of the next record, or `None` if there are no
    /// more records.
    pub fn next(&mut self) -> (result: Option<usize>)
        ensures
            final(self).container() == old(self).container(),
            match result {
                Some(id) => {
                    &&& 0 <= old(self).position() <= id < old(self).container().len()
                    &&& final(self).position() == id + 1
                    &&& has_record(old(self).container()[id as int])
                    &&& forall|i: int|
                        old(self).position() <= i < id ==> !has_record(old(self).container()[i])
                },
                None => {
                    &&& final(self).position() >= old(self).container().len()
                    &&& forall|i: int|
                        0 <= old(self).position() <= i < old(self).container().len()
                            ==> !has_record(old(self).container()[i])
                },
            },
    {
        let n: usize = self.parent.len();
        while self.next < n
            invariant
                self.parent == old(self).parent,
                n == self.parent@.len(),
                old(self).next <= self.next,
                forall|i: int|
                    old(self).next <= i < self.next && i < n ==> !has_record(self.parent@[i]),
            decreases n - self.next,
        {
            let i: usize = self.next;
            self.next += 1;
            if self.parent.record(i).is_some() {
                return Some(i);
            }
        }
        None
    }
}

} // verus!
