//! The mathematical model of a record: its edge list, the sequence of ranks
//! that its runs stand for, and what each query returns on them.

use vstd::prelude::*;
use crate::ENDMARKER;
use crate::support::Run;
use super::Pos;

verus! {

//-----------------------------------------------------------------------------
// Runs and ranks.

/// The ranks that one run stands for: its value, repeated.
pub open spec fn run_block(run: Run) -> Seq<usize> {
    Seq::new(run.len as nat, |i: int| run.value)
}

/// The sequence of ranks that a sequence of runs stands for.
pub open spec fn expand(runs: Seq<Run>) -> Seq<usize>
    decreases runs.len(),
{
    if runs.len() == 0 {
        Seq::<usize>::empty()
    } else {
        run_block(runs[0]) + expand(runs.drop_first())
    }
}

/// The number of positions before `upto` that hold a rank `r` with
/// `lo <= r < hi`. Positions past the end of `ranks` hold nothing.
pub open spec fn count_between(ranks: Seq<usize>, lo: int, hi: int, upto: int) -> nat
    decreases upto,
{
    if upto <= 0 {
        0
    } else if upto > ranks.len() {
        count_between(ranks, lo, hi, ranks.len() as int)
    } else {
        count_between(ranks, lo, hi, upto - 1) + if lo <= ranks[upto - 1] < hi {
            1nat
        } else {
            0nat
        }
    }
}

/// The number of positions before `upto` that hold `rank`.
pub open spec fn occurrences(ranks: Seq<usize>, rank: int, upto: int) -> nat {
    count_between(ranks, rank, rank + 1, upto)
}

/// A run followed by other runs stands for its block followed by their ranks.
pub proof fn lemma_expand_first(run: Run, rest: Seq<Run>)
    ensures
        expand(seq![run] + rest) == run_block(run) + expand(rest),
{
    let runs = seq![run] + rest;
    assert(runs.drop_first() =~= rest);
    assert(runs[0] == run);
}

/// Runs that are joined stand for their ranks joined.
pub proof fn lemma_expand_concat(a: Seq<Run>, b: Seq<Run>)
    ensures
        expand(a + b) == expand(a) + expand(b),
    decreases a.len(),
{
    if a.len() == 0 {
        assert(a + b =~= b);
        assert(expand(a) + expand(b) =~= expand(b));
    } else {
        assert((a + b).drop_first() =~= a.drop_first() + b);
        lemma_expand_concat(a.drop_first(), b);
        assert(expand(a + b) =~= expand(a) + expand(b));
    }
}

/// Counting further never counts less, and never more than the positions added.
pub proof fn lemma_count_monotone(ranks: Seq<usize>, lo: int, hi: int, a: int, b: int)
    requires
        a <= b,
    ensures
        count_between(ranks, lo, hi, a) <= count_between(ranks, lo, hi, b),
        0 <= a ==> count_between(ranks, lo, hi, b) - count_between(ranks, lo, hi, a) <= b - a,
    decreases b,
{
    if b <= 0 {
    } else if b > ranks.len() {
        if a > ranks.len() {
        } else {
            lemma_count_monotone(ranks, lo, hi, a, ranks.len() as int);
        }
    } else if a < b {
        lemma_count_monotone(ranks, lo, hi, a, b - 1);
    }
}

/// Over positions that all hold the same rank `v`, the count grows by their
/// number if `v` is counted, and not at all if it is not.
pub proof fn lemma_count_block(ranks: Seq<usize>, lo: int, hi: int, a: int, b: int, v: usize)
    requires
        0 <= a <= b <= ranks.len(),
        forall|x: int| a <= x < b ==> ranks[x] == v,
    ensures
        count_between(ranks, lo, hi, b) == count_between(ranks, lo, hi, a) + if lo <= v < hi {
            b - a
        } else {
            0
        },
    decreases b - a,
{
    if a < b {
        lemma_count_block(ranks, lo, hi, a, b - 1, v);
    }
}

/// A position that holds a counted rank is counted once.
pub proof fn lemma_count_step(ranks: Seq<usize>, lo: int, hi: int, i: int)
    requires
        0 <= i < ranks.len(),
    ensures
        count_between(ranks, lo, hi, i + 1) == count_between(ranks, lo, hi, i) + if lo
            <= ranks[i] < hi {
            1nat
        } else {
            0nat
        },
{
}

//-----------------------------------------------------------------------------
// Records.

/// The successors of an edge list are strictly increasing.
pub open spec fn strictly_increasing(edges: Seq<Pos>) -> bool {
    forall|a: int, b: int| 0 <= a < b < edges.len() ==> edges[a].node < edges[b].node
}

/// An edge list and a sequence of ranks form a record: there is an edge, the
/// successors are strictly increasing, every rank names an edge, and neither
/// the length of the sequence nor any position it leads to exceeds `usize`.
pub open spec fn valid_record(edges: Seq<Pos>, ranks: Seq<usize>) -> bool {
    &&& edges.len() >= 1
    &&& edges.len() <= usize::MAX
    &&& strictly_increasing(edges)
    &&& ranks.len() <= usize::MAX
    &&& forall|i: int| 0 <= i < ranks.len() ==> #[trigger] ranks[i] < edges.len()
    &&& forall|r: int|
        0 <= r < edges.len() ==> (#[trigger] edges[r]).offset + occurrences(
            ranks,
            r,
            ranks.len() as int,
        ) <= usize::MAX
}

/// The position that position `i` of the record is mapped to: the successor
/// that the rank at `i` names, at that edge's offset plus the number of
/// earlier positions with the same rank.
pub open spec fn lf_target(edges: Seq<Pos>, ranks: Seq<usize>, i: int) -> Pos {
    Pos {
        node: edges[ranks[i] as int].node,
        offset: (edges[ranks[i] as int].offset + occurrences(ranks, ranks[i] as int, i)) as usize,
    }
}

/// What `lf` returns: the target of position `i`, unless `i` is past the end
/// or the successor is the endmarker.
pub open spec fn spec_lf(edges: Seq<Pos>, ranks: Seq<usize>, i: int) -> Option<Pos> {
    if 0 <= i < ranks.len() && edges[ranks[i] as int].node != ENDMARKER {
        Some(lf_target(edges, ranks, i))
    } else {
        None
    }
}

/// What `decompress` returns: the targets of all positions, in order.
pub open spec fn spec_decompress(edges: Seq<Pos>, ranks: Seq<usize>) -> Seq<Pos> {
    Seq::new(ranks.len(), |i: int| lf_target(edges, ranks, i))
}

/// The rank of the edge to `node`, if there is one.
pub open spec fn edge_rank(edges: Seq<Pos>, node: usize) -> Option<int> {
    if exists|r: int| 0 <= r < edges.len() && edges[r].node == node {
        Some(choose|r: int| 0 <= r < edges.len() && edges[r].node == node)
    } else {
        None
    }
}

/// What `follow` returns on the range from `start` to `limit`: the positions
/// in the record of `node` that the positions of the range with an edge to
/// `node` are mapped to, as a range, or `None` if there is no such position.
/// A limit past the end of the record counts as the end.
pub open spec fn spec_follow(
    edges: Seq<Pos>,
    ranks: Seq<usize>,
    start: int,
    limit: int,
    node: usize,
) -> Option<(int, int)> {
    if node == ENDMARKER {
        None
    } else {
        match edge_rank(edges, node) {
            Some(r) => {
                let first = edges[r].offset + occurrences(ranks, r, start);
                let last = edges[r].offset + occurrences(ranks, r, limit);
                if start < limit && first < last {
                    Some((first, last))
                } else {
                    None
                }
            },
            None => None,
        }
    }
}

/// The number of positions from `start` up to `limit` whose rank is below
/// `rank`.
pub open spec fn smaller_in_range(ranks: Seq<usize>, rank: int, start: int, limit: int) -> int {
    count_between(ranks, 0, rank, limit) - count_between(ranks, 0, rank, start)
}

/// What `offset_to` returns: the position of the record that is mapped to
/// `pos`, if there is one.
pub open spec fn spec_offset_to(edges: Seq<Pos>, ranks: Seq<usize>, pos: Pos) -> Option<int> {
    if exists|i: int| 0 <= i < ranks.len() && spec_lf(edges, ranks, i) == Some(pos) {
        Some(choose|i: int| 0 <= i < ranks.len() && spec_lf(edges, ranks, i) == Some(pos))
    } else {
        None
    }
}

/// Some position of the record is mapped to offset `i` of the successor of
/// rank `r`, which is not the endmarker.
pub open spec fn reaches(edges: Seq<Pos>, ranks: Seq<usize>, r: int, i: int) -> bool {
    &&& 0 <= r < edges.len()
    &&& edges[r].node != ENDMARKER
    &&& edges[r].offset <= i < edges[r].offset + occurrences(ranks, r, ranks.len() as int)
}

/// The lowest rank from `from` on whose successor is reached at offset `i`.
pub open spec fn first_reaching(edges: Seq<Pos>, ranks: Seq<usize>, i: int, from: int) -> Option<
    int,
>
    decreases edges.len() - from,
{
    if from < 0 || from >= edges.len() {
        None
    } else if reaches(edges, ranks, from, i) {
        Some(from)
    } else {
        first_reaching(edges, ranks, i, from + 1)
    }
}

/// What `predecessor_at` returns in the record `id`: for the lowest rank
/// whose successor is reached at offset `i`, the position of the record that
/// is mapped there, paired with `id`.
pub open spec fn spec_predecessor_at(
    edges: Seq<Pos>,
    ranks: Seq<usize>,
    id: usize,
    i: usize,
) -> Option<(usize, int)> {
    match first_reaching(edges, ranks, i as int, 0) {
        Some(r) => match spec_offset_to(edges, ranks, Pos { node: edges[r].node, offset: i }) {
            Some(j) => Some((id, j)),
            None => None,
        },
        None => None,
    }
}

//-----------------------------------------------------------------------------
// Facts about records.

/// Over positions that all hold the rank `v`, the occurrences of `v` grow by
/// the number of positions, those of every other rank stay, and the ranks
/// below a bound grow by the number of positions if `v` is below it.
pub proof fn lemma_scan_block(ranks: Seq<usize>, a: int, b: int, v: usize)
    requires
        0 <= a <= b <= ranks.len(),
        forall|x: int| a <= x < b ==> ranks[x] == v,
    ensures
        forall|q: int| #[trigger]
            occurrences(ranks, q, b) == occurrences(ranks, q, a) + if q == v {
                b - a
            } else {
                0
            },
        forall|q: int| #[trigger]
            count_between(ranks, 0, q, b) == count_between(ranks, 0, q, a) + if v < q {
                b - a
            } else {
                0
            },
{
    assert forall|q: int| #[trigger]
        occurrences(ranks, q, b) == occurrences(ranks, q, a) + if q == v {
            b - a
        } else {
            0
        } by {
        lemma_count_block(ranks, q, q + 1, a, b, v);
    }
    assert forall|q: int| #[trigger]
        count_between(ranks, 0, q, b) == count_between(ranks, 0, q, a) + if v < q {
            b - a
        } else {
            0
        } by {
        lemma_count_block(ranks, 0, q, a, b, v);
    }
}

/// In a record, the target of every position fits in `usize`: it lies before
/// the end of what its edge leads to.
pub proof fn lemma_lf_fits(edges: Seq<Pos>, ranks: Seq<usize>, i: int)
    requires
        valid_record(edges, ranks),
        0 <= i < ranks.len(),
    ensures
        0 <= ranks[i] < edges.len(),
        edges[ranks[i] as int].offset + occurrences(ranks, ranks[i] as int, i) < edges[ranks[i] as int].offset
            + occurrences(ranks, ranks[i] as int, ranks.len() as int) <= usize::MAX,
        lf_target(edges, ranks, i).offset == edges[ranks[i] as int].offset + occurrences(
            ranks,
            ranks[i] as int,
            i,
        ),
{
    let r = ranks[i] as int;
    lemma_count_step(ranks, r, r + 1, i);
    lemma_count_monotone(ranks, r, r + 1, i + 1, ranks.len() as int);
    assert(edges[r].offset + occurrences(ranks, r, ranks.len() as int) <= usize::MAX);
}

/// In a record, the edge to a node is found by its successor: the rank of an
/// edge is the rank of the edge to its successor.
pub proof fn lemma_edge_rank(edges: Seq<Pos>, r: int)
    requires
        strictly_increasing(edges),
        0 <= r < edges.len(),
    ensures
        edge_rank(edges, edges[r].node) == Some(r),
{
    let node = edges[r].node;
    let found = choose|q: int| 0 <= q < edges.len() && edges[q].node == node;
    if found < r {
        assert(edges[found].node < edges[r].node);
    } else if r < found {
        assert(edges[r].node < edges[found].node);
    }
}

/// Where no edge leads to a node, no rank is found for it.
pub proof fn lemma_edge_rank_none(edges: Seq<Pos>, node: usize)
    ensures
        edge_rank(edges, node) is None <==> forall|q: int|
            0 <= q < edges.len() ==> (#[trigger] edges[q]).node != node,
        edge_rank(edges, node) matches Some(r) ==> 0 <= r < edges.len() && edges[r].node == node,
{
}

/// In a record, no two positions are mapped to the same position.
pub proof fn lemma_lf_injective(edges: Seq<Pos>, ranks: Seq<usize>, a: int, b: int)
    requires
        valid_record(edges, ranks),
        0 <= a < ranks.len(),
        0 <= b < ranks.len(),
        lf_target(edges, ranks, a) == lf_target(edges, ranks, b),
    ensures
        a == b,
{
    lemma_lf_fits(edges, ranks, a);
    lemma_lf_fits(edges, ranks, b);
    let ra = ranks[a] as int;
    let rb = ranks[b] as int;
    lemma_edge_rank(edges, ra);
    lemma_edge_rank(edges, rb);
    assert(ra == rb);
    if a < b {
        lemma_count_step(ranks, ra, ra + 1, a);
        lemma_count_monotone(ranks, ra, ra + 1, a + 1, b);
    } else if b < a {
        lemma_count_step(ranks, ra, ra + 1, b);
        lemma_count_monotone(ranks, ra, ra + 1, b + 1, a);
    }
}

/// Between two positions, every count of occurrences that is reached is
/// reached at a position that holds the rank.
pub proof fn lemma_occurrence_position(ranks: Seq<usize>, r: int, lo: int, hi: int, n: int) -> (i:
    int)
    requires
        0 <= lo <= hi,
        occurrences(ranks, r, lo) <= n < occurrences(ranks, r, hi),
    ensures
        lo <= i < hi,
        i < ranks.len(),
        ranks[i] == r,
        occurrences(ranks, r, i) == n,
    decreases hi,
{
    if hi > ranks.len() {
        if lo > ranks.len() {
            0
        } else {
            lemma_occurrence_position(ranks, r, lo, ranks.len() as int, n)
        }
    } else {
        lemma_count_step(ranks, r, r + 1, hi - 1);
        if occurrences(ranks, r, hi - 1) <= n {
            hi - 1
        } else {
            lemma_occurrence_position(ranks, r, lo, hi - 1, n)
        }
    }
}

/// Position `j` of the record is mapped to offset `i` of a successor that is
/// not the endmarker.
pub open spec fn lands(edges: Seq<Pos>, ranks: Seq<usize>, j: int, i: int) -> bool {
    &&& 0 <= j < ranks.len()
    &&& edges[ranks[j] as int].node != ENDMARKER
    &&& lf_target(edges, ranks, j).offset == i
}

/// In a record, the position that is mapped to `pos` is the only one.
pub proof fn lemma_offset_to_found(edges: Seq<Pos>, ranks: Seq<usize>, pos: Pos, i: int)
    requires
        valid_record(edges, ranks),
        spec_lf(edges, ranks, i) == Some(pos),
    ensures
        spec_offset_to(edges, ranks, pos) == Some(i),
{
    let found = choose|j: int| 0 <= j < ranks.len() && spec_lf(edges, ranks, j) == Some(pos);
    lemma_lf_injective(edges, ranks, found, i);
}

/// In a record, the successor of an edge is reached at an offset exactly if
/// some position with the rank of the edge is mapped there.
pub proof fn lemma_reaches_position(edges: Seq<Pos>, ranks: Seq<usize>, r: int, i: int) -> (j:
    int)
    requires
        valid_record(edges, ranks),
        reaches(edges, ranks, r, i),
    ensures
        lands(edges, ranks, j, i),
        ranks[j] == r,
{
    let n = i - edges[r].offset;
    let j = lemma_occurrence_position(ranks, r, 0, ranks.len() as int, n);
    lemma_lf_fits(edges, ranks, j);
    j
}

/// In a record, a position that is mapped to an offset of a successor makes
/// its edge reach that offset.
pub proof fn lemma_position_reaches(edges: Seq<Pos>, ranks: Seq<usize>, j: int, i: int)
    requires
        valid_record(edges, ranks),
        lands(edges, ranks, j, i),
    ensures
        reaches(edges, ranks, ranks[j] as int, i),
{
    lemma_lf_fits(edges, ranks, j);
}

/// The lowest rank that reaches an offset reaches it, and no rank between
/// `from` and it does; where none is found, no rank from `from` on reaches it.
pub proof fn lemma_first_reaching(edges: Seq<Pos>, ranks: Seq<usize>, i: int, from: int)
    requires
        0 <= from,
    ensures
        match first_reaching(edges, ranks, i, from) {
            Some(r) => {
                &&& from <= r < edges.len()
                &&& reaches(edges, ranks, r, i)
                &&& forall|q: int| from <= q < r ==> !reaches(edges, ranks, q, i)
            },
            None => forall|q: int| from <= q < edges.len() ==> !reaches(edges, ranks, q, i),
        },
    decreases edges.len() - from,
{
    if from < edges.len() && !reaches(edges, ranks, from, i) {
        lemma_first_reaching(edges, ranks, i, from + 1);
    }
}

/// In a record, a position that is mapped to offset `i` and has the lowest
/// rank of all such positions is what `predecessor_at` finds.
pub proof fn lemma_predecessor_found(
    edges: Seq<Pos>,
    ranks: Seq<usize>,
    id: usize,
    i: usize,
    j: int,
)
    requires
        valid_record(edges, ranks),
        lands(edges, ranks, j, i as int),
        forall|other: int| lands(edges, ranks, other, i as int) ==> ranks[j] <= ranks[other],
    ensures
        spec_predecessor_at(edges, ranks, id, i) == Some((id, j)),
{
    let r = ranks[j] as int;
    lemma_position_reaches(edges, ranks, j, i as int);
    lemma_first_reaching(edges, ranks, i as int, 0);
    let first = first_reaching(edges, ranks, i as int, 0).unwrap();
    if first < r {
        let other = lemma_reaches_position(edges, ranks, first, i as int);
        assert(false);
    }
    lemma_lf_fits(edges, ranks, j);
    lemma_offset_to_found(
        edges,
        ranks,
        Pos { node: edges[r].node, offset: i },
        j,
    );
}

/// In a record, where no position is mapped to offset `i`, `predecessor_at`
/// finds nothing.
pub proof fn lemma_predecessor_none(edges: Seq<Pos>, ranks: Seq<usize>, id: usize, i: usize)
    requires
        valid_record(edges, ranks),
        forall|j: int| !lands(edges, ranks, j, i as int),
    ensures
        spec_predecessor_at(edges, ranks, id, i) is None,
{
    lemma_first_reaching(edges, ranks, i as int, 0);
    if let Some(r) = first_reaching(edges, ranks, i as int, 0) {
        let j = lemma_reaches_position(edges, ranks, r, i as int);
        assert(false);
    }
}

//-----------------------------------------------------------------------------
// How the queries relate.

/// `decompress` and `lf` agree: at every position of a record, `lf` returns
/// what `decompress` holds there, unless that is a position of the
/// endmarker, for which `lf` returns nothing.
pub proof fn lemma_decompress_lf(edges: Seq<Pos>, ranks: Seq<usize>, i: int)
    requires
        0 <= i < ranks.len(),
    ensures
        spec_decompress(edges, ranks).len() == ranks.len(),
        spec_lf(edges, ranks, i) is None <==> spec_decompress(edges, ranks)[i].node == ENDMARKER,
        spec_lf(edges, ranks, i) matches Some(pos) ==> pos == spec_decompress(edges, ranks)[i],
{
}

/// `offset_to` inverts `lf`: a position that `lf` maps to `pos` is what
/// `offset_to` returns for `pos`, and what `offset_to` returns for `pos` is
/// mapped to `pos` by `lf`.
pub proof fn lemma_offset_to_inverts_lf(edges: Seq<Pos>, ranks: Seq<usize>, pos: Pos, i: int)
    requires
        valid_record(edges, ranks),
    ensures
        spec_lf(edges, ranks, i) == Some(pos) <==> spec_offset_to(edges, ranks, pos) == Some(i),
{
    if spec_lf(edges, ranks, i) == Some(pos) {
        lemma_offset_to_found(edges, ranks, pos, i);
    }
}

/// `offset_to` returns nothing for a position of the endmarker, for a node
/// that no edge leads to, and for an offset outside of what the edge to the
/// node leads to: below the offset of the edge, or at least that offset plus
/// the number of positions with the rank of the edge.
pub proof fn lemma_offset_to_nothing(edges: Seq<Pos>, ranks: Seq<usize>, pos: Pos)
    requires
        valid_record(edges, ranks),
        pos.node == ENDMARKER || match edge_rank(edges, pos.node) {
            Some(r) => pos.offset < edges[r].offset || pos.offset >= edges[r].offset
                + occurrences(ranks, r, ranks.len() as int),
            None => true,
        },
    ensures
        spec_offset_to(edges, ranks, pos) is None,
{
    lemma_edge_rank_none(edges, pos.node);
    assert forall|i: int| 0 <= i < ranks.len() implies spec_lf(edges, ranks, i) != Some(pos) by {
        lemma_lf_fits(edges, ranks, i);
        lemma_edge_rank(edges, ranks[i] as int);
    }
}

/// Some position from `start` up to `limit` is mapped to `pos`.
pub open spec fn mapped_from(
    edges: Seq<Pos>,
    ranks: Seq<usize>,
    start: int,
    limit: int,
    pos: Pos,
) -> bool {
    exists|i: int| start <= i < limit && #[trigger] spec_lf(edges, ranks, i) == Some(pos)
}

/// `follow` agrees with `lf`: it returns a range exactly if `lf` maps some
/// position of the given range into the record of `node`, and the range
/// holds exactly the offsets that `lf` maps those positions to.
pub proof fn lemma_follow_lf(
    edges: Seq<Pos>,
    ranks: Seq<usize>,
    start: int,
    limit: int,
    node: usize,
)
    requires
        valid_record(edges, ranks),
        0 <= start,
    ensures
        spec_follow(edges, ranks, start, limit, node) is Some <==> exists|i: int|
            start <= i < limit && (#[trigger] spec_lf(edges, ranks, i)) is Some && spec_lf(
                edges,
                ranks,
                i,
            ).unwrap().node == node,
        spec_follow(edges, ranks, start, limit, node) matches Some((first, last)) ==> forall|
            x: usize,
        |
            (first <= x < last) <==> #[trigger] mapped_from(
                edges,
                ranks,
                start,
                limit,
                Pos { node, offset: x },
            ),
{
    lemma_edge_rank_none(edges, node);
    let hit = |i: int|
        start <= i < limit && spec_lf(edges, ranks, i) is Some && spec_lf(
            edges,
            ranks,
            i,
        ).unwrap().node == node;
    if node != ENDMARKER && edge_rank(edges, node) is Some && start < limit {
        let r = edge_rank(edges, node).unwrap();
        let base = edges[r].offset as int;
        let low = occurrences(ranks, r, start);
        let high = occurrences(ranks, r, limit);
        lemma_count_monotone(ranks, r, r + 1, start, limit);
        if limit <= ranks.len() {
            lemma_count_monotone(ranks, r, r + 1, limit, ranks.len() as int);
        }
        // Every position of the range that is mapped into the record of the
        // node is mapped into the range of offsets.
        assert forall|i: int|
            start <= i < limit && spec_lf(edges, ranks, i) is Some && spec_lf(
                edges,
                ranks,
                i,
            ).unwrap().node == node implies low <= lf_target(edges, ranks, i).offset - base
            < high by {
            lemma_lf_fits(edges, ranks, i);
            lemma_edge_rank(edges, ranks[i] as int);
            lemma_count_step(ranks, r, r + 1, i);
            lemma_count_monotone(ranks, r, r + 1, start, i);
            lemma_count_monotone(ranks, r, r + 1, i + 1, limit);
        }
        // Every offset of the range is where some position is mapped to.
        assert forall|x: usize| base + low <= x < base + high implies #[trigger] mapped_from(
            edges,
            ranks,
            start,
            limit,
            Pos { node, offset: x },
        ) by {
            let i = lemma_occurrence_position(ranks, r, start, limit, x - base);
            lemma_lf_fits(edges, ranks, i);
            assert(spec_lf(edges, ranks, i) == Some(Pos { node, offset: x }));
        }
        if low < high {
            let x = (base + low) as usize;
            assert(mapped_from(edges, ranks, start, limit, Pos { node, offset: x }));
            let i = choose|i: int|
                start <= i < limit && #[trigger] spec_lf(edges, ranks, i) == Some(
                    Pos { node, offset: x },
                );
            assert(hit(i));
        }
    } else {
        assert forall|i: int| start <= i < limit && 0 <= i < ranks.len() implies !(spec_lf(
            edges,
            ranks,
            i,
        ) is Some && spec_lf(edges, ranks, i).unwrap().node == node) by {
            lemma_lf_fits(edges, ranks, i);
        }
    }
}

/// What `predecessor_at` returns for offset `i` is a position of the record
/// that is mapped to offset `i` of a successor other than the endmarker,
/// along the edge of the lowest rank that any such position follows; and it
/// returns nothing exactly if there is no such position.
pub proof fn lemma_predecessor_at(edges: Seq<Pos>, ranks: Seq<usize>, id: usize, i: usize)
    requires
        valid_record(edges, ranks),
    ensures
        match spec_predecessor_at(edges, ranks, id, i) {
            Some((node, j)) => {
                &&& node == id
                &&& lands(edges, ranks, j, i as int)
                &&& forall|other: int|
                    lands(edges, ranks, other, i as int) ==> ranks[j] <= ranks[other]
            },
            None => forall|other: int| !lands(edges, ranks, other, i as int),
        },
{
    lemma_first_reaching(edges, ranks, i as int, 0);
    match first_reaching(edges, ranks, i as int, 0) {
        Some(r) => {
            let j = lemma_reaches_position(edges, ranks, r, i as int);
            lemma_lf_fits(edges, ranks, j);
            lemma_offset_to_found(edges, ranks, Pos { node: edges[r].node, offset: i }, j);
            assert forall|other: int| lands(edges, ranks, other, i as int) implies ranks[j]
                <= ranks[other] by {
                lemma_position_reaches(edges, ranks, other, i as int);
            }
        },
        None => {
            assert forall|other: int| !lands(edges, ranks, other, i as int) by {
                if lands(edges, ranks, other, i as int) {
                    lemma_position_reaches(edges, ranks, other, i as int);
                }
            }
        },
    }
}

/// `predecessor_at` returns nothing for an offset that no edge leads to: one
/// that is below the offset of every edge, or not below the offset of any
/// edge plus the number of positions with its rank.
pub proof fn lemma_predecessor_at_nothing(edges: Seq<Pos>, ranks: Seq<usize>, id: usize, i: usize)
    requires
        valid_record(edges, ranks),
        forall|r: int|
            0 <= r < edges.len() ==> i < (#[trigger] edges[r]).offset || i >= edges[r].offset
                + occurrences(ranks, r, ranks.len() as int),
    ensures
        spec_predecessor_at(edges, ranks, id, i) is None,
{
    lemma_first_reaching(edges, ranks, i as int, 0);
    if let Some(r) = first_reaching(edges, ranks, i as int, 0) {
        assert(i < edges[r].offset || i >= edges[r].offset + occurrences(
            ranks,
            r,
            ranks.len() as int,
        ));
    }
}

/// `predecessor_at` returns nothing, whatever the offset, in a record whose
/// every edge leads to the endmarker: all paths end there, so no position of
/// it is mapped into the record of another node.
pub proof fn lemma_predecessor_at_end(edges: Seq<Pos>, ranks: Seq<usize>, id: usize, i: usize)
    requires
        valid_record(edges, ranks),
        forall|r: int| 0 <= r < edges.len() ==> (#[trigger] edges[r]).node == ENDMARKER,
    ensures
        spec_predecessor_at(edges, ranks, id, i) is None,
        forall|j: int| 0 <= j < ranks.len() ==> spec_lf(edges, ranks, j) is None,
{
    lemma_first_reaching(edges, ranks, i as int, 0);
    if let Some(r) = first_reaching(edges, ranks, i as int, 0) {
        assert(edges[r].node == ENDMARKER);
    }
    assert forall|j: int| 0 <= j < ranks.len() implies spec_lf(edges, ranks, j) is None by {
        assert(ranks[j] < edges.len());
        assert(edges[ranks[j] as int].node == ENDMARKER);
    }
}

} // verus!
