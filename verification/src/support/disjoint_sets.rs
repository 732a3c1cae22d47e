//! Disjoint sets over a range of integers, with path splitting and union by
//! rank.

use vstd::prelude::*;
use std::collections::HashMap;
use vstd::arithmetic::power2::{
    lemma2_to64, lemma2_to64_rest, lemma_pow2_strictly_increases, lemma_pow2_unfold, pow2,
};

verus! {

//-----------------------------------------------------------------------------
// The forest of parent links.

/// The parent links form a forest: every link stays inside the structure,
/// and the rank grows along every link that is not a loop.
pub open spec fn forest(parents: Seq<usize>, ranks: Seq<u8>) -> bool {
    &&& ranks.len() == parents.len()
    &&& forall|i: int| 0 <= i < parents.len() ==> #[trigger] parents[i] < parents.len()
    &&& forall|i: int|
        0 <= i < parents.len() && #[trigger] parents[i] != i ==> ranks[i]
            < ranks[parents[i] as int]
}

/// The root that the parent links lead to from element `i`.
pub open spec fn root_in(parents: Seq<usize>, ranks: Seq<u8>, i: int) -> int
    decreases 256 - ranks[i],
{
    if 0 <= i < parents.len() && ranks.len() == parents.len() && parents[i] != i && parents[i]
        < parents.len() && ranks[i] < ranks[parents[i] as int] {
        root_in(parents, ranks, parents[i] as int)
    } else {
        i
    }
}

/// The sum of the weights of the roots among the first `upto` elements.
pub open spec fn root_weights(parents: Seq<usize>, weights: Seq<nat>, upto: int) -> nat
    decreases upto,
{
    if upto <= 0 {
        0
    } else {
        root_weights(parents, weights, upto - 1) + if parents[upto - 1] == upto - 1 {
            weights[upto - 1]
        } else {
            0
        }
    }
}

/// The weights bound the ranks: every root weighs at least two to the power
/// of its rank, and all roots together weigh no more than there are elements.
pub open spec fn balanced(parents: Seq<usize>, ranks: Seq<u8>, weights: Seq<nat>) -> bool {
    &&& weights.len() == parents.len()
    &&& forall|i: int|
        0 <= i < parents.len() && parents[i] == i ==> pow2(ranks[i] as nat)
            <= #[trigger] weights[i]
    &&& root_weights(parents, weights, parents.len() as int) <= parents.len()
}

/// The root of an element is a root, inside the structure.
pub proof fn lemma_root_in(parents: Seq<usize>, ranks: Seq<u8>, i: int)
    requires
        forest(parents, ranks),
        0 <= i < parents.len(),
    ensures
        0 <= root_in(parents, ranks, i) < parents.len(),
        parents[root_in(parents, ranks, i)] == root_in(parents, ranks, i),
        ranks[i] <= ranks[root_in(parents, ranks, i)],
        parents[i] != i ==> ranks[i] < ranks[root_in(parents, ranks, i)],
        root_in(parents, ranks, parents[i] as int) == root_in(parents, ranks, i),
    decreases 256 - ranks[i],
{
    if parents[i] != i {
        lemma_root_in(parents, ranks, parents[i] as int);
    }
}

/// The weight of a root is part of the weight of all roots.
pub proof fn lemma_root_weights_bound(parents: Seq<usize>, weights: Seq<nat>, upto: int, r: int)
    requires
        0 <= r < upto,
        parents[r] == r,
    ensures
        weights[r] <= root_weights(parents, weights, upto),
    decreases upto,
{
    if r < upto - 1 {
        lemma_root_weights_bound(parents, weights, upto - 1, r);
    }
}

/// The weight of all roots depends only on which elements are roots and on
/// what they weigh.
pub proof fn lemma_root_weights_same(
    parents: Seq<usize>,
    other: Seq<usize>,
    weights: Seq<nat>,
    upto: int,
)
    requires
        upto <= parents.len() == other.len(),
        forall|i: int| 0 <= i < upto ==> (parents[i] == i <==> other[i] == i),
    ensures
        root_weights(parents, weights, upto) == root_weights(other, weights, upto),
    decreases upto,
{
    if upto > 0 {
        lemma_root_weights_same(parents, other, weights, upto - 1);
    }
}

/// The rank of a root is below 64 where the weights bound the ranks and the
/// number of elements fits in `usize`.
pub proof fn lemma_root_rank(parents: Seq<usize>, ranks: Seq<u8>, weights: Seq<nat>, r: int)
    requires
        balanced(parents, ranks, weights),
        parents.len() <= usize::MAX,
        0 <= r < parents.len(),
        parents[r] == r,
    ensures
        ranks[r] < 64,
{
    lemma_root_weights_bound(parents, weights, parents.len() as int, r);
    lemma2_to64_rest();
    if ranks[r] >= 64 {
        if ranks[r] > 64 {
            lemma_pow2_strictly_increases(64, ranks[r] as nat);
        }
        assert(pow2(ranks[r] as nat) >= pow2(64));
        assert(false);
    }
}

/// Path splitting keeps the forest: after the link of an element is moved
/// to its grandparent, every element has the root that it had.
proof fn lemma_split(parents: Seq<usize>, ranks: Seq<u8>, v: int, i: int)
    requires
        forest(parents, ranks),
        0 <= v < parents.len(),
        0 <= i < parents.len(),
    ensures
        forest(parents.update(v, parents[parents[v] as int]), ranks),
        root_in(parents.update(v, parents[parents[v] as int]), ranks, i) == root_in(
            parents,
            ranks,
            i,
        ),
        forall|j: int|
            0 <= j < parents.len() ==> (parents.update(v, parents[parents[v] as int])[j] == j
                <==> parents[j] == j),
    decreases 256 - ranks[i],
{
    let p = parents[v] as int;
    let after = parents.update(v, parents[p]);
    assert(parents[p] < parents.len());
    assert(forest(after, ranks)) by {
        assert forall|j: int| 0 <= j < after.len() && #[trigger] after[j] != j implies ranks[j]
            < ranks[after[j] as int] by {
            if j == v && parents[v] != v {
                assert(parents[v] != v);
                if parents[p] != p {
                    assert(ranks[p] < ranks[parents[p] as int]);
                }
            } else {
                assert(parents[j] != j);
            }
        }
    }
    assert forall|j: int| 0 <= j < parents.len() implies (after[j] == j <==> parents[j] == j) by {
        if j == v && parents[v] != v {
            assert(ranks[v] < ranks[p]);
            if parents[p] != p {
                assert(ranks[p] < ranks[parents[p] as int]);
            }
        }
    }
    if after[i] != i {
        assert(parents[i] != i);
        lemma_split(parents, ranks, v, after[i] as int);
        if i == v {
            lemma_root_in(parents, ranks, p);
            lemma_root_in(parents, ranks, v);
        }
    }
}

/// Linking a root below another root keeps the forest: the elements of the
/// lower root get the upper root, and every other element has the root that
/// it had.
proof fn lemma_link(
    parents: Seq<usize>,
    ranks: Seq<u8>,
    winner: int,
    loser: int,
    after: Seq<usize>,
    raised: Seq<u8>,
    i: int,
)
    requires
        forest(parents, ranks),
        0 <= winner < parents.len(),
        0 <= loser < parents.len(),
        winner != loser,
        parents[winner] == winner,
        parents[loser] == loser,
        after == parents.update(loser, winner as usize),
        raised.len() == ranks.len(),
        forall|j: int| 0 <= j < ranks.len() && j != winner ==> raised[j] == ranks[j],
        ranks[winner] <= raised[winner],
        ranks[loser] < raised[winner],
        0 <= i < parents.len(),
    ensures
        forest(after, raised),
        root_in(after, raised, i) == if root_in(parents, ranks, i) == loser {
            winner
        } else {
            root_in(parents, ranks, i)
        },
    decreases 256 - ranks[i],
{
    assert(forest(after, raised)) by {
        assert forall|j: int| 0 <= j < after.len() && #[trigger] after[j] != j implies raised[j]
            < raised[after[j] as int] by {
            if j != loser {
                assert(parents[j] != j);
            }
        }
    }
    assert(after[winner] == winner);
    assert(root_in(after, raised, winner) == winner);
    if i == loser {
        assert(after[loser] == winner);
        assert(raised[loser] < raised[winner]);
        assert(root_in(after, raised, loser) == root_in(after, raised, winner));
    } else if parents[i] != i {
        lemma_link(parents, ranks, winner, loser, after, raised, parents[i] as int);
        assert(after[i] == parents[i]);
        assert(raised[i] < raised[after[i] as int]);
    }
}

/// After a root is linked below another root whose weight takes its weight
/// in, all roots together weigh what they weighed.
proof fn lemma_link_weights(
    parents: Seq<usize>,
    weights: Seq<nat>,
    winner: int,
    loser: int,
    upto: int,
)
    requires
        0 <= winner < parents.len(),
        0 <= loser < parents.len(),
        winner != loser,
        parents[winner] == winner,
        parents[loser] == loser,
        weights.len() == parents.len(),
        0 <= upto <= parents.len(),
    ensures
        root_weights(
            parents.update(loser, winner as usize),
            weights.update(winner, weights[winner] + weights[loser]),
            upto,
        ) == root_weights(parents, weights, upto) + if winner < upto {
            weights[loser] as int
        } else {
            0
        } - if loser < upto {
            weights[loser] as int
        } else {
            0
        },
    decreases upto,
{
    if upto > 0 {
        lemma_link_weights(parents, weights, winner, loser, upto - 1);
    }
}

/// In a structure of separate elements, all roots together weigh as much as
/// there are elements, if each weighs one.
proof fn lemma_initial_weights(parents: Seq<usize>, weights: Seq<nat>, upto: int)
    requires
        0 <= upto <= parents.len() == weights.len(),
        forall|i: int| 0 <= i < parents.len() ==> parents[i] == i && weights[i] == 1,
    ensures
        root_weights(parents, weights, upto) == upto,
    decreases upto,
{
    if upto > 0 {
        lemma_initial_weights(parents, weights, upto - 1);
    }
}

//-----------------------------------------------------------------------------

/// What a disjoint sets structure stands for.
pub struct DisjointSetsView {
    /// The lowest value in the structure.
    pub offset: usize,
    /// For each element, the root of the set that holds it. Element `i`
    /// stands for value `i + offset`.
    pub roots: Seq<int>,
    /// The rank of each element.
    pub ranks: Seq<u8>,
}

/// The sets are in order: none is empty, the values of each are strictly
/// increasing, and so are the lowest values of the sets.
pub open spec fn sorted_sets(sets: Seq<Vec<usize>>) -> bool {
    &&& forall|k: int| 0 <= k < sets.len() ==> (#[trigger] sets[k])@.len() > 0
    &&& forall|k: int, x: int, y: int|
        0 <= k < sets.len() && 0 <= x < y < sets[k]@.len() ==> (#[trigger] sets[k]@[x])
            < (#[trigger] sets[k]@[y])
    &&& forall|k: int, l: int|
        0 <= k < l < sets.len() ==> (#[trigger] sets[k])@[0] < (#[trigger] sets[l])@[0]
}

/// Some set holds the value.
pub open spec fn in_sets(sets: Seq<Vec<usize>>, value: usize) -> bool {
    exists|k: int, x: int|
        0 <= k < sets.len() && 0 <= x < sets[k]@.len() && #[trigger] sets[k]@[x] == value
}

/// What a structure stands for after the sets of elements `a` and `b` are
/// joined: the root with the lower rank and all elements of its set get the
/// other root; with equal ranks the root of `a` stays, and its rank grows by
/// one.
pub open spec fn joined(sets: DisjointSetsView, a: int, b: int) -> DisjointSetsView {
    let first = sets.roots[a];
    let second = sets.roots[b];
    if first == second {
        sets
    } else {
        let winner = if sets.ranks[first] >= sets.ranks[second] {
            first
        } else {
            second
        };
        let loser = if sets.ranks[first] >= sets.ranks[second] {
            second
        } else {
            first
        };
        DisjointSetsView {
            offset: sets.offset,
            roots: Seq::new(
                sets.roots.len(),
                |i: int|
                    if sets.roots[i] == loser {
                        winner
                    } else {
                        sets.roots[i]
                    },
            ),
            ranks: if sets.ranks[first] == sets.ranks[second] {
                sets.ranks.update(winner, (sets.ranks[winner] + 1) as u8)
            } else {
                sets.ranks
            },
        }
    }
}

/// Joining the sets of `a` and `b` joins these two sets and no others: two
/// elements are in the same set afterwards exactly if they were before, or
/// each of them was in the set of `a` or in the set of `b`.
pub proof fn lemma_joined(sets: DisjointSetsView, a: int, b: int, x: int, y: int)
    requires
        0 <= x < sets.roots.len(),
        0 <= y < sets.roots.len(),
    ensures
        joined(sets, a, b).roots.len() == sets.roots.len(),
        joined(sets, a, b).roots[x] == joined(sets, a, b).roots[y] <==> {
            ||| sets.roots[x] == sets.roots[y]
            ||| {
                &&& sets.roots[x] == sets.roots[a] || sets.roots[x] == sets.roots[b]
                &&& sets.roots[y] == sets.roots[a] || sets.roots[y] == sets.roots[b]
            }
        },
{
}

/// A quick and dirty disjoint sets implementation.
///
/// Uses path splitting and union by rank.
/// The implementation is for all values in range `offset..offset + len`.
/// Each value is initially in a separate set.
/// The root element of the set containing a value can be retrieved with [`DisjointSets::find`].
/// The sets containing two elements can be joined with [`DisjointSets::union`].
/// When the sets are extracted with [`DisjointSets::extract`], some values may be omitted.
#[derive(Debug, PartialEq, Eq)]
pub struct DisjointSets {
    // Offset of the parent.
    parents: Vec<usize>,
    // Rank is at most ~log(size).
    ranks: Vec<u8>,
    // Value `i` is stored at offset `i - offset`.
    offset: usize,
}

impl Clone for DisjointSets {
    fn clone(&self) -> (result: Self)
        ensures
            result@ == self@,
            result.wf() == self.wf(),
    {
        let parents: Vec<usize> = self.parents.clone();
        let ranks: Vec<u8> = self.ranks.clone();
        assert(parents@ =~= self.parents@);
        assert(ranks@ =~= self.ranks@);
        DisjointSets { parents, ranks, offset: self.offset }
    }
}

impl View for DisjointSets {
    type V = DisjointSetsView;

    closed spec fn view(&self) -> DisjointSetsView {
        DisjointSetsView {
            offset: self.offset,
            roots: Seq::new(self.parents@.len(), |i: int| root_in(self.parents@, self.ranks@, i)),
            ranks: self.ranks@,
        }
    }
}

impl DisjointSets {
    /// The structure is well formed: its parent links form a forest whose
    /// ranks are bounded by the sizes of the sets, and its values fit in
    /// `usize`. Every structure that this module hands out is well formed.
    pub closed spec fn wf(&self) -> bool {
        &&& forest(self.parents@, self.ranks@)
        &&& self.parents@.len() + self.offset <= usize::MAX
        &&& exists|weights: Seq<nat>| balanced(self.parents@, self.ranks@, weights)
    }

    /// The structure holds the value.
    pub open spec fn holds(&self, value: usize) -> bool {
        self@.offset <= value < self@.offset + self@.roots.len()
    }

    /// In a well-formed structure, every root is an element and its own
    /// root, and there are as many ranks as elements.
    pub proof fn lemma_roots(&self, i: int)
        requires
            self.wf(),
            0 <= i < self@.roots.len(),
        ensures
            0 <= self@.roots[i] < self@.roots.len(),
            self@.roots[self@.roots[i]] == self@.roots[i],
            self@.ranks.len() == self@.roots.len(),
            self@.roots.len() + self@.offset <= usize::MAX,
    {
        lemma_root_in(self.parents@, self.ranks@, i);
        lemma_root_in(self.parents@, self.ranks@, self@.roots[i]);
    }

    /// Returns a new `DisjointSets` structure with the given length and starting offset.
    ///
    /// The values from `offset` up to `offset + len` must fit in `usize`.
    pub fn new(len: usize, offset: usize) -> (result: Self)
        requires
            len + offset <= usize::MAX,
        ensures
            result.wf(),
            result@.offset == offset,
            result@.roots == Seq::new(len as nat, |i: int| i),
            result@.ranks == Seq::new(len as nat, |i: int| 0u8),
    {
        let mut parents: Vec<usize> = Vec::with_capacity(len);
        let mut ranks: Vec<u8> = Vec::with_capacity(len);
        let mut i: usize = 0;
        while i < len
            invariant
                i <= len,
                parents@.len() == i,
                ranks@.len() == i,
                forall|j: int| 0 <= j < i ==> #[trigger] parents@[j] == j,
                forall|j: int| 0 <= j < i ==> #[trigger] ranks@[j] == 0,
            decreases len - i,
        {
            parents.push(i);
            ranks.push(0);
            i += 1;
        }
        let result = DisjointSets { parents, ranks, offset };
        proof {
            let weights = Seq::new(len as nat, |i: int| 1nat);
            lemma_initial_weights(result.parents@, weights, len as int);
            lemma2_to64();
            assert(balanced(result.parents@, result.ranks@, weights));
            assert(result@.roots =~= Seq::new(len as nat, |i: int| i));
            assert(result@.ranks =~= Seq::new(len as nat, |i: int| 0u8));
        }
        result
    }

    /// Returns the number of values in the structure.
    pub fn len(&self) -> (result: usize)
        ensures
            result == self@.roots.len(),
    {
        self.parents.len()
    }

    /// Returns `true` if the structure holds no values.
    pub fn is_empty(&self) -> (result: bool)
        ensures
            result == (self@.roots.len() == 0),
    {
        self.parents.len() == 0
    }

    /// Returns the starting offset for the values.
    pub fn offset(&self) -> (result: usize)
        ensures
            result == self@.offset,
    {
        self.offset
    }

    /// Returns the root element for the set containing the given value.
    ///
    /// Replaces the parent of each element with the grandparent to speed up further queries.
    /// This is also known as path splitting. The sets stay as they are.
    pub fn find(&mut self, value: usize) -> (result: usize)
        requires
            old(self).wf(),
            old(self).holds(value),
        ensures
            final(self).wf(),
            final(self)@ == old(self)@,
            result == old(self)@.roots[value - old(self)@.offset],
    {
        let ghost start = (value - self.offset) as int;
        let ghost weights = choose|weights: Seq<nat>|
            balanced(self.parents@, self.ranks@, weights);
        let mut value: usize = value - self.offset;
        while self.parents[value] != value
            invariant
                forest(self.parents@, self.ranks@),
                balanced(self.parents@, self.ranks@, weights),
                self.parents@.len() == old(self).parents@.len(),
                self.ranks@ == old(self).ranks@,
                self.offset == old(self).offset,
                0 <= start < self.parents@.len(),
                value < self.parents@.len(),
                forall|i: int|
                    0 <= i < self.parents@.len() ==> root_in(self.parents@, self.ranks@, i)
                        == root_in(old(self).parents@, old(self).ranks@, i),
                root_in(self.parents@, self.ranks@, value as int) == root_in(
                    old(self).parents@,
                    old(self).ranks@,
                    start,
                ),
            decreases 256 - self.ranks@[value as int],
        {
            let next: usize = self.parents[value];
            let grand: usize = self.parents[next];
            proof {
                let before = self.parents@;
                assert forall|i: int| 0 <= i < before.len() implies root_in(
                    before.update(value as int, grand),
                    self.ranks@,
                    i,
                ) == root_in(before, self.ranks@, i) by {
                    lemma_split(before, self.ranks@, value as int, i);
                }
                lemma_split(before, self.ranks@, value as int, next as int);
                lemma_root_weights_same(
                    before,
                    before.update(value as int, grand),
                    weights,
                    before.len() as int,
                );
                lemma_root_in(before, self.ranks@, value as int);
            }
            self.parents.set(value, grand);
            value = next;
        }
        proof {
            assert(self@.roots =~= old(self)@.roots);
        }
        value
    }

    /// Joins the sets containing values `a` and `b`.
    ///
    /// Uses union by rank.
    /// The rank of a set containing a single value is 0.
    /// The root of the set with the lower rank becomes the child of the root of the set with the higher rank.
    /// If the ranks are equal, `find(a)` becomes the root and the rank of the new set increases by 1.
    pub fn union(&mut self, a: usize, b: usize)
        requires
            old(self).wf(),
            old(self).holds(a),
            old(self).holds(b),
        ensures
            final(self).wf(),
            final(self)@ == joined(
                old(self)@,
                a - old(self)@.offset,
                b - old(self)@.offset,
            ),
    {
        let ghost before = self@;
        let ghost first = a - self.offset;
        let ghost second = b - self.offset;
        proof {
            self.lemma_roots(first);
            self.lemma_roots(second);
        }
        let mut a: usize = self.find(a);
        let mut b: usize = self.find(b);
        proof {
            assert(self@ == before);
            lemma_root_in(self.parents@, self.ranks@, first);
            lemma_root_in(self.parents@, self.ranks@, second);
            assert(self@.roots[first] == root_in(self.parents@, self.ranks@, first));
            assert(self@.roots[second] == root_in(self.parents@, self.ranks@, second));
        }
        if a == b {
            return ;
        }
        if self.ranks[a] < self.ranks[b] {
            let c: usize = a;
            a = b;
            b = c;
        }
        proof {
            let weights = choose|weights: Seq<nat>|
                balanced(self.parents@, self.ranks@, weights);
            lemma_root_rank(self.parents@, self.ranks@, weights, a as int);
            lemma_root_rank(self.parents@, self.ranks@, weights, b as int);
        }
        let ghost parents = self.parents@;
        let ghost ranks = self.ranks@;
        self.parents.set(b, a);
        if self.ranks[b] == self.ranks[a] {
            let rank: u8 = self.ranks[a];
            self.ranks.set(a, rank + 1);
        }
        proof {
            let winner = a as int;
            let loser = b as int;
            let weights = choose|weights: Seq<nat>| balanced(parents, ranks, weights);
            let heavier = weights.update(winner, weights[winner] + weights[loser]);
            assert forall|i: int| 0 <= i < parents.len() implies root_in(
                self.parents@,
                self.ranks@,
                i,
            ) == if root_in(parents, ranks, i) == loser {
                winner
            } else {
                root_in(parents, ranks, i)
            } by {
                lemma_link(parents, ranks, winner, loser, self.parents@, self.ranks@, i);
            }
            lemma_link(parents, ranks, winner, loser, self.parents@, self.ranks@, winner);
            lemma_link_weights(parents, weights, winner, loser, parents.len() as int);
            assert(balanced(self.parents@, self.ranks@, heavier)) by {
                assert forall|i: int|
                    0 <= i < self.parents@.len() && self.parents@[i] == i implies pow2(
                    self.ranks@[i] as nat,
                ) <= #[trigger] heavier[i] by {
                    assert(parents[i] == i);
                    assert(pow2(ranks[i] as nat) <= weights[i]);
                    if i == winner {
                        assert(pow2(ranks[loser] as nat) <= weights[loser]);
                        if ranks[loser] == ranks[winner] {
                            lemma_pow2_unfold((ranks[winner] + 1) as nat);
                        }
                    }
                }
            }
            assert(self@.roots =~= joined(before, first, second).roots);
            assert(self@.ranks =~= joined(before, first, second).ranks);
        }
    }

    /// Returns the sets corresponding to this structure.
    ///
    /// Only includes values for which `include_value(value) == true`.
    /// The sets will be sorted by the minimum value, and each set will be in sorted order.
    pub fn extract<F: Fn(usize) -> bool>(&mut self, include_value: F) -> (result: Vec<Vec<usize>>)
        requires
            old(self).wf(),
            forall|value: usize|
                old(self).holds(value) ==> call_requires(include_value, (value,)),
        ensures
            final(self).wf(),
            final(self)@ == old(self)@,
            sorted_sets(result@),
            forall|k: int, x: int|
                0 <= k < result@.len() && 0 <= x < result@[k]@.len() ==> old(self).holds(
                    #[trigger] result@[k]@[x],
                ) && call_ensures(include_value, (result@[k]@[x],), true),
            forall|value: usize|
                old(self).holds(value) && !in_sets(result@, value) ==> call_ensures(
                    include_value,
                    (value,),
                    false,
                ),
            forall|k: int, x: int, l: int, y: int|
                0 <= k < result@.len() && 0 <= x < result@[k]@.len() && 0 <= l < result@.len()
                    && 0 <= y < result@[l]@.len() ==> (k == l <==> old(self)@.roots[(
                #[trigger] result@[k]@[x]) - old(self)@.offset] == old(self)@.roots[(
                #[trigger] result@[l]@[y]) - old(self)@.offset]),
    {
        broadcast use vstd::std_specs::hash::group_hash_axioms;

        let mut result: Vec<Vec<usize>> = Vec::new();
        let mut root_to_set: HashMap<usize, usize> = HashMap::new();
        let ghost mut set_roots: Seq<usize> = Seq::empty();
        let ghost sets = self@;
        proof {
            if self.parents@.len() > 0 {
                self.lemma_roots(0);
            }
        }
        let offset: usize = self.offset;
        let limit: usize = self.parents.len() + self.offset;
        let mut value: usize = offset;
        while value < limit
            invariant
                self.wf(),
                self@ == sets,
                sets == old(self)@,
                offset == sets.offset,
                limit == sets.offset + sets.roots.len(),
                offset <= value <= limit,
                forall|value: usize|
                    old(self).holds(value) ==> call_requires(include_value, (value,)),
                sorted_sets(result@),
                set_roots.len() == result@.len(),
                forall|k: int, x: int|
                    0 <= k < result@.len() && 0 <= x < result@[k]@.len() ==> {
                        &&& offset <= (#[trigger] result@[k]@[x]) < value
                        &&& call_ensures(include_value, (result@[k]@[x],), true)
                        &&& sets.roots[result@[k]@[x] - offset] == set_roots[k]
                    },
                forall|k: int, l: int|
                    0 <= k < l < set_roots.len() ==> set_roots[k] != set_roots[l],
                forall|other: usize|
                    offset <= other < value && !in_sets(result@, other) ==> call_ensures(
                        include_value,
                        (other,),
                        false,
                    ),
                forall|root: usize| #[trigger]
                    root_to_set@.contains_key(root) ==> root_to_set@[root] < set_roots.len()
                        && set_roots[root_to_set@[root] as int] == root,
                forall|k: int|
                    0 <= k < set_roots.len() ==> root_to_set@.contains_key(#[trigger] set_roots[k]),
            decreases limit - value,
        {
            let ghost before = result@;
            assert(old(self).holds(value));
            if include_value(value) {
                proof {
                    self.lemma_roots(value - offset);
                }
                let root: usize = self.find(value);
                match root_to_set.get(&root) {
                    Some(index) => {
                        let index: usize = *index;
                        result[index].push(value);
                        proof {
                            assert(result@[index as int]@.last() == value);
                            assert forall|other: usize|
                                offset <= other < value + 1 && !in_sets(
                                    result@,
                                    other,
                                ) implies call_ensures(include_value, (other,), false) by {
                                if other == value {
                                    assert(result@[index as int]@[result@[index as int]@.len()
                                        - 1] == value);
                                    assert(in_sets(result@, other));
                                } else if in_sets(before, other) {
                                    let (k, x) = choose|k: int, x: int|
                                        0 <= k < before.len() && 0 <= x < before[k]@.len()
                                            && #[trigger] before[k]@[x] == other;
                                    assert(result@[k]@[x] == other);
                                    assert(in_sets(result@, other));
                                }
                            }
                        }
                    },
                    None => {
                        let index: usize = result.len();
                        root_to_set.insert(root, index);
                        let mut set: Vec<usize> = Vec::new();
                        set.push(value);
                        result.push(set);
                        proof {
                            assert forall|k: int| 0 <= k < set_roots.len() implies set_roots[k]
                                != root by {
                                assert(root_to_set@.contains_key(set_roots[k]));
                            }
                            set_roots = set_roots.push(root);
                            assert(result@[index as int]@[0] == value);
                            assert forall|other: usize|
                                offset <= other < value + 1 && !in_sets(
                                    result@,
                                    other,
                                ) implies call_ensures(include_value, (other,), false) by {
                                if other == value {
                                    assert(in_sets(result@, other));
                                } else if in_sets(before, other) {
                                    let (k, x) = choose|k: int, x: int|
                                        0 <= k < before.len() && 0 <= x < before[k]@.len()
                                            && #[trigger] before[k]@[x] == other;
                                    assert(result@[k]@[x] == other);
                                    assert(in_sets(result@, other));
                                }
                            }
                            assert(sorted_sets(result@)) by {
                                assert forall|k: int, l: int|
                                    0 <= k < l < result@.len() implies (#[trigger] result@[k])@[0]
                                    < (#[trigger] result@[l])@[0] by {
                                    if l == index {
                                        assert(result@[k]@[0] < value);
                                    } else {
                                        assert(before[k]@[0] < before[l]@[0]);
                                    }
                                }
                            }
                        }
                    },
                }
            } else {
                proof {
                    assert forall|other: usize|
                        offset <= other < value + 1 && !in_sets(result@, other) implies call_ensures(
                        include_value,
                        (other,),
                        false,
                    ) by {}
                }
            }
            value += 1;
        }
        proof {
            assert forall|k: int, x: int, l: int, y: int|
                0 <= k < result@.len() && 0 <= x < result@[k]@.len() && 0 <= l < result@.len()
                    && 0 <= y < result@[l]@.len() implies (k == l <==> sets.roots[(
            #[trigger] result@[k]@[x]) - sets.offset] == sets.roots[(#[trigger] result@[l]@[y])
                - sets.offset]) by {
                assert(sets.roots[result@[k]@[x] - offset] == set_roots[k]);
                assert(sets.roots[result@[l]@[y] - offset] == set_roots[l]);
                if k < l {
                    assert(set_roots[k] != set_roots[l]);
                } else if l < k {
                    assert(set_roots[l] != set_roots[k]);
                }
            }
        }
        result
    }
}

} // verus!