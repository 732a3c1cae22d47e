//! The lexicographic order of byte strings.

use vstd::prelude::*;

verus! {

/// The result of a comparison.
#[derive(Copy, Clone, Debug, PartialEq, Eq, Structural)]
pub enum Order {
    /// The first value is lower.
    Less,
    /// The values are equal.
    Equal,
    /// The first value is higher.
    Greater,
}

/// The first `k` bytes of `a` and `b` are the same.
pub open spec fn agree(a: Seq<u8>, b: Seq<u8>, k: int) -> bool {
    &&& 0 <= k <= a.len()
    &&& k <= b.len()
    &&& forall|i: int| 0 <= i < k ==> a[i] == b[i]
}

/// `a` is lower than `b` by what follows their first `k` bytes, which are the
/// same: `a` ends there and `b` does not, or `a` goes on with a lower byte.
pub open spec fn lex_less_at(a: Seq<u8>, b: Seq<u8>, k: int) -> bool {
    &&& agree(a, b, k)
    &&& k < b.len()
    &&& k < a.len() ==> a[k] < b[k]
}

/// `a` comes before `b` in the lexicographic order of byte strings.
pub open spec fn lex_less(a: Seq<u8>, b: Seq<u8>) -> bool {
    exists|k: int| lex_less_at(a, b, k)
}

/// No byte string comes before itself.
pub proof fn lemma_lex_irreflexive(a: Seq<u8>)
    ensures
        !lex_less(a, a),
{
}

/// The order is transitive.
pub proof fn lemma_lex_transitive(a: Seq<u8>, b: Seq<u8>, c: Seq<u8>)
    requires
        lex_less(a, b),
        lex_less(b, c),
    ensures
        lex_less(a, c),
{
    let first = choose|k: int| lex_less_at(a, b, k);
    let second = choose|k: int| lex_less_at(b, c, k);
    if first <= second {
        assert(lex_less_at(a, c, first));
    } else {
        assert(lex_less_at(a, c, second));
    }
}

/// Of two byte strings, one comes before the other or they are the same.
pub proof fn lemma_lex_total(a: Seq<u8>, b: Seq<u8>)
    ensures
        lex_less(a, b) || a == b || lex_less(b, a),
        !(lex_less(a, b) && lex_less(b, a)),
        !(lex_less(a, b) && a == b),
    decreases a.len(),
{
    if lex_less(a, b) && lex_less(b, a) {
        lemma_lex_transitive(a, b, a);
    }
    lemma_lex_common(a, b, 0);
}

/// Two byte strings that agree on their first `k` bytes are the same or
/// differ after a common start.
proof fn lemma_lex_common(a: Seq<u8>, b: Seq<u8>, k: int)
    requires
        agree(a, b, k),
    ensures
        lex_less(a, b) || a == b || lex_less(b, a),
    decreases a.len() - k,
{
    if k == a.len() {
        if k == b.len() {
            assert(a =~= b);
        } else {
            assert(lex_less_at(a, b, k));
        }
    } else if k == b.len() {
        assert(lex_less_at(b, a, k));
    } else if a[k] < b[k] {
        assert(lex_less_at(a, b, k));
    } else if b[k] < a[k] {
        assert(lex_less_at(b, a, k));
    } else {
        lemma_lex_common(a, b, k + 1);
    }
}

/// Compares two byte strings in the lexicographic order.
pub fn compare_bytes(a: &[u8], b: &[u8]) -> (result: Order)
    ensures
        result == Order::Less <==> lex_less(a@, b@),
        result == Order::Equal <==> a@ == b@,
        result == Order::Greater <==> lex_less(b@, a@),
{
    proof {
        lemma_lex_total(a@, b@);
    }
    let n: usize = if a.len() < b.len() {
        a.len()
    } else {
        b.len()
    };
    let mut i: usize = 0;
    while i < n
        invariant
            n <= a@.len(),
            n <= b@.len(),
            i <= n,
            agree(a@, b@, i as int),
        decreases n - i,
    {
        if a[i] < b[i] {
            assert(lex_less_at(a@, b@, i as int));
            return Order::Less;
        }
        if a[i] > b[i] {
            assert(lex_less_at(b@, a@, i as int));
            return Order::Greater;
        }
        i += 1;
    }
    if a.len() < b.len() {
        assert(lex_less_at(a@, b@, n as int));
        Order::Less
    } else if a.len() > b.len() {
        assert(lex_less_at(b@, a@, n as int));
        Order::Greater
    } else {
        assert(a@ =~= b@);
        Order::Equal
    }
}

} // verus!
