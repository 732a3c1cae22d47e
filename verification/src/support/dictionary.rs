//! An immutable set of immutable strings with integer identifiers, found by
//! binary search over the identifiers in the order of their strings.

use vstd::prelude::*;
use vstd::std_specs::convert::TryFromSpecImpl;
use vstd::utf8::valid_utf8;
use vstd::string::StringSliceAdditionalSpecFns;
use std::cmp::Ordering;
use simple_sds::int_vector::IntVector;
use crate::sds::{int_vector_get, int_vector_items, int_vector_len, int_vector_sound};
use super::indexed::{is_sound, pack_offsets, InvalidData, MAX_ITEMS};
use super::string_array::StringArray;
use super::order::{
    compare_bytes, lemma_lex_irreflexive, lemma_lex_transitive, lex_less, Order,
};

verus! {

/// The identifiers are those of the strings, in the order of the strings:
/// there is one for each string, each names a string, the strings grow
/// strictly along them, and every string is named.
pub open spec fn sorted_ids(strings: Seq<Seq<u8>>, ids: Seq<u64>) -> bool {
    &&& ids.len() == strings.len()
    &&& forall|k: int| 0 <= k < ids.len() ==> #[trigger] ids[k] < strings.len()
    &&& forall|i: int, j: int|
        0 <= i < j < ids.len() ==> lex_less(
            #[trigger] strings[ids[i] as int],
            #[trigger] strings[ids[j] as int],
        )
    &&& forall|x: int| 0 <= x < strings.len() ==> #[trigger] names(ids, x)
}

/// Some identifier of `ids` is `x`.
pub open spec fn names(ids: Seq<u64>, x: int) -> bool {
    exists|k: int| 0 <= k < ids.len() && #[trigger] ids[k] == x
}

/// What is wrong with a vector that is to hold the sorted identifiers of the
/// strings, if anything: it cannot be read, or what it holds are not the
/// identifiers of the strings in the order of the strings.
pub open spec fn ids_fault(strings: Seq<Seq<u8>>, sorted: IntVector) -> Option<InvalidData> {
    if !int_vector_sound(sorted) {
        Some(InvalidData::InvalidVector)
    } else if !sorted_ids(strings, int_vector_items(sorted)) {
        Some(InvalidData::SortedIds)
    } else {
        None
    }
}

/// No string occurs twice.
pub open spec fn distinct(strings: Seq<Seq<u8>>) -> bool {
    forall|i: int, j: int| 0 <= i < j < strings.len() ==> strings[i] != strings[j]
}

/// What a dictionary cannot be built of, in words.
pub open spec fn duplicate_strings() -> Seq<char> {
    "Cannot build a dictionary from a source with duplicate strings"@
}

/// The string that has the identifier `id`.
pub open spec fn string_at(strings: Seq<Seq<u8>>, id: usize) -> Seq<u8> {
    strings[id as int]
}

/// The strings never fall along the identifiers.
pub open spec fn ordered_ids(strings: Seq<Seq<u8>>, ids: Seq<usize>) -> bool {
    forall|i: int, j: int|
        0 <= i <= j < ids.len() ==> !lex_less(
            #[trigger] strings[ids[j] as int],
            #[trigger] strings[ids[i] as int],
        )
}

/// Every identifier names a string.
pub open spec fn ids_in_range(strings: Seq<Seq<u8>>, ids: Seq<usize>) -> bool {
    forall|k: int| 0 <= k < ids.len() ==> #[trigger] ids[k] < strings.len()
}

/// Compares the strings of two identifiers.
fn compare_ids(source: &StringArray, a: usize, b: usize) -> (result: Ordering)
    requires
        a < source@.len(),
        b < source@.len(),
    ensures
        result == Ordering::Less <==> lex_less(string_at(source@, a), string_at(source@, b)),
        result == Ordering::Equal <==> string_at(source@, a) == string_at(source@, b),
        result == Ordering::Greater <==> lex_less(string_at(source@, b), string_at(source@, a)),
{
    match compare_bytes(source.bytes(a), source.bytes(b)) {
        Order::Less => Ordering::Less,
        Order::Equal => Ordering::Equal,
        Order::Greater => Ordering::Greater,
    }
}

/// Calls `sort_unstable_by` of slices, which reorders the identifiers by the
/// given comparison. The documentation of `std` promises a sorted slice for
/// a comparison that is a total order: the comparison handed over here is
/// the verified order of the strings. It reads the string of each
/// identifier, so every identifier must name a string.
#[verifier::external_body]
fn sort_ids(ids: &mut Vec<usize>, source: &StringArray)
    requires
        ids_in_range(source@, old(ids)@),
    ensures
        final(ids)@.to_multiset() == old(ids)@.to_multiset(),
        ordered_ids(source@, final(ids)@),
{
    ids.sort_unstable_by(|a, b| compare_ids(source, *a, *b));
}

/// An immutable set of immutable strings with integer identifiers.
///
/// The strings are stored in a [`StringArray`] and the identifiers are indexes into the array.
/// The construction will fail if the source contains duplicate strings.
#[derive(Debug, PartialEq, Eq)]
pub struct Dictionary {
    strings: StringArray,
    sorted_ids: IntVector,
}

impl View for Dictionary {
    type V = Seq<Seq<u8>>;

    /// The bytes of each string, by identifier.
    closed spec fn view(&self) -> Seq<Seq<u8>> {
        self.strings@
    }
}

impl Clone for Dictionary {
    fn clone(&self) -> (result: Self)
        ensures
            result@ == self@,
            result.order() == self.order(),
    {
        proof {
            use_type_invariant(self);
        }
        let strings = self.strings.clone();
        let sorted_ids = self.sorted_ids.clone();
        Dictionary { strings, sorted_ids }
    }
}

impl Dictionary {
    #[verifier::type_invariant]
    spec fn inv(&self) -> bool {
        &&& int_vector_sound(self.sorted_ids)
        &&& sorted_ids(self.strings@, int_vector_items(self.sorted_ids))
    }

    /// The identifiers in the order of their strings.
    pub closed spec fn order(&self) -> Seq<u64> {
        int_vector_items(self.sorted_ids)
    }

    /// Makes a dictionary of the strings and their identifiers in the order
    /// of the strings.
    ///
    /// The identifiers must come in a vector that can be read, and they must
    /// be those of the strings, in the order of the strings. Else the error
    /// tells the first of these that does not hold.
    pub fn from_parts(strings: StringArray, sorted: IntVector) -> (result: Result<
        Self,
        InvalidData,
    >)
        ensures
            match result {
                Ok(dictionary) => {
                    &&& int_vector_sound(sorted)
                    &&& sorted_ids(strings@, int_vector_items(sorted))
                    &&& dictionary@ == strings@
                    &&& dictionary.order() == int_vector_items(sorted)
                },
                Err(error) => ids_fault(strings@, sorted) == Some(error),
            },
    {
        if !is_sound(&sorted) {
            return Err(InvalidData::InvalidVector);
        }
        let ghost ids = int_vector_items(sorted);
        let n: usize = strings.len();
        if int_vector_len(&sorted) != n {
            return Err(InvalidData::SortedIds);
        }
        let mut seen: Vec<bool> = Vec::with_capacity(n);
        let mut k: usize = 0;
        while k < n
            invariant
                k <= n,
                seen@.len() == k,
                forall|x: int| 0 <= x < k ==> #[trigger] seen@[x] == false,
            decreases n - k,
        {
            seen.push(false);
            k += 1;
        }
        let mut k: usize = 0;
        while k < n
            invariant
                int_vector_sound(sorted),
                ids == int_vector_items(sorted),
                n == strings@.len(),
                n == ids.len(),
                k <= n,
                seen@.len() == n,
                forall|a: int| 0 <= a < k ==> #[trigger] ids[a] < n,
                forall|i: int, j: int|
                    0 <= i < j < k ==> lex_less(
                        #[trigger] strings@[ids[i] as int],
                        #[trigger] strings@[ids[j] as int],
                    ),
                forall|x: int|
                    0 <= x < n ==> (#[trigger] seen@[x] <==> exists|a: int|
                        0 <= a < k && #[trigger] ids[a] == x),
            decreases n - k,
        {
            let id: u64 = int_vector_get(&sorted, k);
            if id >= n as u64 {
                return Err(InvalidData::SortedIds);
            }
            let id: usize = id as usize;
            if k > 0 {
                let prev: usize = int_vector_get(&sorted, k - 1) as usize;
                match compare_bytes(strings.bytes(prev), strings.bytes(id)) {
                    Order::Less => {
                        proof {
                            assert forall|i: int| 0 <= i < k implies lex_less(
                                #[trigger] strings@[ids[i] as int],
                                strings@[ids[k as int] as int],
                            ) by {
                                if i < k - 1 {
                                    lemma_lex_transitive(
                                        strings@[ids[i] as int],
                                        strings@[ids[k - 1] as int],
                                        strings@[ids[k as int] as int],
                                    );
                                }
                            }
                        }
                    },
                    _ => {
                        proof {
                            lemma_lex_irreflexive(strings@[ids[k as int] as int]);
                            if lex_less(strings@[ids[k as int] as int], strings@[ids[k - 1] as int])
                                && lex_less(
                                strings@[ids[k - 1] as int],
                                strings@[ids[k as int] as int],
                            ) {
                                lemma_lex_transitive(
                                    strings@[ids[k as int] as int],
                                    strings@[ids[k - 1] as int],
                                    strings@[ids[k as int] as int],
                                );
                            }
                        }
                        return Err(InvalidData::SortedIds);
                    },
                }
            }
            let ghost before = seen@;
            seen.set(id, true);
            proof {
                assert forall|x: int| 0 <= x < n implies (#[trigger] seen@[x] <==> exists|a: int|
                    0 <= a < k + 1 && #[trigger] ids[a] == x) by {
                    if x == id {
                        assert(ids[k as int] == x);
                    } else {
                        if before[x] {
                            let a = choose|a: int| 0 <= a < k && #[trigger] ids[a] == x;
                            assert(ids[a] == x);
                        }
                    }
                }
            }
            k += 1;
        }
        let mut x: usize = 0;
        while x < n
            invariant
                int_vector_sound(sorted),
                ids == int_vector_items(sorted),
                n == strings@.len(),
                n == ids.len(),
                x <= n,
                seen@.len() == n,
                forall|y: int|
                    0 <= y < n ==> (#[trigger] seen@[y] <==> exists|a: int|
                        0 <= a < n && #[trigger] ids[a] == y),
                forall|y: int| 0 <= y < x ==> #[trigger] seen@[y],
            decreases n - x,
        {
            if !seen[x] {
                assert(!names(ids, x as int));
                return Err(InvalidData::SortedIds);
            }
            x += 1;
        }
        proof {
            assert forall|y: int| 0 <= y < n implies #[trigger] names(ids, y) by {
                assert(seen@[y]);
            }
        }
        Ok(Dictionary { strings, sorted_ids: sorted })
    }

    /// Returns the strings of the dictionary.
    pub fn strings(&self) -> (result: &StringArray)
        ensures
            result@ == self@,
    {
        &self.strings
    }

    /// Returns the identifiers in the order of their strings.
    pub fn sorted_ids(&self) -> (result: &IntVector)
        ensures
            int_vector_sound(*result),
            int_vector_items(*result) == self.order(),
            sorted_ids(self@, self.order()),
    {
        proof {
            use_type_invariant(self);
        }
        &self.sorted_ids
    }

    /// Returns the number of strings in the dictionary.
    #[inline]
    pub fn len(&self) -> (result: usize)
        ensures
            result == self@.len(),
    {
        self.strings.len()
    }

    /// Returns `true` if the dictionary is empty.
    #[inline]
    pub fn is_empty(&self) -> (result: bool)
        ensures
            result == (self@.len() == 0),
    {
        self.len() == 0
    }

    /// Returns the identifier of the given string in the dictionary, or [`None`] if there is no such string.
    pub fn id(&self, string: &[u8]) -> (result: Option<usize>)
        ensures
            match result {
                Some(id) => id < self@.len() && self@[id as int] == string@,
                None => forall|x: int| 0 <= x < self@.len() ==> self@[x] != string@,
            },
    {
        proof {
            use_type_invariant(self);
        }
        let ghost ids = int_vector_items(self.sorted_ids);
        let ghost strings = self.strings@;
        let n: usize = self.len();
        let mut low: usize = 0;
        let mut high: usize = n;
        while low < high
            invariant
                int_vector_sound(self.sorted_ids),
                sorted_ids(strings, ids),
                ids == int_vector_items(self.sorted_ids),
                strings == self.strings@,
                n == strings.len(),
                low <= high <= n,
                forall|k: int| 0 <= k < low ==> lex_less(#[trigger] strings[ids[k] as int], string@),
                forall|k: int|
                    high <= k < n ==> lex_less(string@, #[trigger] strings[ids[k] as int]),
            decreases high - low,
        {
            let mid: usize = low + (high - low) / 2;
            let id: usize = int_vector_get(&self.sorted_ids, mid) as usize;
            assert(ids[mid as int] < n);
            match compare_bytes(string, self.strings.bytes(id)) {
                Order::Less => {
                    proof {
                        assert forall|k: int| mid <= k < n implies lex_less(
                            string@,
                            #[trigger] strings[ids[k] as int],
                        ) by {
                            if mid < k {
                                assert(lex_less(strings[ids[mid as int] as int], strings[ids[k] as int]));
                                lemma_lex_transitive(
                                    string@,
                                    strings[ids[mid as int] as int],
                                    strings[ids[k] as int],
                                );
                            }
                        }
                    }
                    high = mid;
                },
                Order::Equal => {
                    return Some(id);
                },
                Order::Greater => {
                    proof {
                        assert forall|k: int| 0 <= k < mid + 1 implies lex_less(
                            #[trigger] strings[ids[k] as int],
                            string@,
                        ) by {
                            if k < mid {
                                assert(lex_less(strings[ids[k] as int], strings[ids[mid as int] as int]));
                                lemma_lex_transitive(
                                    strings[ids[k] as int],
                                    strings[ids[mid as int] as int],
                                    string@,
                                );
                            }
                        }
                    }
                    low = mid + 1;
                },
            }
        }
        proof {
            assert forall|x: int| 0 <= x < n implies strings[x] != string@ by {
                assert(names(ids, x));
                let k = choose|k: int| 0 <= k < ids.len() && #[trigger] ids[k] == x;
                lemma_lex_irreflexive(string@);
            }
        }
        None
    }

    /// Returns a byte slice corresponding to the string with identifier `i`.
    pub fn bytes(&self, i: usize) -> (result: &[u8])
        requires
            i < self@.len(),
        ensures
            result@ == self@[i as int],
    {
        self.strings.bytes(i)
    }

    /// Returns a string slice corresponding to the string with identifier `i` or an error if the bytes are not valid UTF-8.
    pub fn str(&self, i: usize) -> (result: Result<&str, core::str::Utf8Error>)
        requires
            i < self@.len(),
        ensures
            result is Ok <==> valid_utf8(self@[i as int]),
            result matches Ok(s) ==> s.spec_bytes() == self@[i as int],
    {
        self.strings.str(i)
    }

    /// Returns a copy of the string with identifier `i` or an error if the bytes are not valid UTF-8.
    pub fn string(&self, i: usize) -> (result: Result<String, core::str::Utf8Error>)
        requires
            i < self@.len(),
        ensures
            result is Ok <==> valid_utf8(self@[i as int]),
            result matches Ok(s) ==> s@ == vstd::utf8::decode_utf8(self@[i as int]),
    {
        self.strings.string(i)
    }
}

impl Dictionary {
    /// Builds the dictionary of the given strings, or fails if a string
    /// occurs twice among them.
    ///
    /// There must be fewer strings than a bit-packed vector takes items.
    pub fn from_strs(source: &[&str]) -> (result: Result<Self, &'static str>)
        requires
            source@.len() < MAX_ITEMS,
        ensures
            match result {
                Ok(dictionary) => {
                    &&& dictionary@ == Seq::new(source@.len(), |i: int| source@[i].spec_bytes())
                    &&& distinct(dictionary@)
                },
                Err(message) => {
                    &&& !distinct(Seq::new(source@.len(), |i: int| source@[i].spec_bytes()))
                    &&& message@ == duplicate_strings()
                },
            },
    {
        Dictionary::try_from(StringArray::from_strs(source))
    }
}

impl TryFrom<StringArray> for Dictionary {
    type Error = &'static str;

    /// Builds the dictionary of the strings of the array, or fails if a
    /// string occurs twice in it.
    fn try_from(source: StringArray) -> (result: Result<Self, Self::Error>)
        ensures
            match result {
                Ok(dictionary) => distinct(source@) && dictionary@ == source@,
                Err(message) => !distinct(source@) && message@ == duplicate_strings(),
            },
    {
        broadcast use vstd::seq_lib::to_multiset_contains;

        // Sort the ids and check for duplicates.
        let n: usize = source.len();
        let mut sorted: Vec<usize> = Vec::with_capacity(n);
        let mut i: usize = 0;
        while i < n
            invariant
                i <= n,
                sorted@.len() == i,
                forall|k: int| 0 <= k < i ==> #[trigger] sorted@[k] == k,
            decreases n - i,
        {
            sorted.push(i);
            i += 1;
        }
        let ghost identity = sorted@;
        sort_ids(&mut sorted, &source);
        let ghost strings = source@;
        proof {
            identity.to_multiset_ensures();
            sorted@.to_multiset_ensures();
            assert(identity.no_duplicates());
            identity.lemma_multiset_has_no_duplicates();
            sorted@.lemma_multiset_has_no_duplicates_conv();
            assert(sorted@.len() == n);
            assert forall|k: int| 0 <= k < sorted@.len() implies #[trigger] sorted@[k] < n by {
                let v = sorted@[k];
                assert(sorted@.contains(v));
                vstd::seq_lib::to_multiset_contains(sorted@, v);
                vstd::seq_lib::to_multiset_contains(identity, v);
                assert(identity.contains(v));
                let at = choose|at: int| 0 <= at < identity.len() && identity[at] == v;
                assert(identity[at] == at);
            }
            assert forall|x: usize| x < n implies #[trigger] sorted@.contains(x) by {
                assert(identity[x as int] == x);
                assert(identity.contains(x));
                vstd::seq_lib::to_multiset_contains(sorted@, x);
                vstd::seq_lib::to_multiset_contains(identity, x);
            }
        }
        let mut i: usize = 1;
        while i < n
            invariant
                n == strings.len(),
                strings == source@,
                sorted@.len() == n,
                1 <= i,
                sorted@.no_duplicates(),
                ordered_ids(strings, sorted@),
                forall|x: usize| x < n ==> #[trigger] sorted@.contains(x),
                forall|k: int| 0 <= k < n ==> #[trigger] sorted@[k] < n,
                forall|a: int, b: int|
                    0 <= a < b < i && b < n ==> lex_less(
                        #[trigger] strings[sorted@[a] as int],
                        #[trigger] strings[sorted@[b] as int],
                    ),
            decreases n - i,
        {
            match compare_bytes(source.bytes(sorted[i - 1]), source.bytes(sorted[i])) {
                Order::Less => {
                    proof {
                        assert forall|a: int| 0 <= a < i implies lex_less(
                            #[trigger] strings[sorted@[a] as int],
                            strings[sorted@[i as int] as int],
                        ) by {
                            if a < i - 1 {
                                lemma_lex_transitive(
                                    strings[sorted@[a] as int],
                                    strings[sorted@[i - 1] as int],
                                    strings[sorted@[i as int] as int],
                                );
                            }
                        }
                    }
                },
                Order::Equal => {
                    proof {
                        let x = sorted@[i - 1] as int;
                        let y = sorted@[i as int] as int;
                        assert(x != y);
                        assert(strings[x] == strings[y]);
                        if x < y {
                            assert(!distinct(strings));
                        } else {
                            assert(!distinct(strings));
                        }
                    }
                    return Err("Cannot build a dictionary from a source with duplicate strings");
                },
                Order::Greater => {
                    proof {
                        assert(!lex_less(
                            strings[sorted@[i as int] as int],
                            strings[sorted@[i - 1] as int],
                        ));
                        assert(false);
                    }
                },
            }
            i += 1;
        }

        // Compact the sorted ids.
        let largest: usize = if n == 0 {
            0
        } else {
            n - 1
        };
        let sorted_ids: IntVector = pack_offsets(&sorted, largest);
        proof {
            let ids = int_vector_items(sorted_ids);
            assert forall|a: int, b: int| 0 <= a < b < ids.len() implies lex_less(
                #[trigger] strings[ids[a] as int],
                #[trigger] strings[ids[b] as int],
            ) by {
                assert(ids[a] == sorted@[a]);
                assert(ids[b] == sorted@[b]);
                assert(lex_less(strings[sorted@[a] as int], strings[sorted@[b] as int]));
            }
            assert forall|x: int| 0 <= x < n implies #[trigger] names(ids, x) by {
                assert(sorted@.contains(x as usize));
                let k = choose|k: int| 0 <= k < sorted@.len() && sorted@[k] == x as usize;
                assert(ids[k] == x);
            }
            assert(distinct(strings)) by {
                assert forall|x: int, y: int| 0 <= x < y < n implies strings[x] != strings[y] by {
                    assert(names(ids, x));
                    assert(names(ids, y));
                    let a = choose|k: int| 0 <= k < ids.len() && #[trigger] ids[k] == x;
                    let b = choose|k: int| 0 <= k < ids.len() && #[trigger] ids[k] == y;
                    if a < b {
                        assert(lex_less(strings[ids[a] as int], strings[ids[b] as int]));
                    } else {
                        assert(lex_less(strings[ids[b] as int], strings[ids[a] as int]));
                    }
                    lemma_lex_irreflexive(strings[x]);
                }
            }
        }
        Ok(Dictionary { strings: source, sorted_ids })
    }
}

impl TryFromSpecImpl<StringArray> for Dictionary {
    /// The conversion is specified by what `try_from` ensures of the
    /// strings, not by a value: the sorted identifiers are built by the
    /// vector's own operations.
    open spec fn obeys_try_from_spec() -> bool {
        false
    }

    open spec fn try_from_spec(source: StringArray) -> Result<Self, &'static str> {
        arbitrary()
    }
}

impl AsRef<StringArray> for Dictionary {
    #[inline]
    fn as_ref(&self) -> (result: &StringArray)
        ensures
            result@ == self@,
    {
        &(self.strings)
    }
}

} // verus!
