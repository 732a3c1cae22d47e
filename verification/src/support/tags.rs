//! A key-value structure with strings as both keys and values, and keys
//! without case.

use vstd::prelude::*;
use vstd::utf8::{decode_utf8, encode_utf8, encode_utf8_decode_utf8, valid_utf8};
use crate::text::{lowercase, to_lowercase};
use super::indexed::{InvalidData, MAX_ITEMS};
use super::order::{compare_bytes, lemma_lex_irreflexive, lemma_lex_transitive, lex_less, Order};
use super::string_array::StringArray;

verus! {

//-----------------------------------------------------------------------------
// Tags as a sorted sequence of pairs.

/// The key `a` comes before the key `b`: its UTF-8 bytes come first in the
/// lexicographic order.
pub open spec fn key_less(a: Seq<char>, b: Seq<char>) -> bool {
    lex_less(encode_utf8(a), encode_utf8(b))
}

/// The keys of the tags are strictly increasing, so that no key occurs twice.
pub open spec fn sorted_tags(tags: Seq<(Seq<char>, Seq<char>)>) -> bool {
    forall|i: int, j: int| 0 <= i < j < tags.len() ==> key_less(tags[i].0, tags[j].0)
}

/// The number of tags whose key comes before `key`: among sorted tags, the
/// position at which `key` is or belongs.
pub open spec fn tag_position(tags: Seq<(Seq<char>, Seq<char>)>, key: Seq<char>) -> int
    decreases tags.len(),
{
    if tags.len() == 0 {
        0
    } else {
        tag_position(tags.drop_last(), key) + if key_less(tags.last().0, key) {
            1int
        } else {
            0int
        }
    }
}

/// The tags before position `p` have a key that comes before `key`, and the
/// tags from `p` on have not.
pub open spec fn is_position(tags: Seq<(Seq<char>, Seq<char>)>, key: Seq<char>, p: int) -> bool {
    &&& 0 <= p <= tags.len()
    &&& forall|i: int| 0 <= i < p ==> key_less(#[trigger] tags[i].0, key)
    &&& forall|i: int| p <= i < tags.len() ==> !key_less(#[trigger] tags[i].0, key)
}

/// The value of the tag with the given key, if there is one.
pub open spec fn tag_value(tags: Seq<(Seq<char>, Seq<char>)>, key: Seq<char>) -> Option<
    Seq<char>,
> {
    let p = tag_position(tags, key);
    if 0 <= p < tags.len() && tags[p].0 == key {
        Some(tags[p].1)
    } else {
        None
    }
}

/// The tags with the given key set to the given value: the value of the
/// tag is replaced if there is one with the key, and else the tag is put
/// where its key belongs.
pub open spec fn with_tag(
    tags: Seq<(Seq<char>, Seq<char>)>,
    key: Seq<char>,
    value: Seq<char>,
) -> Seq<(Seq<char>, Seq<char>)> {
    let p = tag_position(tags, key);
    if 0 <= p < tags.len() && tags[p].0 == key {
        tags.update(p, (key, value))
    } else {
        tags.insert(p, (key, value))
    }
}

/// Keys with the same bytes are the same.
pub proof fn lemma_key_bytes(a: Seq<char>, b: Seq<char>)
    requires
        encode_utf8(a) == encode_utf8(b),
    ensures
        a == b,
{
    encode_utf8_decode_utf8(a);
    encode_utf8_decode_utf8(b);
}

/// Among sorted tags, a position that splits the tags at `key` is the
/// position of `key`.
pub proof fn lemma_tag_position(tags: Seq<(Seq<char>, Seq<char>)>, key: Seq<char>, p: int)
    requires
        is_position(tags, key, p),
    ensures
        tag_position(tags, key) == p,
    decreases tags.len(),
{
    if tags.len() > 0 {
        let shorter = tags.drop_last();
        if p == tags.len() {
            assert(key_less(tags[tags.len() - 1].0, key));
            assert(is_position(shorter, key, p - 1)) by {
                assert forall|i: int| 0 <= i < p - 1 implies key_less(
                    #[trigger] shorter[i].0,
                    key,
                ) by {
                    assert(key_less(tags[i].0, key));
                }
            }
            lemma_tag_position(shorter, key, p - 1);
        } else {
            assert(!key_less(tags[tags.len() - 1].0, key));
            assert(is_position(shorter, key, p)) by {
                assert forall|i: int| 0 <= i < p implies key_less(#[trigger] shorter[i].0, key) by {
                    assert(key_less(tags[i].0, key));
                }
                assert forall|i: int| p <= i < shorter.len() implies !key_less(
                    #[trigger] shorter[i].0,
                    key,
                ) by {
                    assert(!key_less(tags[i].0, key));
                }
            }
            lemma_tag_position(shorter, key, p);
        }
    }
}

/// Among sorted tags, the value of a key is the value of the tag with that
/// key, and a key has no value exactly if no tag has it.
pub proof fn lemma_tag_value(tags: Seq<(Seq<char>, Seq<char>)>, key: Seq<char>, p: int)
    requires
        sorted_tags(tags),
        is_position(tags, key, p),
    ensures
        tag_value(tags, key) == if p < tags.len() && tags[p].0 == key {
            Some(tags[p].1)
        } else {
            None
        },
        tag_value(tags, key) is None <==> forall|i: int|
            0 <= i < tags.len() ==> (#[trigger] tags[i]).0 != key,
{
    lemma_tag_position(tags, key, p);
    lemma_lex_irreflexive(encode_utf8(key));
    if !(p < tags.len() && tags[p].0 == key) {
        assert forall|i: int| 0 <= i < tags.len() implies (#[trigger] tags[i]).0 != key by {
            if i < p {
                assert(key_less(tags[i].0, key));
            } else if i > p {
                assert(key_less(tags[p].0, tags[i].0));
                assert(!key_less(tags[i].0, key));
            }
        }
    }
}

/// Setting a tag keeps the tags sorted.
pub proof fn lemma_with_tag_sorted(
    tags: Seq<(Seq<char>, Seq<char>)>,
    key: Seq<char>,
    value: Seq<char>,
    p: int,
)
    requires
        sorted_tags(tags),
        is_position(tags, key, p),
    ensures
        sorted_tags(with_tag(tags, key, value)),
        with_tag(tags, key, value) == if p < tags.len() && tags[p].0 == key {
            tags.update(p, (key, value))
        } else {
            tags.insert(p, (key, value))
        },
{
    lemma_tag_position(tags, key, p);
    let after = with_tag(tags, key, value);
    if p < tags.len() && tags[p].0 == key {
        assert forall|i: int, j: int| 0 <= i < j < after.len() implies key_less(
            after[i].0,
            after[j].0,
        ) by {
            assert(key_less(tags[i].0, tags[j].0));
        }
    } else {
        assert forall|i: int, j: int| 0 <= i < j < after.len() implies key_less(
            after[i].0,
            after[j].0,
        ) by {
            if j < p {
                assert(key_less(tags[i].0, tags[j].0));
            } else if j == p {
                assert(key_less(tags[i].0, key));
            } else if i == p {
                // The tag after the new one is not before the key, and is not the key.
                let next = tags[j - 1].0;
                assert(!key_less(next, key));
                super::order::lemma_lex_total(encode_utf8(key), encode_utf8(next));
                if encode_utf8(key) == encode_utf8(next) {
                    lemma_key_bytes(key, next);
                    if j - 1 > p {
                        assert(key_less(tags[p].0, tags[j - 1].0));
                        assert(!key_less(tags[p].0, key));
                    }
                }
            } else if i < p {
                assert(key_less(tags[i].0, tags[j - 1].0));
            } else {
                assert(key_less(tags[i - 1].0, tags[j - 1].0));
            }
        }
    }
}

/// Among sorted tags, the position of a key splits the tags at the key.
pub proof fn lemma_position_exists(tags: Seq<(Seq<char>, Seq<char>)>, key: Seq<char>)
    requires
        sorted_tags(tags),
    ensures
        is_position(tags, key, tag_position(tags, key)),
    decreases tags.len(),
{
    if tags.len() > 0 {
        let shorter = tags.drop_last();
        let last = tags.last();
        assert(sorted_tags(shorter)) by {
            assert forall|i: int, j: int| 0 <= i < j < shorter.len() implies key_less(
                shorter[i].0,
                shorter[j].0,
            ) by {
                assert(key_less(tags[i].0, tags[j].0));
            }
        }
        lemma_position_exists(shorter, key);
        let p = tag_position(shorter, key);
        if key_less(last.0, key) {
            assert(is_position(shorter, key, shorter.len() as int)) by {
                assert forall|i: int| 0 <= i < shorter.len() implies key_less(
                    #[trigger] shorter[i].0,
                    key,
                ) by {
                    assert(key_less(tags[i].0, tags[tags.len() - 1].0));
                    lemma_lex_transitive(
                        encode_utf8(tags[i].0),
                        encode_utf8(last.0),
                        encode_utf8(key),
                    );
                }
            }
            lemma_tag_position(shorter, key, shorter.len() as int);
            assert forall|i: int| 0 <= i < tags.len() implies key_less(#[trigger] tags[i].0, key) by {
                if i < shorter.len() {
                    assert(key_less(shorter[i].0, key));
                }
            }
        } else {
            assert forall|i: int| 0 <= i < p implies key_less(#[trigger] tags[i].0, key) by {
                assert(key_less(shorter[i].0, key));
            }
            assert forall|i: int| p <= i < tags.len() implies !key_less(#[trigger] tags[i].0, key) by {
                if i < shorter.len() {
                    assert(!key_less(shorter[i].0, key));
                }
            }
        }
    }
}

/// Among sorted tags, the value of a key is the value of the one tag with
/// that key: a key has the value `value` exactly if the key and the value
/// are a tag.
pub proof fn lemma_tag_lookup(tags: Seq<(Seq<char>, Seq<char>)>, key: Seq<char>, value: Seq<char>)
    requires
        sorted_tags(tags),
    ensures
        tag_value(tags, key) == Some(value) <==> tags.contains((key, value)),
        tag_value(tags, key) is None <==> forall|i: int|
            0 <= i < tags.len() ==> (#[trigger] tags[i]).0 != key,
{
    lemma_position_exists(tags, key);
    let p = tag_position(tags, key);
    lemma_tag_value(tags, key, p);
    lemma_lex_irreflexive(encode_utf8(key));
    if tags.contains((key, value)) {
        let i = choose|i: int| 0 <= i < tags.len() && tags[i] == (key, value);
        assert(tags[i].0 == key);
        if i < p {
            assert(key_less(tags[i].0, tags[p].0));
        } else if p < i {
            assert(key_less(tags[p].0, tags[i].0));
        }
    }
    if tag_value(tags, key) == Some(value) {
        assert(tags[p] == (key, value));
    }
}

/// Setting a tag sets the value of its key and keeps the value of every
/// other key.
pub proof fn lemma_with_tag_value(
    tags: Seq<(Seq<char>, Seq<char>)>,
    key: Seq<char>,
    value: Seq<char>,
    other: Seq<char>,
)
    requires
        sorted_tags(tags),
    ensures
        tag_value(with_tag(tags, key, value), other) == if other == key {
            Some(value)
        } else {
            tag_value(tags, other)
        },
{
    lemma_position_exists(tags, key);
    let p = tag_position(tags, key);
    lemma_with_tag_sorted(tags, key, value, p);
    let after = with_tag(tags, key, value);
    assert(after[p] == (key, value));
    if other == key {
        lemma_tag_lookup(after, key, value);
    } else {
        match tag_value(tags, other) {
            Some(found) => {
                lemma_tag_lookup(tags, other, found);
                let i = choose|i: int| 0 <= i < tags.len() && tags[i] == (other, found);
                if p < tags.len() && tags[p].0 == key {
                    assert(after[i] == (other, found));
                } else if i < p {
                    assert(after[i] == (other, found));
                } else {
                    assert(after[i + 1] == (other, found));
                }
                lemma_tag_lookup(after, other, found);
            },
            None => {
                lemma_tag_lookup(tags, other, value);
                lemma_tag_lookup(after, other, value);
                assert forall|i: int| 0 <= i < after.len() implies (#[trigger] after[i]).0
                    != other by {
                    if p < tags.len() && tags[p].0 == key {
                        if i != p {
                            assert(after[i] == tags[i]);
                        }
                    } else if i < p {
                        assert(after[i] == tags[i]);
                    } else if i > p {
                        assert(after[i] == tags[i - 1]);
                    }
                }
            },
        }
    }
}

/// Setting a tag adds a tag exactly if its key had no value.
pub proof fn lemma_with_tag_len(tags: Seq<(Seq<char>, Seq<char>)>, key: Seq<char>, value: Seq<char>)
    ensures
        with_tag(tags, key, value).len() == tags.len() + if tag_value(tags, key) is None {
            1int
        } else {
            0int
        },
{
    lemma_tag_position_bounds(tags, key);
}

/// The position of a key is a position.
pub proof fn lemma_tag_position_bounds(tags: Seq<(Seq<char>, Seq<char>)>, key: Seq<char>)
    ensures
        0 <= tag_position(tags, key) <= tags.len(),
    decreases tags.len(),
{
    if tags.len() > 0 {
        lemma_tag_position_bounds(tags.drop_last(), key);
    }
}

//-----------------------------------------------------------------------------
// Tags as an array of strings.

/// The strings that tags are written as: the key and the value of each tag,
/// in the order of the tags, as UTF-8.
pub open spec fn linearized(tags: Seq<(Seq<char>, Seq<char>)>) -> Seq<Seq<u8>> {
    Seq::new(
        2 * tags.len(),
        |i: int|
            if i % 2 == 0 {
                encode_utf8(tags[i / 2].0)
            } else {
                encode_utf8(tags[i / 2].1)
            },
    )
}

/// The position of the first of the first `upto` strings that is not valid
/// UTF-8, if there is one.
pub open spec fn first_invalid(strings: Seq<Seq<u8>>, upto: int) -> Option<int>
    decreases upto,
{
    if upto <= 0 {
        None
    } else {
        match first_invalid(strings, upto - 1) {
            Some(q) => Some(q),
            None => if valid_utf8(strings[upto - 1]) {
                None
            } else {
                Some(upto - 1)
            },
        }
    }
}

/// The tags that the first `pairs` pairs of strings are read as: each pair
/// is a key and a value, and sets the tag with the key in lower case.
pub open spec fn tags_of(strings: Seq<Seq<u8>>, pairs: int) -> Seq<(Seq<char>, Seq<char>)>
    decreases pairs,
{
    if pairs <= 0 {
        Seq::empty()
    } else {
        with_tag(
            tags_of(strings, pairs - 1),
            lowercase(decode_utf8(strings[2 * pairs - 2])),
            decode_utf8(strings[2 * pairs - 1]),
        )
    }
}

/// What is wrong with strings that are read as tags, if anything: a key
/// without a value, the first string that is not valid UTF-8, or fewer tags
/// than pairs, because two of the keys are the same in lower case.
pub open spec fn tags_fault(strings: Seq<Seq<u8>>) -> Option<InvalidData> {
    if strings.len() % 2 != 0 {
        Some(InvalidData::KeyWithoutValue)
    } else {
        match first_invalid(strings, strings.len() as int) {
            Some(q) => if q % 2 == 0 {
                Some(InvalidData::InvalidKey)
            } else {
                Some(InvalidData::InvalidValue)
            },
            None => if tags_of(strings, strings.len() as int / 2).len() != strings.len() / 2 {
                Some(InvalidData::DuplicateKeys)
            } else {
                None
            },
        }
    }
}

/// More strings have the first invalid one where fewer have it, and where
/// none of them is invalid, all are valid.
pub proof fn lemma_first_invalid(strings: Seq<Seq<u8>>, fewer: int, upto: int)
    requires
        0 <= fewer <= upto,
    ensures
        first_invalid(strings, fewer) is Some ==> first_invalid(strings, upto) == first_invalid(
            strings,
            fewer,
        ),
        first_invalid(strings, upto) is None ==> forall|q: int|
            0 <= q < upto ==> valid_utf8(#[trigger] strings[q]),
        first_invalid(strings, upto) matches Some(q) ==> 0 <= q < upto && !valid_utf8(strings[q]),
    decreases upto,
{
    if fewer < upto {
        lemma_first_invalid(strings, fewer, upto - 1);
    } else if upto > 0 {
        lemma_first_invalid(strings, upto - 1, upto - 1);
    }
}

/// The key of pair `i` of the strings, as tags are read: in lower case.
pub open spec fn key_of(strings: Seq<Seq<u8>>, i: int) -> Seq<char> {
    lowercase(decode_utf8(strings[2 * i]))
}

/// The keys of the first `pairs` pairs are different from each other.
pub open spec fn distinct_keys(strings: Seq<Seq<u8>>, pairs: int) -> bool {
    forall|i: int, j: int|
        0 <= i < j < pairs ==> #[trigger] key_of(strings, i) != #[trigger] key_of(strings, j)
}

/// Some pair before pair `pairs` has the key.
pub open spec fn has_key(strings: Seq<Seq<u8>>, pairs: int, key: Seq<char>) -> bool {
    exists|i: int| 0 <= i < pairs && #[trigger] key_of(strings, i) == key
}

/// The tags that pairs of strings are read as are sorted, a key has a value
/// among them exactly if a pair has the key, and there are as many tags as
/// pairs exactly if the keys of the pairs are different from each other.
pub proof fn lemma_tags_of(strings: Seq<Seq<u8>>, pairs: int)
    requires
        0 <= pairs,
    ensures
        sorted_tags(tags_of(strings, pairs)),
        tags_of(strings, pairs).len() <= pairs,
        forall|key: Seq<char>| #[trigger]
            tag_value(tags_of(strings, pairs), key) is Some <==> has_key(strings, pairs, key),
        tags_of(strings, pairs).len() == pairs <==> distinct_keys(strings, pairs),
    decreases pairs,
{
    if pairs > 0 {
        lemma_tags_of(strings, pairs - 1);
        let before = tags_of(strings, pairs - 1);
        let key = key_of(strings, pairs - 1);
        let value = decode_utf8(strings[2 * pairs - 1]);
        let after = tags_of(strings, pairs);
        assert(after == with_tag(before, key, value));
        lemma_position_exists(before, key);
        lemma_with_tag_sorted(before, key, value, tag_position(before, key));
        lemma_with_tag_len(before, key, value);
        assert forall|other: Seq<char>| #[trigger]
            tag_value(after, other) is Some <==> has_key(strings, pairs, other) by {
            lemma_with_tag_value(before, key, value, other);
            if has_key(strings, pairs, other) {
                let i = choose|i: int| 0 <= i < pairs && #[trigger] key_of(strings, i) == other;
                if i < pairs - 1 {
                    assert(has_key(strings, pairs - 1, other));
                }
            }
            if tag_value(after, other) is Some {
                if other == key {
                    assert(key_of(strings, pairs - 1) == other);
                } else {
                    assert(has_key(strings, pairs - 1, other));
                    let i = choose|i: int|
                        0 <= i < pairs - 1 && #[trigger] key_of(strings, i) == other;
                    assert(key_of(strings, i) == other);
                }
            }
        }
        if distinct_keys(strings, pairs) {
            assert(distinct_keys(strings, pairs - 1));
            if has_key(strings, pairs - 1, key) {
                let i = choose|i: int| 0 <= i < pairs - 1 && #[trigger] key_of(strings, i) == key;
                assert(key_of(strings, i) != key_of(strings, pairs - 1));
            }
        }
        if after.len() == pairs {
            assert(before.len() == pairs - 1);
            assert(!has_key(strings, pairs - 1, key));
            assert forall|i: int, j: int| 0 <= i < j < pairs implies #[trigger] key_of(
                strings,
                i,
            ) != #[trigger] key_of(strings, j) by {
                if j == pairs - 1 {
                    if key_of(strings, i) == key {
                        assert(has_key(strings, pairs - 1, key));
                    }
                }
            }
        }
    } else {
        assert(tags_of(strings, pairs) =~= Seq::empty());
        assert forall|key: Seq<char>| #[trigger]
            tag_value(tags_of(strings, pairs), key) is Some <==> has_key(strings, pairs, key) by {}
    }
}

//-----------------------------------------------------------------------------

/// A key-value structure with strings as both keys and values.
///
/// The keys are case insensitive: every key is converted to lower case.
/// The tags are kept in the order of the bytes of their keys.
#[derive(Debug, PartialEq, Eq)]
pub struct Tags {
    tags: Vec<(String, String)>,
}

impl View for Tags {
    type V = Seq<(Seq<char>, Seq<char>)>;

    /// The tags as pairs of a key and a value, in the order of the keys.
    closed spec fn view(&self) -> Seq<(Seq<char>, Seq<char>)> {
        Seq::new(self.tags@.len(), |i: int| (self.tags@[i].0@, self.tags@[i].1@))
    }
}

impl Default for Tags {
    fn default() -> (result: Self)
        ensures
            result@ == Seq::<(Seq<char>, Seq<char>)>::empty(),
    {
        Tags::new()
    }
}

impl Clone for Tags {
    fn clone(&self) -> (result: Self)
        ensures
            result@ == self@,
    {
        proof {
            use_type_invariant(self);
        }
        let n: usize = self.tags.len();
        let mut tags: Vec<(String, String)> = Vec::with_capacity(n);
        let mut i: usize = 0;
        while i < n
            invariant
                n == self.tags@.len(),
                i <= n,
                tags@.len() == i,
                forall|k: int| 0 <= k < i ==> #[trigger] tags@[k] == self.tags@[k],
            decreases n - i,
        {
            tags.push((self.tags[i].0.clone(), self.tags[i].1.clone()));
            i += 1;
        }
        assert(tags@ =~= self.tags@);
        Tags { tags }
    }
}

impl Tags {
    #[verifier::type_invariant]
    spec fn inv(&self) -> bool {
        sorted_tags(self@)
    }

    /// Creates an empty `Tags` structure.
    pub fn new() -> (result: Tags)
        ensures
            result@ == Seq::<(Seq<char>, Seq<char>)>::empty(),
    {
        let result = Tags { tags: Vec::new() };
        assert(result@ =~= Seq::<(Seq<char>, Seq<char>)>::empty());
        result
    }

    /// Returns the number of tags.
    pub fn len(&self) -> (result: usize)
        ensures
            result == self@.len(),
            sorted_tags(self@),
    {
        proof {
            use_type_invariant(self);
        }
        self.tags.len()
    }

    /// Returns `true` if the structure is empty.
    pub fn is_empty(&self) -> (result: bool)
        ensures
            result == (self@.len() == 0),
    {
        self.tags.len() == 0
    }

    // Returns the position at which the key in lower case is or belongs.
    fn find(tags: &Vec<(String, String)>, key: &str) -> (result: usize)
        requires
            sorted_tags(Seq::new(tags@.len(), |i: int| (tags@[i].0@, tags@[i].1@))),
        ensures
            is_position(
                Seq::new(tags@.len(), |i: int| (tags@[i].0@, tags@[i].1@)),
                key@,
                result as int,
            ),
    {
        let ghost model = Seq::new(tags@.len(), |i: int| (tags@[i].0@, tags@[i].1@));
        let n: usize = tags.len();
        let mut low: usize = 0;
        let mut high: usize = n;
        while low < high
            invariant
                model == Seq::new(tags@.len(), |i: int| (tags@[i].0@, tags@[i].1@)),
                sorted_tags(model),
                n == tags@.len(),
                low <= high <= n,
                forall|i: int| 0 <= i < low ==> key_less(#[trigger] model[i].0, key@),
                forall|i: int| high <= i < n ==> !key_less(#[trigger] model[i].0, key@),
            decreases high - low,
        {
            let mid: usize = low + (high - low) / 2;
            assert(model[mid as int].0 == tags@[mid as int].0@);
            match compare_bytes(tags[mid].0.as_str().as_bytes(), key.as_bytes()) {
                Order::Less => {
                    proof {
                        assert forall|i: int| 0 <= i < mid + 1 implies key_less(
                            #[trigger] model[i].0,
                            key@,
                        ) by {
                            if i < mid {
                                assert(key_less(model[i].0, model[mid as int].0));
                                lemma_lex_transitive(
                                    encode_utf8(model[i].0),
                                    encode_utf8(model[mid as int].0),
                                    encode_utf8(key@),
                                );
                            }
                        }
                    }
                    low = mid + 1;
                },
                _ => {
                    proof {
                        assert forall|i: int| mid <= i < n implies !key_less(
                            #[trigger] model[i].0,
                            key@,
                        ) by {
                            if mid < i {
                                assert(key_less(model[mid as int].0, model[i].0));
                                if key_less(model[i].0, key@) {
                                    lemma_lex_transitive(
                                        encode_utf8(model[mid as int].0),
                                        encode_utf8(model[i].0),
                                        encode_utf8(key@),
                                    );
                                }
                            }
                        }
                    }
                    high = mid;
                },
            }
        }
        low
    }

    /// Returns the value corresponding to the key, or [`None`] no such tag exists.
    pub fn get(&self, key: &str) -> (result: Option<&String>)
        ensures
            match result {
                Some(value) => tag_value(self@, lowercase(key@)) == Some(value@),
                None => tag_value(self@, lowercase(key@)) is None,
            },
    {
        proof {
            use_type_invariant(self);
        }
        let key: String = to_lowercase(key);
        let p: usize = Self::find(&self.tags, key.as_str());
        proof {
            lemma_tag_value(self@, key@, p as int);
        }
        if p < self.tags.len() {
            match compare_bytes(self.tags[p].0.as_str().as_bytes(), key.as_str().as_bytes()) {
                Order::Equal => {
                    proof {
                        lemma_key_bytes(self@[p as int].0, key@);
                    }
                    Some(&self.tags[p].1)
                },
                _ => None,
            }
        } else {
            None
        }
    }

    /// Returns `true` if there is a tag with the given key.
    pub fn contains_key(&self, key: &str) -> (result: bool)
        ensures
            result == tag_value(self@, lowercase(key@)) is Some,
    {
        self.get(key).is_some()
    }

    /// Inserts a new tag, overwriting the possible old value associated with the same key.
    ///
    /// # Arguments
    ///
    /// * `key`: Key of the tag. The key is converted to lower case before it is inserted.
    /// * `value`: Value of the tag.
    pub fn insert(&mut self, key: &str, value: &str)
        ensures
            final(self)@ == with_tag(old(self)@, lowercase(key@), value@),
    {
        let mut current = Tags::new();
        core::mem::swap(self, &mut current);
        proof {
            use_type_invariant(&current);
        }
        let ghost before = current@;
        let mut tags: Vec<(String, String)> = current.tags;
        let key: String = to_lowercase(key);
        let value: String = value.to_owned();
        let p: usize = Self::find(&tags, key.as_str());
        proof {
            lemma_with_tag_sorted(before, key@, value@, p as int);
        }
        let mut present: bool = false;
        if p < tags.len() {
            match compare_bytes(tags[p].0.as_str().as_bytes(), key.as_str().as_bytes()) {
                Order::Equal => {
                    proof {
                        lemma_key_bytes(before[p as int].0, key@);
                    }
                    present = true;
                },
                _ => {},
            }
        }
        if present {
            tags.set(p, (key, value));
        } else {
            tags.insert(p, (key, value));
        }
        let ghost after = Seq::new(tags@.len(), |i: int| (tags@[i].0@, tags@[i].1@));
        assert(after =~= with_tag(before, key@, value@));
        *self = Tags { tags };
    }

    /// Returns the tags in sorted order by keys, each as a key and a value.
    pub fn iter(&self) -> (result: Vec<(&String, &String)>)
        ensures
            result@.len() == self@.len(),
            forall|i: int|
                0 <= i < result@.len() ==> (#[trigger] result@[i]).0@ == self@[i].0 && result@[i].1@
                    == self@[i].1,
            sorted_tags(self@),
    {
        proof {
            use_type_invariant(self);
        }
        let n: usize = self.tags.len();
        let mut result: Vec<(&String, &String)> = Vec::with_capacity(n);
        let mut i: usize = 0;
        while i < n
            invariant
                n == self.tags@.len(),
                i <= n,
                result@.len() == i,
                forall|k: int|
                    0 <= k < i ==> (#[trigger] result@[k]).0@ == self@[k].0 && result@[k].1@
                        == self@[k].1,
            decreases n - i,
        {
            result.push((&self.tags[i].0, &self.tags[i].1));
            i += 1;
        }
        result
    }

    /// Returns the keys and values as an array of strings: the key and the
    /// value of each tag, in the order of the tags.
    ///
    /// There must be fewer strings than a bit-packed vector takes items.
    pub fn linearize(&self) -> (result: StringArray)
        requires
            2 * self@.len() < MAX_ITEMS,
        ensures
            result@ == linearized(self@),
    {
        let n: usize = self.tags.len();
        let mut strings: Vec<&str> = Vec::with_capacity(2 * n);
        let mut i: usize = 0;
        while i < n
            invariant
                n == self.tags@.len(),
                2 * n < MAX_ITEMS,
                i <= n,
                strings@.len() == 2 * i,
                forall|q: int|
                    0 <= q < 2 * i ==> (#[trigger] strings@[q])@ == if q % 2 == 0 {
                        self@[q / 2].0
                    } else {
                        self@[q / 2].1
                    },
            decreases n - i,
        {
            strings.push(self.tags[i].0.as_str());
            strings.push(self.tags[i].1.as_str());
            i += 1;
        }
        let result = StringArray::from_strs(strings.as_slice());
        proof {
            assert(result@ =~= linearized(self@));
        }
        result
    }

    /// Reads tags from an array of strings that holds the key and the value
    /// of each tag.
    ///
    /// Fails if the number of strings is odd, a string is not valid UTF-8, or
    /// two keys are the same, in this order.
    pub fn from_strings(strings: &StringArray) -> (result: Result<Tags, InvalidData>)
        ensures
            match result {
                Ok(tags) => tags_fault(strings@) is None && tags@ == tags_of(
                    strings@,
                    strings@.len() as int / 2,
                ),
                Err(error) => tags_fault(strings@) == Some(error),
            },
            result == Err::<Tags, InvalidData>(InvalidData::DuplicateKeys) ==> !distinct_keys(
                strings@,
                strings@.len() as int / 2,
            ),
            result is Ok ==> distinct_keys(strings@, strings@.len() as int / 2),
    {
        proof {
            lemma_tags_of(strings@, strings@.len() as int / 2);
        }
        let n: usize = strings.len();
        if n % 2 != 0 {
            return Err(InvalidData::KeyWithoutValue);
        }
        let pairs: usize = n / 2;
        let mut result = Tags::new();
        let mut i: usize = 0;
        while i < pairs
            invariant
                n == strings@.len(),
                n == 2 * pairs,
                i <= pairs,
                first_invalid(strings@, 2 * i) is None,
                result@ == tags_of(strings@, i as int),
            decreases pairs - i,
        {
            proof {
                lemma_first_invalid(strings@, 2 * i, 2 * i + 1);
                lemma_first_invalid(strings@, 2 * i + 1, 2 * i + 2);
                lemma_first_invalid(strings@, 2 * i + 1, n as int);
                lemma_first_invalid(strings@, 2 * i + 2, n as int);
            }
            let key: &str = match strings.str(2 * i) {
                Ok(key) => key,
                Err(_) => {
                    return Err(InvalidData::InvalidKey);
                },
            };
            let value: &str = match strings.str(2 * i + 1) {
                Ok(value) => value,
                Err(_) => {
                    return Err(InvalidData::InvalidValue);
                },
            };
            proof {
                encode_utf8_decode_utf8(key@);
                encode_utf8_decode_utf8(value@);
            }
            result.insert(key, value);
            i += 1;
        }
        if result.len() != pairs {
            return Err(InvalidData::DuplicateKeys);
        }
        Ok(result)
    }
}

} // verus!
