use gbwt::support::{Dictionary, InvalidData, StringArray, Tags};

use simple_sds::int_vector::IntVector;
use simple_sds::ops::{Access, Push, Vector};
use simple_sds::serialize::Serialize;

use std::convert::TryFrom;

// A vector as it is loaded from a file that gives the number of items, the width of an
// item, the number of bits and the words that hold them.
fn loaded_vector(len: u64, width: u64, bits: u64, words: &[u64]) -> IntVector {
    let mut buffer: Vec<u8> = Vec::new();
    for value in [len, width, bits, words.len() as u64] {
        buffer.extend_from_slice(&value.to_ne_bytes());
    }
    for word in words {
        buffer.extend_from_slice(&word.to_ne_bytes());
    }
    let mut reader: &[u8] = &buffer;
    IntVector::load(&mut reader).unwrap()
}

//-----------------------------------------------------------------------------
// String arrays.

#[test]
fn string_array_example() {
    let source = vec!["first", "second", "third", "fourth"];
    let array = StringArray::from_strs(source.as_slice());
    assert_eq!(array.len(), source.len());
    assert!(!array.is_empty());
    for i in 0..array.len() {
        assert_eq!(array.str(i).unwrap(), source[i]);
        assert_eq!(array.string(i).unwrap(), source[i].to_string());
        assert_eq!(array.bytes(i), source[i].as_bytes());
        assert_eq!(array.str_len(i), source[i].len());
    }
}

#[test]
fn string_array_ranges() {
    let source = vec!["first", "second", "", "third", "fourth"];
    let array = StringArray::from_strs(source.as_slice());
    assert_eq!(array.range_len(0..5), 22);
    assert_eq!(array.range_len(1..4), 11);
    assert_eq!(array.range_len(2..2), 0);
    assert_eq!(array.range_len(2..3), 0);
    assert_eq!(array.range(1..4), b"secondthird");
    assert_eq!(array.range(0..0), b"");
    assert_eq!(array.range(4..5), b"fourth");
    assert_eq!(array.starts(), vec![0, 5, 11, 11, 16]);
}

#[test]
fn string_array_empty() {
    let source: Vec<&str> = Vec::new();
    let array = StringArray::from_strs(source.as_slice());
    assert_eq!(array.len(), 0);
    assert!(array.is_empty());
    assert!(array.iter().next().is_none());
    assert!(array.starts().is_empty());
}

#[test]
fn string_array_iter_example() {
    let source = vec!["first", "second", "third"];
    let array = StringArray::from_strs(source.as_slice());
    let mut iter = array.iter();
    assert_eq!(iter.len(), 3);
    let mut index = 0;
    while let Some(bytes) = iter.next() {
        assert_eq!(bytes, source[index].as_bytes());
        index += 1;
    }
    assert_eq!(index, 3);
    assert_eq!(iter.len(), 0);
    assert!(iter.next_back().is_none());
}

#[test]
fn string_array_iter_both_ends() {
    let source = vec!["first", "second", "third", "fourth"];
    let array = StringArray::from_strs(source.as_slice());
    let mut iter = array.iter();
    assert_eq!(iter.next_back(), Some("fourth".as_bytes()));
    assert_eq!(iter.next(), Some("first".as_bytes()));
    assert_eq!(iter.len(), 2);
    let mut copy = iter.clone();
    assert_eq!(iter.next_back(), Some("third".as_bytes()));
    assert_eq!(iter.next_back(), Some("second".as_bytes()));
    assert_eq!(iter.next_back(), None);
    assert_eq!(iter.next(), None);
    assert_eq!(copy.next(), Some("second".as_bytes()));
    assert_eq!(copy.next(), Some("third".as_bytes()));
    assert_eq!(copy.next(), None);
}

#[test]
fn string_array_pack_round_trip() {
    let source = vec!["GATTACA", "", "CAT", "TAG", "AAAA"];
    let array = StringArray::from_strs(source.as_slice());
    let (alphabet, packed) = array.pack();
    assert_eq!(alphabet, b"ACGT".to_vec());
    assert_eq!(packed.width(), 2);
    assert_eq!(packed.len(), 17);
    // G is the third character of the alphabet.
    assert_eq!(packed.get(0), 2);
    assert_eq!(packed.get(1), 0);
    let copy = StringArray::from_packed(&array.starts(), &alphabet, &packed).unwrap();
    assert_eq!(copy, array);
    assert_eq!(copy.clone(), array);
}

#[test]
fn string_array_pack_width() {
    let array = StringArray::from_strs(&["aaa"]);
    let (alphabet, packed) = array.pack();
    assert_eq!(alphabet, vec![b'a']);
    assert_eq!(packed.width(), 1);

    let array = StringArray::from_strs(&[]);
    let (alphabet, packed) = array.pack();
    assert!(alphabet.is_empty());
    assert_eq!(packed.width(), 1);
    assert_eq!(packed.len(), 0);
    let copy = StringArray::from_packed(&array.starts(), &alphabet, &packed).unwrap();
    assert_eq!(copy, array);

    let array = StringArray::from_strs(&["abcde"]);
    let (alphabet, packed) = array.pack();
    assert_eq!(alphabet.len(), 5);
    assert_eq!(packed.width(), 3);
}

#[test]
fn string_array_from_packed_errors() {
    let alphabet = b"ACGT".to_vec();
    let mut packed = IntVector::new(2).unwrap();
    for value in [0u64, 1, 2, 3, 3, 2] {
        packed.push(value);
    }
    assert!(StringArray::from_packed(&[0, 2, 4], &alphabet, &packed).is_ok());
    assert_eq!(StringArray::from_packed(&[0, 2, 4], &alphabet[0..3], &packed).err(), Some(InvalidData::PackedCharacter));
    assert_eq!(StringArray::from_packed(&[1, 2, 4], &alphabet, &packed).err(), Some(InvalidData::FirstOffset));
    assert_eq!(StringArray::from_packed(&[], &alphabet, &packed).err(), Some(InvalidData::FirstOffset));
    assert_eq!(StringArray::from_packed(&[0, 4, 2], &alphabet, &packed).err(), Some(InvalidData::UnsortedIndex));
    assert_eq!(StringArray::from_packed(&[0, 2, 7], &alphabet, &packed).err(), Some(InvalidData::UnsortedIndex));
    // Both are wrong: the order comes first.
    assert_eq!(StringArray::from_packed(&[3, 2], &alphabet, &packed).err(), Some(InvalidData::UnsortedIndex));
    let array = StringArray::from_packed(&[0, 2, 4], &alphabet, &packed).unwrap();
    assert_eq!(array.str(0).unwrap(), "AC");
    assert_eq!(array.str(1).unwrap(), "GT");
    assert_eq!(array.str(2).unwrap(), "TG");
}

#[test]
fn string_array_from_loaded_vectors() {
    let alphabet = b"ACGT".to_vec();
    // Six characters of 2 bits: 0 1 2 3 3 2.
    let packed = loaded_vector(6, 2, 12, &[0b10_11_11_10_01_00]);
    let array = StringArray::from_packed(&[0, 2, 4], &alphabet, &packed).unwrap();
    assert_eq!(array.str(0).unwrap(), "AC");
    assert_eq!(array.str(1).unwrap(), "GT");
    assert_eq!(array.str(2).unwrap(), "TG");
    // Characters of 65 bits and of no bits: such vectors cannot be read.
    let packed = loaded_vector(1, 65, 65, &[0, 0]);
    assert_eq!(StringArray::from_packed(&[0], &alphabet, &packed).err(), Some(InvalidData::InvalidVector));
    let packed = loaded_vector(4, 0, 0, &[]);
    assert_eq!(StringArray::from_packed(&[0], &alphabet, &packed).err(), Some(InvalidData::InvalidVector));
    // This comes before the other faults.
    let packed = loaded_vector(1, 65, 65, &[0, 0]);
    assert_eq!(StringArray::from_packed(&[3, 2], &[], &packed).err(), Some(InvalidData::InvalidVector));
}

#[test]
fn dictionary_from_loaded_vectors() {
    let source = vec!["first", "second", "third", "fourth"];
    let array = StringArray::from_strs(source.as_slice());
    // Four identifiers of 2 bits: 0 3 1 2.
    let sorted = loaded_vector(4, 2, 8, &[0b10_01_11_00]);
    let dict = Dictionary::from_parts(array.clone(), sorted).unwrap();
    assert_eq!(dict.id(b"third"), Some(2));
    assert_eq!(dict, Dictionary::from_strs(source.as_slice()).unwrap());
    // Identifiers of 65 bits and of no bits: such vectors cannot be read.
    let sorted = loaded_vector(4, 65, 260, &[0, 0, 0, 0, 0]);
    assert_eq!(Dictionary::from_parts(array.clone(), sorted).err(), Some(InvalidData::InvalidVector));
    let sorted = loaded_vector(4, 0, 0, &[]);
    assert_eq!(Dictionary::from_parts(array.clone(), sorted).err(), Some(InvalidData::InvalidVector));
    // This comes before the faults of the identifiers.
    let sorted = loaded_vector(3, 65, 195, &[0, 0, 0, 0]);
    assert_eq!(Dictionary::from_parts(array.clone(), sorted).err(), Some(InvalidData::InvalidVector));
}

#[test]
fn string_array_invalid_utf8() {
    let alphabet: Vec<u8> = vec![b'a', 0xFF];
    let mut packed = IntVector::new(1).unwrap();
    for value in [0u64, 1, 0] {
        packed.push(value);
    }
    let array = StringArray::from_packed(&[0, 1], &alphabet, &packed).unwrap();
    assert_eq!(array.str(0).unwrap(), "a");
    assert!(array.str(1).is_err());
    assert!(array.string(1).is_err());
    assert_eq!(array.bytes(1), &[0xFF, b'a']);
}

//-----------------------------------------------------------------------------
// Dictionaries.

#[test]
fn dictionary_example() {
    let source = vec!["first", "second", "third", "fourth"];
    let dict = Dictionary::from_strs(source.as_slice()).unwrap();
    assert_eq!(dict.len(), 4);
    assert!(!dict.is_empty());
    for (index, value) in source.iter().enumerate() {
        assert_eq!(dict.id(value.as_bytes()), Some(index));
        assert_eq!(dict.bytes(index), source[index].as_bytes());
        assert_eq!(dict.str(index).unwrap(), source[index]);
        assert_eq!(dict.string(index).unwrap(), source[index].to_string());
    }
    assert_eq!(dict.id(b"fifth"), None);
    assert_eq!(dict.id(b""), None);
    assert_eq!(dict.id(b"firs"), None);
    assert_eq!(dict.id(b"firsts"), None);
}

#[test]
fn dictionary_sorted_ids() {
    let source = vec!["first", "second", "third", "fourth", "", "fir"];
    let dict = Dictionary::from_strs(source.as_slice()).unwrap();
    // In the order of the strings: "", fir, first, fourth, second, third.
    let ids: Vec<u64> = dict.sorted_ids().iter().collect();
    assert_eq!(ids, vec![4, 5, 0, 3, 1, 2]);
    assert_eq!(dict.sorted_ids().width(), 3);
    assert_eq!(dict.id(b""), Some(4));
    let array: &StringArray = dict.as_ref();
    assert_eq!(array.len(), 6);
    assert_eq!(dict.strings(), array);
}

#[test]
fn dictionary_empty() {
    let source: Vec<&str> = Vec::new();
    let dict = Dictionary::from_strs(source.as_slice()).unwrap();
    assert_eq!(dict.len(), 0);
    assert!(dict.is_empty());
    assert_eq!(dict.id(b"anything"), None);
    assert_eq!(dict.sorted_ids().width(), 1);
}

#[test]
fn dictionary_duplicates() {
    let source = vec!["first", "second", "third", "second"];
    let result = Dictionary::from_strs(source.as_slice());
    assert_eq!(result.err(), Some("Cannot build a dictionary from a source with duplicate strings"));
    let array = StringArray::from_strs(&["a", "b", "a"]);
    assert!(Dictionary::try_from(array).is_err());
    let array = StringArray::from_strs(&["a", "b", "A"]);
    assert!(Dictionary::try_from(array).is_ok());
}

#[test]
fn dictionary_order_is_by_bytes() {
    let source = vec!["b", "a", "B", "ab", "é", "z"];
    let dict = Dictionary::from_strs(source.as_slice()).unwrap();
    let ids: Vec<u64> = dict.sorted_ids().iter().collect();
    // B < a < ab < b < z < é by bytes.
    assert_eq!(ids, vec![2, 1, 3, 0, 5, 4]);
    for (index, value) in source.iter().enumerate() {
        assert_eq!(dict.id(value.as_bytes()), Some(index));
    }
}

#[test]
fn dictionary_from_parts() {
    let source = vec!["first", "second", "third", "fourth"];
    let dict = Dictionary::from_strs(source.as_slice()).unwrap();
    let copy = Dictionary::from_parts(dict.strings().clone(), dict.sorted_ids().clone()).unwrap();
    assert_eq!(copy, dict);
    assert_eq!(copy.clone(), dict);

    let array = StringArray::from_strs(source.as_slice());
    let ids = |values: &[u64]| -> IntVector {
        let mut result = IntVector::new(3).unwrap();
        for value in values {
            result.push(*value);
        }
        result
    };
    assert!(Dictionary::from_parts(array.clone(), ids(&[0, 3, 1, 2])).is_ok());
    // Too few, out of range, not in order, the same twice.
    assert_eq!(Dictionary::from_parts(array.clone(), ids(&[0, 3, 1])).err(), Some(InvalidData::SortedIds));
    assert_eq!(Dictionary::from_parts(array.clone(), ids(&[0, 3, 1, 4])).err(), Some(InvalidData::SortedIds));
    assert_eq!(Dictionary::from_parts(array.clone(), ids(&[0, 1, 2, 3])).err(), Some(InvalidData::SortedIds));
    assert_eq!(Dictionary::from_parts(array.clone(), ids(&[0, 3, 1, 1])).err(), Some(InvalidData::SortedIds));
}

//-----------------------------------------------------------------------------
// Tags.

#[test]
fn tags_example() {
    let mut tags = Tags::new();
    assert!(tags.is_empty());
    tags.insert("first-key", "first-value");
    tags.insert("second-key", "second-value");
    assert_eq!(tags.len(), 2);
    assert!(tags.contains_key("First-Key"));
    assert_eq!(*tags.get("second-key").unwrap(), "second-value");
    assert!(!tags.contains_key("third-key"));
    assert!(tags.get("third-key").is_none());
}

#[test]
fn tags_keys_without_case() {
    let mut tags = Tags::new();
    tags.insert("Source", "first");
    tags.insert("SOURCE", "second");
    assert_eq!(tags.len(), 1);
    assert_eq!(*tags.get("source").unwrap(), "second");
    assert_eq!(*tags.get("sOuRcE").unwrap(), "second");
    let all = tags.iter();
    assert_eq!(all.len(), 1);
    assert_eq!(all[0].0, "source");
    // Values keep their case.
    tags.insert("other", "Value");
    assert_eq!(*tags.get("OTHER").unwrap(), "Value");
}

#[test]
fn tags_iter_in_order() {
    let mut tags = Tags::new();
    for (key, value) in [("delta", "4"), ("Alpha", "1"), ("charlie", "3"), ("BRAVO", "2"), ("echo", "5")] {
        tags.insert(key, value);
    }
    let all: Vec<(String, String)> = tags.iter().into_iter().map(|(key, value)| (key.clone(), value.clone())).collect();
    let truth: Vec<(String, String)> = [("alpha", "1"), ("bravo", "2"), ("charlie", "3"), ("delta", "4"), ("echo", "5")]
        .iter().map(|(key, value)| (key.to_string(), value.to_string())).collect();
    assert_eq!(all, truth);
    tags.insert("bravo", "two");
    assert_eq!(tags.len(), 5);
    assert_eq!(tags.iter()[1].1, "two");
}

#[test]
fn tags_default_and_clone() {
    let mut tags = Tags::default();
    assert_eq!(tags, Tags::new());
    tags.insert("key", "value");
    let copy = tags.clone();
    assert_eq!(copy, tags);
    tags.insert("key", "other");
    assert_ne!(copy, tags);
}

#[test]
fn tags_linearize_round_trip() {
    let mut tags = Tags::new();
    tags.insert("first-key", "first-value");
    tags.insert("Second-Key", "Second-Value");
    tags.insert("empty", "");
    let strings = tags.linearize();
    assert_eq!(strings.len(), 6);
    assert_eq!(strings.str(0).unwrap(), "empty");
    assert_eq!(strings.str(1).unwrap(), "");
    assert_eq!(strings.str(2).unwrap(), "first-key");
    assert_eq!(strings.str(3).unwrap(), "first-value");
    assert_eq!(strings.str(4).unwrap(), "second-key");
    assert_eq!(strings.str(5).unwrap(), "Second-Value");
    let copy = Tags::from_strings(&strings).unwrap();
    assert_eq!(copy, tags);

    let empty = Tags::new();
    let strings = empty.linearize();
    assert!(strings.is_empty());
    assert_eq!(Tags::from_strings(&strings).unwrap(), empty);
}

#[test]
fn tags_from_strings_errors() {
    let strings = StringArray::from_strs(&["key", "value", "other"]);
    assert_eq!(Tags::from_strings(&strings).err(), Some(InvalidData::KeyWithoutValue));
    let strings = StringArray::from_strs(&["key", "value", "KEY", "other"]);
    assert_eq!(Tags::from_strings(&strings).err(), Some(InvalidData::DuplicateKeys));
    let strings = StringArray::from_strs(&["key", "value", "b", "value"]);
    assert!(Tags::from_strings(&strings).is_ok());

    // Three strings over the alphabet (a, 0xFF), of which 0xFF is no UTF-8.
    let alphabet: Vec<u8> = vec![b'a', 0xFF];
    let pack = |values: &[u64]| -> IntVector {
        let mut result = IntVector::new(1).unwrap();
        for value in values {
            result.push(*value);
        }
        result
    };
    let strings = StringArray::from_packed(&[0, 1], &alphabet, &pack(&[1, 0])).unwrap();
    assert_eq!(Tags::from_strings(&strings).err(), Some(InvalidData::InvalidKey));
    let strings = StringArray::from_packed(&[0, 1], &alphabet, &pack(&[0, 1])).unwrap();
    assert_eq!(Tags::from_strings(&strings).err(), Some(InvalidData::InvalidValue));
    // An odd number of strings comes before invalid UTF-8.
    let strings = StringArray::from_packed(&[0, 1, 2], &alphabet, &pack(&[1, 0, 0])).unwrap();
    assert_eq!(Tags::from_strings(&strings).err(), Some(InvalidData::KeyWithoutValue));
    // Invalid UTF-8 comes before duplicate keys.
    let strings = StringArray::from_packed(&[0, 1, 2, 3, 4, 5], &alphabet, &pack(&[0, 0, 0, 0, 0, 1])).unwrap();
    assert_eq!(Tags::from_strings(&strings).err(), Some(InvalidData::InvalidValue));
}

#[test]
fn invalid_data_messages() {
    let all = [
        InvalidData::InvalidVector,
        InvalidData::EmptyIndex, InvalidData::UnsortedIndex, InvalidData::IndexMismatch,
        InvalidData::FirstOffset, InvalidData::PackedCharacter, InvalidData::SortedIds,
        InvalidData::KeyWithoutValue, InvalidData::InvalidKey, InvalidData::InvalidValue,
        InvalidData::DuplicateKeys,
    ];
    for (i, error) in all.iter().enumerate() {
        assert!(!error.message().is_empty());
        for other in all[i + 1..].iter() {
            assert_ne!(error.message(), other.message());
        }
    }
    assert_eq!(InvalidData::InvalidVector.message(), "Invalid bit-packed vector");
    assert_eq!(InvalidData::KeyWithoutValue.message(), "Key without a value");
    assert_eq!(InvalidData::DuplicateKeys.message(), "Duplicate keys");
    assert_eq!(InvalidData::FirstOffset.message(), "First string does not start at offset 0");
}
