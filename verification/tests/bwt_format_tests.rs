use gbwt::ENDMARKER;
use gbwt::bwt::{BWT, BWTBuilder, Pos, Record};
use gbwt::support::{ByteCode, InvalidData, RLE, Run};

use simple_sds::int_vector::IntVector;
use simple_sds::ops::{Access, Push, Vector};
use simple_sds::serialize::Serialize;

//-----------------------------------------------------------------------------

fn int_vector(values: &[u64]) -> IntVector {
    let mut result = IntVector::new(64).unwrap();
    for value in values {
        result.push(*value);
    }
    result
}

// A vector as it is loaded from a file that gives the number of items, the width of an
// item, the number of bits and the words that hold them.
fn loaded_vector(len: u64, width: u64, bits: u64, words: &[u64]) -> IntVector {
    let mut buffer: Vec<u8> = Vec::new();
    for value in [len, width, bits, words.len() as u64] {
        buffer.extend_from_slice(&value.to_ne_bytes());
    }
    for word in words {
        buffer.extend_from_slice(&word.to_ne_bytes());
    }
    let mut reader: &[u8] = &buffer;
    IntVector::load(&mut reader).unwrap()
}

// A container with the given records.
fn container(records: &[Vec<u8>]) -> BWT {
    let mut index: Vec<u64> = vec![0];
    let mut data: Vec<u8> = Vec::new();
    for record in records {
        data.extend_from_slice(record);
        index.push(data.len() as u64);
    }
    BWT::from_parts(int_vector(&index), data).unwrap()
}

// The bytes of a record with the given number of edges, successors `first`, `first + 1`, ... with offset 0.
fn edge_list(edges: usize, first: usize) -> ByteCode {
    let mut encoder = ByteCode::new();
    encoder.write(edges);
    encoder.write(first);
    for _ in 1..edges {
        encoder.write(1);
    }
    for _ in 0..edges {
        encoder.write(0);
    }
    encoder
}

//-----------------------------------------------------------------------------

#[test]
fn pos_order() {
    // By node first and by offset second.
    assert!(Pos::new(1, 5) < Pos::new(2, 0));
    assert!(Pos::new(2, 0) < Pos::new(2, 1));
    assert!(Pos::new(3, 0) > Pos::new(2, 100));
    assert_eq!(Pos::new(2, 1), Pos::new(2, 1));
    assert_eq!(Pos::default(), Pos::new(0, 0));
    let mut positions = vec![Pos::new(2, 1), Pos::new(1, 7), Pos::new(2, 0), Pos::new(0, 9)];
    positions.sort();
    assert_eq!(positions, vec![Pos::new(0, 9), Pos::new(1, 7), Pos::new(2, 0), Pos::new(2, 1)]);
}

#[test]
fn record_clone() {
    let bytes: Vec<u8> = vec![2, 2, 1, 0, 5, 2, 1];
    let record = Record::new(42, &bytes).unwrap();
    let copy = record.clone();
    assert_eq!(copy, record);
    assert_eq!(copy.decompress(), record.decompress());
    assert_ne!(Record::new(43, &bytes).unwrap(), record);
}

#[test]
fn record_bytes() {
    let mut builder = BWTBuilder::new();
    builder.append(&[Pos::new(2, 0), Pos::new(3, 5)], &[Run::new(0, 2), Run::new(1, 1)]);
    let bwt = BWT::from(builder);
    // Two edges; successor 2 and the gap to 3; offsets 0 and 5; two runs of one byte each.
    assert_eq!(bwt.data(), &vec![2, 2, 1, 0, 5, 0 + 2 * 1, 1 + 2 * 0]);
    let index: Vec<u64> = bwt.index().iter().collect();
    assert_eq!(index, vec![0, 7]);
    let (edge_bytes, bwt_bytes) = bwt.compressed_record(0).unwrap();
    assert_eq!(edge_bytes, &[2, 2, 1, 0, 5]);
    assert_eq!(bwt_bytes, &[2, 1]);
}

#[test]
fn index_width() {
    let mut builder = BWTBuilder::new();
    let runs: Vec<Run> = vec![Run::new(0, 1); 300];
    builder.append(&[Pos::new(1, 0), Pos::new(2, 0)], &runs);
    builder.append(&[], &[]);
    builder.append(&[Pos::new(3, 0)], &[Run::new(0, 1)]);
    let bwt = BWT::from(builder);
    assert_eq!(bwt.data().len(), 309);
    // The offsets are as wide as the number of bytes is long.
    assert_eq!(bwt.index().width(), 9);
    let index: Vec<u64> = bwt.index().iter().collect();
    assert_eq!(index, vec![0, 305, 305, 309]);
    assert_eq!(bwt.len(), 3);
    assert!(bwt.record(1).is_none());
    assert_eq!(bwt.record(2).unwrap().lf(0), Some(Pos::new(3, 0)));
}

#[test]
fn builder_skips_empty_runs() {
    let mut builder = BWTBuilder::new();
    builder.append(&[Pos::new(4, 7)], &[Run::new(0, 0), Run::new(0, 2), Run::new(9, 0), Run::new(0, 1)]);
    let bwt = BWT::from(builder);
    let record = bwt.record(0).unwrap();
    assert_eq!(record.len(), 3);
    assert_eq!(record.decompress(), vec![Pos::new(4, 7), Pos::new(4, 8), Pos::new(4, 9)]);
    assert_eq!(record.bwt(), &[1, 0]);
}

#[test]
fn builder_ignores_runs_without_edges() {
    let mut builder = BWTBuilder::new();
    builder.append(&[], &[Run::new(0, 2)]);
    assert_eq!(builder.len(), 1);
    assert!(!builder.is_empty());
    let bwt = BWT::from(builder);
    assert_eq!(bwt.len(), 1);
    assert!(bwt.data().is_empty());
    assert!(bwt.record(0).is_none());
    assert!(bwt.compressed_record(0).is_none());
    assert!(bwt.iter().next().is_none());
    assert!(bwt.id_iter().next().is_none());
}

#[test]
fn record_without_positions() {
    let mut builder = BWTBuilder::new();
    builder.append(&[Pos::new(4, 7)], &[]);
    let bwt = BWT::from(builder);
    let record = bwt.record(0).unwrap();
    assert_eq!(record.len(), 0);
    assert!(record.is_empty());
    assert_eq!(record.outdegree(), 1);
    assert_eq!(record.lf(0), None);
    assert!(record.decompress().is_empty());
    assert_eq!(record.follow(0..1, 4), None);
    assert_eq!(record.offset_to(Pos::new(4, 7)), None);
    assert_eq!(record.predecessor_at(7), None);
}

#[test]
fn from_parts_errors() {
    let data: Vec<u8> = vec![1, 5, 0, 2];
    assert!(BWT::from_parts(int_vector(&[0, 4]), data.clone()).is_ok());
    assert!(BWT::from_parts(int_vector(&[0, 0, 4, 4]), data.clone()).is_ok());
    assert_eq!(BWT::from_parts(int_vector(&[]), data.clone()).err(), Some(InvalidData::EmptyIndex));
    assert_eq!(BWT::from_parts(int_vector(&[]), Vec::new()).err(), Some(InvalidData::EmptyIndex));
    assert_eq!(BWT::from_parts(int_vector(&[0, 3, 2, 4]), data.clone()).err(), Some(InvalidData::UnsortedIndex));
    assert_eq!(BWT::from_parts(int_vector(&[0, 3]), data.clone()).err(), Some(InvalidData::IndexMismatch));
    assert_eq!(BWT::from_parts(int_vector(&[0, 5]), data.clone()).err(), Some(InvalidData::IndexMismatch));
    assert_eq!(BWT::from_parts(int_vector(&[1, 4]), data.clone()).err(), Some(InvalidData::FirstOffset));
    assert_eq!(BWT::from_parts(int_vector(&[4]), data.clone()).err(), Some(InvalidData::FirstOffset));
    // The first fault in the order of the checks.
    assert_eq!(BWT::from_parts(int_vector(&[2, 1]), data.clone()).err(), Some(InvalidData::UnsortedIndex));
    assert_eq!(BWT::from_parts(int_vector(&[1, 2]), data.clone()).err(), Some(InvalidData::IndexMismatch));
    let empty = BWT::from_parts(int_vector(&[0]), Vec::new()).unwrap();
    assert!(empty.is_empty());
    assert_eq!(empty.len(), 0);
}

#[test]
fn from_parts_of_loaded_vectors() {
    let data: Vec<u8> = vec![1, 5, 0, 2];
    // Two offsets of 8 bits in one word.
    let index = loaded_vector(2, 8, 16, &[0x0400]);
    assert_eq!(index.len(), 2);
    assert_eq!(index.get(1), 4);
    let bwt = BWT::from_parts(index, data.clone()).unwrap();
    assert_eq!(bwt.record(0).unwrap().lf(2), Some(Pos::new(5, 2)));

    // One item of 65 bits, and items without bits: such vectors cannot be read.
    let index = loaded_vector(1, 65, 65, &[0, 0]);
    assert_eq!(index.len(), 1);
    assert_eq!(index.width(), 65);
    assert_eq!(BWT::from_parts(index, Vec::new()).err(), Some(InvalidData::InvalidVector));
    let index = loaded_vector(2, 0, 0, &[]);
    assert_eq!(index.len(), 2);
    assert_eq!(BWT::from_parts(index, Vec::new()).err(), Some(InvalidData::InvalidVector));
    let index = loaded_vector(1, 128, 128, &[0, 4]);
    assert_eq!(BWT::from_parts(index, data.clone()).err(), Some(InvalidData::InvalidVector));
    // This comes before the faults of the offsets.
    let index = loaded_vector(0, 65, 0, &[]);
    assert_eq!(BWT::from_parts(index, data.clone()).err(), Some(InvalidData::InvalidVector));
    let index = loaded_vector(0, 64, 0, &[]);
    assert_eq!(BWT::from_parts(index, data.clone()).err(), Some(InvalidData::EmptyIndex));
}

#[test]
fn from_parts_keeps_parts() {
    let data: Vec<u8> = vec![1, 5, 0, 2];
    let bwt = BWT::from_parts(int_vector(&[0, 0, 4]), data.clone()).unwrap();
    assert_eq!(bwt.data(), &data);
    assert_eq!(bwt.index().get(2), 4);
    assert_eq!(bwt.len(), 2);
    assert_eq!(bwt.clone(), bwt);
    let record = bwt.record(1).unwrap();
    assert_eq!(record.id(), 1);
    assert_eq!(record.len(), 3);
    assert_eq!(record.lf(2), Some(Pos::new(5, 2)));
}

//-----------------------------------------------------------------------------

#[test]
fn decompress_edges_of_bytes() {
    assert_eq!(Record::decompress_edges(&[2, 2, 1, 0, 5, 2, 1]), Some((vec![Pos::new(2, 0), Pos::new(3, 5)], 5)));
    assert_eq!(Record::decompress_edges(&[1, 0, 0]), Some((vec![Pos::new(ENDMARKER, 0)], 3)));
    assert_eq!(Record::decompress_edges(&[3, 0, 1, 0x80, 0x01, 9, 8, 7]), Some((vec![Pos::new(0, 9), Pos::new(1, 8), Pos::new(129, 7)], 8)));
    // No bytes, no edges, too few successors, too few offsets.
    assert_eq!(Record::decompress_edges(&[]), None);
    assert_eq!(Record::decompress_edges(&[0]), None);
    assert_eq!(Record::decompress_edges(&[0, 1, 2]), None);
    assert_eq!(Record::decompress_edges(&[2, 2]), None);
    assert_eq!(Record::decompress_edges(&[2, 2, 1, 0]), None);
    assert_eq!(Record::decompress_edges(&[2, 2, 1, 0, 0x80]), None);
    // The same successor twice.
    assert_eq!(Record::decompress_edges(&[2, 2, 0, 0, 5]), None);
    // More edges than bytes.
    assert_eq!(Record::decompress_edges(&[0xFF, 0xFF, 0xFF, 0x7F, 1, 1, 1]), None);
}

#[test]
fn decompress_edges_too_large() {
    // The second successor does not fit in `usize`.
    let mut encoder = ByteCode::new();
    encoder.write(2);
    encoder.write(usize::MAX);
    encoder.write(1);
    encoder.write(0);
    encoder.write(0);
    let bytes: Vec<u8> = Vec::from(encoder);
    assert_eq!(Record::decompress_edges(&bytes), None);

    let mut encoder = ByteCode::new();
    encoder.write(2);
    encoder.write(usize::MAX - 1);
    encoder.write(1);
    encoder.write(0);
    encoder.write(usize::MAX);
    let bytes: Vec<u8> = Vec::from(encoder);
    assert_eq!(
        Record::decompress_edges(&bytes),
        Some((vec![Pos::new(usize::MAX - 1, 0), Pos::new(usize::MAX, usize::MAX)], bytes.len()))
    );
}

#[test]
fn record_new_of_bytes() {
    let record = Record::new(42, &[2, 2, 1, 0, 5, 2, 1]).unwrap();
    assert_eq!(record.id(), 42);
    assert_eq!(record.outdegree(), 2);
    assert_eq!(record.successor(0), 2);
    assert_eq!(record.successor(1), 3);
    assert_eq!(record.offset(0), 0);
    assert_eq!(record.offset(1), 5);
    assert_eq!(record.len(), 3);
    assert_eq!(record.bwt(), &[2, 1]);
    assert_eq!(record.decompress(), vec![Pos::new(2, 0), Pos::new(2, 1), Pos::new(3, 5)]);
    assert!(Record::new(42, &[]).is_none());
    assert!(Record::new(42, &[0]).is_none());
    assert!(Record::new(42, &[2, 2, 1, 0]).is_none());
}

#[test]
fn record_with_truncated_runs() {
    // The last run lacks the rest of its length: the runs end before it.
    let bwt = container(&[vec![2, 2, 1, 0, 5, 2, 1, 254]]);
    let record = bwt.record(0).unwrap();
    assert_eq!(record.len(), 3);
    assert_eq!(record.lf(2), Some(Pos::new(3, 5)));
    assert_eq!(record.lf(3), None);
}

#[test]
fn record_with_invalid_rank() {
    // With 255 edges the ranks are written as integers: a rank that no edge has is no record.
    let edges = edge_list(255, 1);
    let mut valid = RLE::with_sigma(255);
    valid.write(Run::new(254, 2));
    let mut bytes: Vec<u8> = Vec::from(edges.clone());
    bytes.extend_from_slice(valid.as_ref());
    let bwt = container(&[bytes]);
    let record = bwt.record(0).unwrap();
    assert_eq!(record.outdegree(), 255);
    assert_eq!(record.lf(1), Some(Pos::new(255, 1)));

    let mut invalid = ByteCode::new();
    invalid.write(255);
    invalid.write(1);
    let mut bytes: Vec<u8> = Vec::from(edges);
    bytes.extend_from_slice(invalid.as_ref());
    let bwt = container(&[bytes]);
    assert!(bwt.record(0).is_none());
    assert!(bwt.compressed_record(0).is_some());
    assert!(bwt.iter().next().is_none());
    assert!(bwt.id_iter().next().is_none());
}

#[test]
fn record_with_positions_past_usize() {
    // The last position that the edge leads to must fit in `usize`.
    let mut encoder = ByteCode::new();
    encoder.write(1);
    encoder.write(5);
    encoder.write(usize::MAX - 1);
    let edges: Vec<u8> = Vec::from(encoder);

    let mut bytes = edges.clone();
    bytes.push(0);
    let bwt = container(&[bytes]);
    let record = bwt.record(0).unwrap();
    assert_eq!(record.lf(0), Some(Pos::new(5, usize::MAX - 1)));
    assert_eq!(record.follow(0..1, 5), Some(usize::MAX - 1..usize::MAX));
    assert_eq!(record.offset_to(Pos::new(5, usize::MAX - 1)), Some(0));
    assert_eq!(record.predecessor_at(usize::MAX - 1), Some(Pos::new(0, 0)));

    let mut bytes = edges.clone();
    bytes.push(1);
    let bwt = container(&[bytes]);
    assert!(bwt.record(0).is_none());
}

#[test]
fn record_with_length_past_usize() {
    // Two runs of the largest length.
    let mut encoder = RLE::with_sigma(1);
    encoder.write(Run::new(0, usize::MAX));
    encoder.write(Run::new(0, usize::MAX));
    let mut bytes: Vec<u8> = vec![1, 5, 0];
    bytes.extend_from_slice(encoder.as_ref());
    let bwt = container(&[bytes]);
    assert!(bwt.record(0).is_none());

    let mut encoder = RLE::with_sigma(1);
    encoder.write(Run::new(0, usize::MAX));
    let mut bytes: Vec<u8> = vec![1, 5, 0];
    bytes.extend_from_slice(encoder.as_ref());
    let bwt = container(&[bytes]);
    let record = bwt.record(0).unwrap();
    assert_eq!(record.len(), usize::MAX);
    assert_eq!(record.lf(usize::MAX - 1), Some(Pos::new(5, usize::MAX - 1)));
    assert_eq!(record.lf(usize::MAX), None);
    assert_eq!(record.offset_to(Pos::new(5, 12345)), Some(12345));
    assert_eq!(record.follow(10..usize::MAX, 5), Some(10..usize::MAX));
}

//-----------------------------------------------------------------------------

fn example() -> BWT {
    let mut builder = BWTBuilder::new();
    // Ranks 1 0 0 2 2 1 0 with successors 0, 4 and 9.
    builder.append(
        &[Pos::new(ENDMARKER, 3), Pos::new(4, 10), Pos::new(9, 20)],
        &[Run::new(1, 1), Run::new(0, 2), Run::new(2, 2), Run::new(1, 1), Run::new(0, 1)],
    );
    BWT::from(builder)
}

#[test]
fn lf_and_decompress() {
    let bwt = example();
    let record = bwt.record(0).unwrap();
    assert_eq!(record.len(), 7);
    let truth = vec![
        Pos::new(4, 10), Pos::new(0, 3), Pos::new(0, 4), Pos::new(9, 20), Pos::new(9, 21), Pos::new(4, 11), Pos::new(0, 5),
    ];
    assert_eq!(record.decompress(), truth);
    for (i, pos) in truth.iter().enumerate() {
        let expected = if pos.node == ENDMARKER { None } else { Some(*pos) };
        assert_eq!(record.lf(i), expected);
    }
    assert_eq!(record.lf(7), None);
    assert_eq!(record.lf(usize::MAX), None);
}

#[test]
fn follow_ranges() {
    let bwt = example();
    let record = bwt.record(0).unwrap();
    assert_eq!(record.follow(0..7, 4), Some(10..12));
    assert_eq!(record.follow(0..7, 9), Some(20..22));
    assert_eq!(record.follow(1..5, 4), None);
    assert_eq!(record.follow(1..6, 4), Some(11..12));
    assert_eq!(record.follow(4..5, 9), Some(21..22));
    assert_eq!(record.follow(0..7, ENDMARKER), None);
    assert_eq!(record.follow(0..7, 5), None);
    // An empty range and a range that starts after its end.
    assert_eq!(record.follow(3..3, 9), None);
    assert_eq!(record.follow(5..3, 9), None);
    // The part of the range past the end of the record is ignored.
    assert_eq!(record.follow(0..100, 4), Some(10..12));
    assert_eq!(record.follow(4..usize::MAX, 4), Some(11..12));
    assert_eq!(record.follow(7..100, 4), None);
    assert_eq!(record.follow(50..100, 4), None);
}

#[test]
fn bd_follow_counts() {
    let bwt = example();
    let record = bwt.record(0).unwrap();
    // Ranks 1 0 0 2 2 1 0: the positions with a lower rank than the edge that is followed.
    assert_eq!(record.bd_follow(0..7, 4), Some((10..12, 3)));
    assert_eq!(record.bd_follow(0..7, 9), Some((20..22, 5)));
    assert_eq!(record.bd_follow(3..5, 9), Some((20..22, 0)));
    assert_eq!(record.bd_follow(1..6, 4), Some((11..12, 2)));
    assert_eq!(record.bd_follow(0..1, 4), Some((10..11, 0)));
    assert_eq!(record.bd_follow(2..100, 9), Some((20..22, 3)));
    assert_eq!(record.bd_follow(1..5, 4), None);
    assert_eq!(record.bd_follow(0..7, ENDMARKER), None);
    assert_eq!(record.bd_follow(0..7, 5), None);
    assert_eq!(record.bd_follow(3..3, 9), None);
}

#[test]
fn offset_to_inverts_lf() {
    let bwt = example();
    let record = bwt.record(0).unwrap();
    for i in 0..record.len() {
        if let Some(pos) = record.lf(i) {
            assert_eq!(record.offset_to(pos), Some(i));
        }
    }
    assert_eq!(record.offset_to(Pos::new(4, 9)), None);
    assert_eq!(record.offset_to(Pos::new(4, 12)), None);
    assert_eq!(record.offset_to(Pos::new(9, 19)), None);
    assert_eq!(record.offset_to(Pos::new(9, 22)), None);
    assert_eq!(record.offset_to(Pos::new(ENDMARKER, 3)), None);
    assert_eq!(record.offset_to(Pos::new(5, 10)), None);
    assert_eq!(record.offset_to(Pos::new(4, usize::MAX)), None);
}

#[test]
fn predecessor_at_offsets() {
    let bwt = example();
    let record = bwt.record(0).unwrap();
    // The positions that are mapped to offsets 10 and 11 of node 4, and 20 and 21 of node 9.
    assert_eq!(record.predecessor_at(10), Some(Pos::new(0, 0)));
    assert_eq!(record.predecessor_at(11), Some(Pos::new(0, 5)));
    assert_eq!(record.predecessor_at(20), Some(Pos::new(0, 3)));
    assert_eq!(record.predecessor_at(21), Some(Pos::new(0, 4)));
    // The endmarker is left out.
    assert_eq!(record.predecessor_at(3), None);
    assert_eq!(record.predecessor_at(4), None);
    assert_eq!(record.predecessor_at(5), None);
    assert_eq!(record.predecessor_at(9), None);
    assert_eq!(record.predecessor_at(12), None);
    assert_eq!(record.predecessor_at(19), None);
    assert_eq!(record.predecessor_at(22), None);
    assert_eq!(record.predecessor_at(usize::MAX), None);
}

#[test]
fn predecessor_at_lowest_rank() {
    let mut builder = BWTBuilder::new();
    builder.append(&[], &[]);
    // Both edges have paths that arrive at offsets 5 and 6: the edge of the lower rank is taken.
    builder.append(
        &[Pos::new(2, 5), Pos::new(3, 4)],
        &[Run::new(1, 3), Run::new(0, 2)],
    );
    let bwt = BWT::from(builder);
    let record = bwt.record(1).unwrap();
    assert_eq!(record.predecessor_at(4), Some(Pos::new(1, 0)));
    assert_eq!(record.predecessor_at(5), Some(Pos::new(1, 3)));
    assert_eq!(record.predecessor_at(6), Some(Pos::new(1, 4)));
    assert_eq!(record.predecessor_at(7), None);
    assert_eq!(record.lf(3), Some(Pos::new(2, 5)));
    assert_eq!(record.lf(1), Some(Pos::new(3, 5)));
}

#[test]
fn iterators_agree() {
    let mut builder = BWTBuilder::new();
    builder.append(&[], &[]);
    builder.append(&[Pos::new(2, 0)], &[Run::new(0, 1)]);
    builder.append(&[], &[]);
    builder.append(&[], &[]);
    builder.append(&[Pos::new(5, 0)], &[Run::new(0, 2)]);
    builder.append(&[], &[]);
    let bwt = BWT::from(builder);
    assert_eq!(bwt.len(), 6);

    let mut ids: Vec<usize> = Vec::new();
    let mut iter = bwt.id_iter();
    while let Some(id) = iter.next() {
        ids.push(id);
    }
    assert_eq!(ids, vec![1, 4]);

    let mut records: Vec<usize> = Vec::new();
    let mut iter = bwt.iter();
    while let Some(record) = iter.next() {
        assert_eq!(record.len(), bwt.record(record.id()).unwrap().len());
        records.push(record.id());
    }
    assert_eq!(records, ids);
    assert!(iter.next().is_none());
}
