use gbwt::support::{ByteCode, ByteCodeIter, RLE, RLEIter, Run};

//-----------------------------------------------------------------------------
// Variable-length integers.

fn encode_int(value: usize) -> Vec<u8> {
    let mut encoder = ByteCode::new();
    encoder.write(value);
    Vec::<u8>::from(encoder)
}

#[test]
fn byte_code_edges() {
    assert_eq!(encode_int(0), vec![0x00]);
    assert_eq!(encode_int(127), vec![0x7F]);
    assert_eq!(encode_int(128), vec![0x80, 0x01]);
    assert_eq!(encode_int(16384), vec![0x80, 0x80, 0x01]);
}

#[test]
fn byte_code_example() {
    let mut encoder = ByteCode::new();
    assert!(encoder.is_empty());
    encoder.write(123); encoder.write(456); encoder.write(789);
    assert_eq!(encoder.len(), 5);
    assert!(!encoder.is_empty());
    let bytes: &[u8] = encoder.as_ref();
    assert_eq!(*bytes, [123, 72 + 128, 3, 21 + 128, 6]);
}

#[test]
fn byte_code_iter_example() {
    let mut source = ByteCode::new();
    source.write(123); source.write(456); source.write(789);

    let mut iter = ByteCodeIter::new(source.as_ref());
    assert_eq!(iter.offset(), 0);
    assert_eq!(iter.next(), Some(123));
    assert_eq!(iter.offset(), 1);
    assert_eq!(iter.next(), Some(456));
    assert_eq!(iter.offset(), 3);
    assert_eq!(iter.next(), Some(789));
    assert_eq!(iter.offset(), 5);
    assert_eq!(iter.next(), None);
    assert_eq!(iter.next(), None);
}

#[test]
fn byte_code_round_trip() {
    let values: Vec<usize> = vec![
        0, 1, 127, 128, 129, 255, 256, 16383, 16384, 16385, 1 << 21, (1 << 28) - 1, 1 << 28,
        u32::MAX as usize, usize::MAX - 1, usize::MAX,
    ];
    let mut encoder = ByteCode::new();
    for value in values.iter() {
        encoder.write(*value);
    }
    let mut again = ByteCode::new();
    for value in values.iter() {
        again.write(*value);
    }
    assert_eq!(encoder, again, "The encoding of the same values differs");

    let mut iter = ByteCodeIter::new(encoder.as_ref());
    for value in values.iter() {
        assert_eq!(iter.next(), Some(*value));
    }
    assert_eq!(iter.next(), None);
    assert_eq!(iter.offset(), encoder.len());
}

#[test]
fn byte_code_raw_bytes() {
    let mut encoder = ByteCode::new();
    encoder.write_byte(0xFF);
    encoder.write(300);
    encoder.write_byte(0x80);
    let bytes: Vec<u8> = Vec::from(encoder);
    assert_eq!(bytes, vec![0xFF, 0xAC, 0x02, 0x80]);

    let mut iter = ByteCodeIter::new(&bytes);
    assert_eq!(iter.byte(), Some(0xFF));
    assert_eq!(iter.next(), Some(300));
    assert_eq!(iter.byte(), Some(0x80));
    assert_eq!(iter.byte(), None);
    assert_eq!(iter.offset(), 4);
}

#[test]
fn byte_code_iter_truncated() {
    // The integer goes on past the end of the bytes: nothing is returned.
    let bytes: Vec<u8> = vec![0x05, 0x80, 0x80];
    let mut iter = ByteCodeIter::new(&bytes);
    assert_eq!(iter.next(), Some(5));
    assert_eq!(iter.next(), None);
    assert_eq!(iter.offset(), 3);
    assert_eq!(iter.next(), None);
    assert_eq!(iter.byte(), None);
}

#[test]
fn byte_code_iter_padded() {
    // Groups of zeros above the value do not change it.
    let bytes: Vec<u8> = vec![0x85, 0x80, 0x80, 0x00, 0x07];
    let mut iter = ByteCodeIter::new(&bytes);
    assert_eq!(iter.next(), Some(5));
    assert_eq!(iter.next(), Some(7));
    assert_eq!(iter.next(), None);
}

#[test]
fn byte_code_iter_too_large() {
    // Eleven groups of seven ones do not fit in `usize`: the cursor is exhausted.
    let mut bytes: Vec<u8> = vec![0xFF; 10];
    bytes.push(0x7F);
    bytes.push(0x01);
    let mut iter = ByteCodeIter::new(&bytes);
    assert_eq!(iter.next(), None);
    assert_eq!(iter.offset(), bytes.len());
    assert_eq!(iter.next(), None);
}

#[test]
fn byte_code_iter_largest() {
    let bytes = encode_int(usize::MAX);
    let mut iter = ByteCodeIter::new(&bytes);
    assert_eq!(iter.next(), Some(usize::MAX));
    assert_eq!(iter.next(), None);
}

#[test]
fn byte_code_iter_clone() {
    let bytes = vec![1u8, 2, 3];
    let mut iter = ByteCodeIter::new(&bytes);
    assert_eq!(iter.next(), Some(1));
    let mut copy = iter.clone();
    assert_eq!(iter.next(), Some(2));
    assert_eq!(copy.next(), Some(2));
    assert_eq!(copy.offset(), 2);
}

#[test]
fn byte_code_default() {
    let encoder = ByteCode::default();
    assert!(encoder.is_empty());
    assert_eq!(encoder, ByteCode::new());
}

//-----------------------------------------------------------------------------
// Runs.

fn encode_runs(sigma: usize, runs: &[Run]) -> Vec<u8> {
    let mut encoder = RLE::with_sigma(sigma);
    for run in runs.iter() {
        encoder.write(*run);
    }
    Vec::<u8>::from(encoder)
}

fn decode_runs(sigma: usize, bytes: &[u8]) -> Vec<Run> {
    let mut result = Vec::new();
    let mut iter = RLEIter::with_sigma(bytes, sigma);
    while let Some(run) = iter.next() {
        result.push(run);
    }
    assert_eq!(iter.offset(), bytes.len());
    result
}

#[test]
fn rle_packing_boundary() {
    assert_eq!(encode_runs(4, &[Run::new(3, 12)]), vec![3 + 4 * 11]);
    assert_eq!(encode_runs(4, &[Run::new(3, 12)]), vec![47]);
    assert_eq!(encode_runs(4, &[Run::new(2, 721)]), vec![2 + 4 * 63, 0x91, 0x05]);
    assert_eq!(encode_runs(4, &[Run::new(2, 721)]), vec![254, 0x91, 0x05]);
    assert_eq!(encode_runs(4, &[Run::new(0, 34)]), vec![132]);
}

#[test]
fn rle_example() {
    let mut encoder = RLE::with_sigma(4);
    assert!(encoder.is_empty());
    encoder.write(Run::new(3, 12)); encoder.write(Run::new(2, 721)); encoder.write(Run::new(0, 34));
    assert_eq!(encoder.len(), 5);
    let bytes: &[u8] = encoder.as_ref();
    assert_eq!(*bytes, [3 + 4 * 11, 2 + 4 * 63, 17 + 128, 5, 0 + 4 * 33]);
}

#[test]
fn rle_iter_example() {
    let mut source = RLE::with_sigma(4);
    source.write(Run::new(3, 12)); source.write(Run::new(2, 721)); source.write(Run::new(0, 34));

    let mut iter = RLEIter::with_sigma(source.as_ref(), 4);
    assert_eq!(iter.next(), Some(Run::new(3, 12)));
    assert_eq!(iter.next(), Some(Run::new(2, 721)));
    assert_eq!(iter.next(), Some(Run::new(0, 34)));
    assert_eq!(iter.next(), None);
    assert_eq!(iter.next(), None);
}

#[test]
fn rle_threshold_lengths() {
    // With sigma 4 the threshold is 64: a run of 63 takes one byte, a run of 64 takes two.
    assert_eq!(encode_runs(4, &[Run::new(1, 63)]), vec![1 + 4 * 62]);
    assert_eq!(encode_runs(4, &[Run::new(1, 64)]), vec![1 + 4 * 63, 0]);
    assert_eq!(encode_runs(4, &[Run::new(1, 65)]), vec![1 + 4 * 63, 1]);
    // With sigma 1 the threshold is 256.
    assert_eq!(encode_runs(1, &[Run::new(0, 255)]), vec![254]);
    assert_eq!(encode_runs(1, &[Run::new(0, 256)]), vec![255, 0]);
    // With sigma 3 the threshold is 85.
    assert_eq!(encode_runs(3, &[Run::new(2, 84)]), vec![2 + 3 * 83]);
    assert_eq!(encode_runs(3, &[Run::new(2, 85)]), vec![2 + 3 * 84, 0]);
}

#[test]
fn rle_large_alphabet() {
    // With sigma 254 the threshold is 1: every run takes its byte and the rest of its length.
    assert_eq!(encode_runs(254, &[Run::new(253, 1)]), vec![253, 0]);
    assert_eq!(encode_runs(254, &[Run::new(253, 3)]), vec![253, 2]);
    // From 255 on, the value and the length less one are two integers.
    assert_eq!(encode_runs(255, &[Run::new(254, 1)]), vec![0xFE, 0x01, 0x00]);
    assert_eq!(encode_runs(1000, &[Run::new(300, 130)]), vec![0xAC, 0x02, 0x81, 0x01]);
    assert_eq!(encode_runs(0, &[Run::new(300, 130)]), vec![0xAC, 0x02, 0x81, 0x01]);
}

#[test]
fn rle_sigma() {
    assert_eq!(RLE::new().sigma(), usize::MAX);
    assert_eq!(RLE::default().sigma(), usize::MAX);
    assert_eq!(RLE::with_sigma(0).sigma(), usize::MAX);
    assert_eq!(RLE::with_sigma(7).sigma(), 7);
    let mut encoder = RLE::with_sigma(7);
    encoder.set_sigma(300);
    assert_eq!(encoder.sigma(), 300);
    encoder.set_sigma(0);
    assert_eq!(encoder.sigma(), usize::MAX);

    let bytes: Vec<u8> = Vec::new();
    assert_eq!(RLEIter::new(&bytes).sigma(), usize::MAX);
    assert_eq!(RLEIter::with_sigma(&bytes, 0).sigma(), usize::MAX);
    let mut iter = RLEIter::with_sigma(&bytes, 5);
    assert_eq!(iter.sigma(), 5);
    iter.set_sigma(9);
    assert_eq!(iter.sigma(), 9);
}

#[test]
fn rle_set_sigma_changes_encoding() {
    let mut encoder = RLE::with_sigma(4);
    encoder.write(Run::new(3, 2));
    encoder.set_sigma(300);
    encoder.write(Run::new(3, 2));
    let bytes: Vec<u8> = Vec::from(encoder);
    assert_eq!(bytes, vec![7, 3, 1]);

    let mut iter = RLEIter::with_sigma(&bytes, 4);
    assert_eq!(iter.next(), Some(Run::new(3, 2)));
    iter.set_sigma(300);
    assert_eq!(iter.next(), Some(Run::new(3, 2)));
    assert_eq!(iter.next(), None);
}

#[test]
fn rle_empty_run_is_skipped() {
    let mut encoder = RLE::with_sigma(4);
    encoder.write(Run::new(1, 0));
    // The value of an empty run does not matter.
    encoder.write(Run::new(17, 0));
    assert!(encoder.is_empty());
    encoder.write(Run::new(1, 3));
    encoder.write(Run::new(2, 0));
    assert_eq!(encoder.len(), 1);
}

#[test]
fn rle_write_unchecked() {
    let mut checked = RLE::with_sigma(4);
    let mut unchecked = RLE::with_sigma(4);
    for run in [Run::new(3, 12), Run::new(2, 721), Run::new(0, 34)] {
        checked.write(run);
        unchecked.write_unchecked(run);
    }
    assert_eq!(checked, unchecked);
}

#[test]
fn rle_raw_bytes_and_ints() {
    let mut encoder = RLE::with_sigma(4);
    encoder.write_int(300);
    encoder.write_byte(0x42);
    encoder.write(Run::new(3, 12));
    let bytes: Vec<u8> = Vec::from(encoder);
    assert_eq!(bytes, vec![0xAC, 0x02, 0x42, 47]);

    let mut iter = RLEIter::with_sigma(&bytes, 4);
    assert_eq!(iter.next_int(), Some(300));
    assert_eq!(iter.offset(), 2);
    assert_eq!(iter.byte(), Some(0x42));
    assert_eq!(iter.next(), Some(Run::new(3, 12)));
    assert_eq!(iter.offset(), 4);
    assert_eq!(iter.byte(), None);
    assert_eq!(iter.next_int(), None);
}

#[test]
fn rle_round_trip() {
    let lengths: Vec<usize> = vec![1, 2, 3, 42, 63, 64, 65, 84, 85, 86, 127, 128, 255, 256, 257, 721, 100000];
    for sigma in [0usize, 1, 2, 3, 4, 5, 16, 100, 128, 129, 254, 255, 256, 1000] {
        let effective = if sigma == 0 { 5000 } else { sigma };
        let mut runs: Vec<Run> = Vec::new();
        for (i, len) in lengths.iter().enumerate() {
            runs.push(Run::new((i * 37) % effective, *len));
            runs.push(Run::new(effective - 1, *len));
            runs.push(Run::new(0, *len));
        }
        let bytes = encode_runs(sigma, &runs);
        assert_eq!(bytes, encode_runs(sigma, &runs), "The encoding is not the same for sigma {}", sigma);
        assert_eq!(decode_runs(sigma, &bytes), runs, "Invalid runs for sigma {}", sigma);
    }
}

#[test]
fn rle_iter_truncated() {
    // A long run without the rest of its length.
    let bytes: Vec<u8> = vec![47, 254];
    let mut iter = RLEIter::with_sigma(&bytes, 4);
    assert_eq!(iter.next(), Some(Run::new(3, 12)));
    assert_eq!(iter.next(), None);
    assert_eq!(iter.offset(), 2);
    // A value without a length.
    let bytes: Vec<u8> = vec![5];
    let mut iter = RLEIter::with_sigma(&bytes, 300);
    assert_eq!(iter.next(), None);
    assert_eq!(iter.offset(), 1);
}

#[test]
fn rle_iter_too_long() {
    // The length of the run does not fit in `usize`: the cursor is exhausted.
    let mut encoder = RLE::with_sigma(300);
    encoder.write_int(7);
    encoder.write_int(usize::MAX);
    encoder.write(Run::new(1, 1));
    let bytes: Vec<u8> = Vec::from(encoder);
    let mut iter = RLEIter::with_sigma(&bytes, 300);
    assert_eq!(iter.next(), None);
    assert_eq!(iter.offset(), bytes.len());

    let mut encoder = RLE::with_sigma(4);
    encoder.write_byte(254);
    encoder.write_int(usize::MAX);
    encoder.write(Run::new(1, 1));
    let bytes: Vec<u8> = Vec::from(encoder);
    let mut iter = RLEIter::with_sigma(&bytes, 4);
    assert_eq!(iter.next(), None);
    assert_eq!(iter.offset(), bytes.len());
}

#[test]
fn rle_iter_unpacked_byte() {
    // With sigma 3 the byte 255 is not written by the encoder: it is read as a run of 86.
    let bytes: Vec<u8> = vec![255];
    let mut iter = RLEIter::with_sigma(&bytes, 3);
    assert_eq!(iter.next(), Some(Run::new(0, 86)));
    assert_eq!(iter.next(), None);
}
