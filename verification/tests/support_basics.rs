use gbwt::support::{Orientation, Run};
use gbwt::support::{decode_node, encode_node, flip_node, node_id, node_orientation};
use gbwt::support::{decode_path, encode_path, flip_path, path_id, path_orientation};
use gbwt::support::{intersect, reverse_complement, reverse_path};

#[test]
fn orientation_flip() {
    assert_eq!(Orientation::Forward.flip(), Orientation::Reverse);
    assert_eq!(Orientation::Reverse.flip(), Orientation::Forward);
    assert_eq!(Orientation::Forward.flip().flip(), Orientation::Forward);
}

#[test]
fn orientation_order() {
    assert!(Orientation::Forward < Orientation::Reverse);
}

#[test]
fn node_packing() {
    assert_eq!(encode_node(21, Orientation::Forward), 42);
    assert_eq!(encode_node(21, Orientation::Reverse), 43);
    assert_eq!(node_id(43), 21);
    assert_eq!(node_orientation(42), Orientation::Forward);
    assert_eq!(node_orientation(43), Orientation::Reverse);
    assert_eq!(decode_node(42), (21, Orientation::Forward));
    assert_eq!(decode_node(43), (21, Orientation::Reverse));
    assert_eq!(flip_node(42), 43);
    assert_eq!(flip_node(43), 42);
}

#[test]
fn node_packing_inverts() {
    for id in [0usize, 1, 2, 77, usize::MAX / 2] {
        for orientation in [Orientation::Forward, Orientation::Reverse] {
            let node = encode_node(id, orientation);
            assert_eq!(decode_node(node), (id, orientation));
            assert_eq!(flip_node(node), encode_node(id, orientation.flip()));
            assert_eq!(flip_node(flip_node(node)), node);
        }
    }
}

#[test]
fn endmarker_is_forward_node_zero() {
    assert_eq!(encode_node(0, Orientation::Forward), gbwt::ENDMARKER);
    assert_eq!(decode_node(gbwt::ENDMARKER), (0, Orientation::Forward));
}

#[test]
fn path_packing() {
    assert_eq!(encode_path(5, Orientation::Forward), 10);
    assert_eq!(encode_path(5, Orientation::Reverse), 11);
    assert_eq!(path_id(11), 5);
    assert_eq!(path_orientation(10), Orientation::Forward);
    assert_eq!(path_orientation(11), Orientation::Reverse);
    assert_eq!(decode_path(11), (5, Orientation::Reverse));
    assert_eq!(flip_path(10), 11);
    assert_eq!(flip_path(11), 10);
}

#[test]
fn reverse_complement_of_sequence() {
    assert_eq!(reverse_complement(b"GATTACA"), b"TGTAATC".to_vec());
    assert_eq!(reverse_complement(b""), Vec::<u8>::new());
    assert_eq!(reverse_complement(b"ACGT"), b"ACGT".to_vec());
}

#[test]
fn reverse_complement_keeps_other_bytes() {
    // Lower case and unknown characters stay as they are.
    assert_eq!(reverse_complement(b"acgtN-A"), b"T-Ntgca".to_vec());
}

#[test]
fn reverse_complement_twice() {
    let sequence = b"GATTACANNCCGT".to_vec();
    assert_eq!(reverse_complement(&reverse_complement(&sequence)), sequence);
}

#[test]
fn reverse_path_flips_and_reverses() {
    assert_eq!(reverse_path(&[2, 4, 7, 8]), vec![9, 6, 5, 3]);
    assert_eq!(reverse_path(&[]), Vec::<usize>::new());
    let path = vec![10, 13, 14];
    assert_eq!(reverse_path(&reverse_path(&path)), path);
}

#[test]
fn intersect_ranges() {
    assert_eq!(intersect(&(2..8), &(5..12)), 5..8);
    assert_eq!(intersect(&(5..12), &(2..8)), 5..8);
    assert_eq!(intersect(&(0..10), &(3..4)), 3..4);
    assert!(intersect(&(0..3), &(5..8)).is_empty());
    assert_eq!(intersect(&(0..3), &(5..8)), 5..3);
}

#[test]
fn run_new_and_from() {
    let run = Run::new(3, 12);
    assert_eq!(run.value, 3);
    assert_eq!(run.len, 12);
    assert_eq!(Run::from((3, 12)), run);
    assert_eq!(Run::default(), Run::new(0, 0));
}
