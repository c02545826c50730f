use gomori::bitboard::decode_offset;
use gomori::bitboard::encode_offset;
use gomori::bitboard::shift_2d_lossy;
use gomori::bitboard::BitBoard;

#[test]
fn shift_far() {
    let bb = BitBoard::empty_board_centered_at((12, 30))
        .insert(11, 32)
        .insert(12, 30)
        .insert(12, 33)
        .insert(15, 30);
    // None of the coordinates on the board are representable with that offset.
    let bits_shifted = shift_2d_lossy(bb.to_bits(), (-12, -30));
    assert_eq!(bits_shifted, 0);
}

#[test]
fn detect_line() {
    let bb = BitBoard::empty_board_centered_at((10, 10))
        .insert(8, 11)
        .insert(11, 11)
        .insert(12, 11)
        .insert(13, 11);
    assert_eq!(bb.lines_going_through_point(11, 11).to_vec(), bb.to_vec());
    assert_eq!(bb.lines_going_through_point(9, 9).to_vec(), Vec::new());
}

#[test]
fn offset_compression_roundtrip() {
    // Encoding then decoding any offset within the supported range
    // returns the original value.
    for i in [-64i8, -52, -3, 0, 1, 47, 63] {
        for j in [-64i8, -17, 0, 30, 63] {
            assert_eq!(decode_offset(encode_offset(i, j)), (i, j));
        }
    }
}

#[test]
fn insert_remove_contains() {
    let bb = BitBoard::empty_board_centered_at((0, 0));
    assert!(bb.is_empty());
    assert!(!bb.contains(0, 0));
    let bb = bb.insert(0, 0).insert(-3, 3).insert(2, -1);
    assert!(bb.contains(0, 0));
    assert!(bb.contains(-3, 3));
    assert!(bb.contains(2, -1));
    assert!(!bb.contains(1, 1));
    // Out-of-window coordinates are never contained.
    assert!(!bb.contains(50, 50));
    assert_eq!(bb.num_entries(), 3);
    let bb = bb.remove(0, 0);
    assert!(!bb.contains(0, 0));
    assert_eq!(bb.num_entries(), 2);
    assert_eq!(bb.to_vec(), vec![(-3, 3), (2, -1)]);
}

#[test]
fn union_and_difference() {
    let a = BitBoard::empty_board_centered_at((0, 0)).insert(0, 0).insert(1, 1);
    let b = BitBoard::empty_board_centered_at((0, 0)).insert(1, 1).insert(2, 2);
    let u = a.union(b);
    assert_eq!(u.num_entries(), 3);
    let d = a.difference(b);
    assert_eq!(d.to_vec(), vec![(0, 0)]);
}

#[test]
fn recenter_drops_unrepresentable_cells() {
    let bb = BitBoard::empty_board_centered_at((0, 0)).insert(-3, 0).insert(3, 0);
    let moved = bb.recenter_to((6, 0));
    // (3, 0) is still representable from the new center, (-3, 0) is not.
    assert!(moved.contains(3, 0));
    assert!(!moved.contains(-3, 0));
    assert_eq!(moved.num_entries(), 1);
}
