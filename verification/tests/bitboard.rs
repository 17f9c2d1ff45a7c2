use ataxx::Bitboard;

#[test]
fn count_tests() {
    assert!(Bitboard(0).count() == 0);
    assert!(Bitboard(1).count() == 1);
    assert!(Bitboard(2).count() == 1);
    assert!(Bitboard(3).count() == 2);
}

#[test]
fn empty() {
    assert!(Bitboard(0).is_empty());
    assert!(!Bitboard(1).is_empty());
}

#[test]
fn bitxor() {
    assert!(Bitboard(0).xor(Bitboard(0)) == Bitboard(0));
    assert!(Bitboard(1).xor(Bitboard(2)) == Bitboard(3));
}

#[test]
fn bitor() {
    assert!(Bitboard(1).or(Bitboard(2)) == Bitboard(3));
}

#[test]
fn bitand() {
    assert!(Bitboard(1).and(Bitboard(2)) == Bitboard(0));
}

#[test]
fn bitnot() {
    assert_eq!(Bitboard(0).flip(), Bitboard(0x1ffffffffffff));
    assert_eq!(Bitboard(0x1ffffffffffff).flip(), Bitboard(0));
}

#[test]
fn north() {
    assert_eq!(Bitboard(0x0).north(), Bitboard(0x0));
    assert_eq!(Bitboard(0x1).north(), Bitboard(0x80));
    assert_eq!(Bitboard(0x7f).north(), Bitboard(0x3f80));
    assert_eq!(Bitboard(0x3f800000000).north(), Bitboard(0x1fc0000000000));
    assert_eq!(Bitboard(0x1fc0000000000).north(), Bitboard(0x0));
}

#[test]
fn south() {
    assert_eq!(Bitboard(0x0).south(), Bitboard(0x0));
    assert_eq!(Bitboard(0x80).south(), Bitboard(0x1));
    assert_eq!(Bitboard(0x1fc000).south(), Bitboard(0x3f80));
    assert_eq!(Bitboard(0x3f80).south(), Bitboard(0x7f));
    assert_eq!(Bitboard(0x7f).south(), Bitboard(0x0));
}

#[test]
fn east() {
    assert_eq!(Bitboard(0x0).east(), Bitboard(0x0));
    assert_eq!(Bitboard(0x1).east(), Bitboard(0x2));
}

#[test]
fn west() {
    assert_eq!(Bitboard(0x0).west(), Bitboard(0x0));
    assert_eq!(Bitboard(0x1).west(), Bitboard(0x0));
}

#[test]
fn singles() {
    assert_eq!(Bitboard(0x0).singles(), Bitboard(0x0));
    assert_eq!(Bitboard(0x1).singles(), Bitboard(0x182));
    assert_eq!(Bitboard(0x100).singles(), Bitboard(0x1c287));
}

#[test]
fn doubles() {
    assert_eq!(Bitboard(0x0).doubles(), Bitboard(0x0));
    assert_eq!(Bitboard(0x1).doubles(), Bitboard(0x1c204));
    assert_eq!(Bitboard(0x100).doubles(), Bitboard(0x1e20408));
}

// One-cell neighborhoods against hand-computed masks: an interior cell
// (d4), an edge cell (a4), both corners of one diagonal, and a bottom
// edge cell (d1).  No wraparound may leak across the board edge.
#[test]
fn neighborhood_masks() {
    // d4, index 24, interior
    assert_eq!(Bitboard(1 << 24).singles(), Bitboard(0x1c2870000));
    assert_eq!(Bitboard(1 << 24).doubles(), Bitboard(0x1f224489f00));
    // a4, index 21, left edge
    assert_eq!(Bitboard(1 << 21).singles(), Bitboard(0x3040c000));
    assert_eq!(Bitboard(1 << 21).doubles(), Bitboard(0x3840810380));
    // a1, index 0, corner
    assert_eq!(Bitboard(1).singles(), Bitboard(0x182));
    assert_eq!(Bitboard(1).doubles(), Bitboard(0x1c204));
    // g7, index 48, corner
    assert_eq!(Bitboard(1 << 48).singles(), Bitboard(0x830000000000));
    assert_eq!(Bitboard(1 << 48).doubles(), Bitboard(0x408700000000));
    // d1, index 3, bottom edge
    assert_eq!(Bitboard(1 << 3).singles(), Bitboard(0xe14));
    assert_eq!(Bitboard(1 << 3).doubles(), Bitboard(0xf9122));
}

// Complement closure on sample boards: a board and its complement cover
// the full board and share nothing.
#[test]
fn complement_closure() {
    let samples: [u64; 4] = [0x0, 0x1, 0x40000000040, 0x155555555555];
    for m in samples {
        let b = Bitboard(m);
        assert_eq!(b.or(b.flip()), Bitboard(0x1ffffffffffff));
        assert_eq!(b.and(b.flip()), Bitboard(0));
    }
}

#[test]
fn reach_is_both() {
    let b = Bitboard(0x40000000040);
    assert_eq!(b.reach(), b.both());
    assert_eq!(b.reach(), b.singles().or(b.doubles()));
}

#[test]
fn full_and_set() {
    assert!(Bitboard::from_full().is_full());
    assert!(Bitboard::from_empty().is_empty());
    assert!(Bitboard::from_index(17).is_set(17));
    assert!(!Bitboard::from_index(17).is_set(16));
    assert!(Bitboard::from_index(17).is_occupied());
    assert_eq!(Bitboard::new(5), Bitboard(5));
}
