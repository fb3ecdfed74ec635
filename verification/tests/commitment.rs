use filecoin_pieces::error::Error;
use filecoin_pieces::pieces::{compute_comm_d, piece_hash, verify_pieces, zero_padding};
use filecoin_pieces::types::{PieceInfo, SectorSize, UnpaddedBytesAmount};

fn piece(fill: u8, size: u64) -> PieceInfo {
    PieceInfo::new([fill; 32], UnpaddedBytesAmount(size))
}

fn zero(size: u64) -> [u8; 32] {
    zero_padding(UnpaddedBytesAmount(size)).commitment
}

#[test]
fn missing_pieces() {
    assert_eq!(compute_comm_d(SectorSize(4 * 128), &[]), Err(Error::MissingPieces));
    assert_eq!(
        verify_pieces(&[0u8; 32], &[], SectorSize(4 * 128)),
        Err(Error::MissingPieces)
    );
    assert_eq!(compute_comm_d(SectorSize(0), &[]), Err(Error::MissingPieces));
}

#[test]
fn too_many_pieces() {
    let pieces = vec![piece(1, 127); 5];
    assert_eq!(compute_comm_d(SectorSize(4 * 128), &pieces), Err(Error::TooManyPieces));
    assert_eq!(
        verify_pieces(&[0u8; 32], &pieces, SectorSize(4 * 128)),
        Err(Error::TooManyPieces)
    );
    // A sector of 127 padded bytes has room for 126 client bytes: for no piece.
    assert_eq!(
        compute_comm_d(SectorSize(127), &[piece(1, 127)]),
        Err(Error::TooManyPieces)
    );
    // Too many pieces is found before a piece of a wrong size is.
    let pieces = vec![piece(1, 100); 5];
    assert_eq!(compute_comm_d(SectorSize(4 * 128), &pieces), Err(Error::TooManyPieces));
}

#[test]
fn piece_overflow() {
    let pieces = vec![piece(1, 254), piece(2, 508)];
    assert_eq!(compute_comm_d(SectorSize(4 * 128), &pieces), Err(Error::PieceOverflow));
    assert_eq!(
        verify_pieces(&[0u8; 32], &pieces, SectorSize(4 * 128)),
        Err(Error::PieceOverflow)
    );
    assert_eq!(
        compute_comm_d(SectorSize(4 * 128), &[piece(1, 8 * 127)]),
        Err(Error::PieceOverflow)
    );
    // The padded sizes are summed: 3 times 2 bytes for 1 byte each.
    let pieces = vec![piece(1, 1); 3];
    assert_eq!(compute_comm_d(SectorSize(384), &pieces), Err(Error::NonPow2Piece));
    let pieces = vec![piece(1, u64::MAX); 2];
    assert_eq!(compute_comm_d(SectorSize(384), &pieces), Err(Error::PieceOverflow));
}

#[test]
fn non_pow2_piece() {
    for size in [0u64, 1, 126, 128, 253, 255, 3 * 127, 5 * 127, 6 * 127, 1016 + 127] {
        assert_eq!(
            compute_comm_d(SectorSize(32 * 128), &[piece(1, size)]),
            Err(Error::NonPow2Piece),
            "size {}",
            size
        );
    }
    let pieces = vec![piece(1, 127), piece(2, 254), piece(3, 3 * 127)];
    assert_eq!(compute_comm_d(SectorSize(32 * 128), &pieces), Err(Error::NonPow2Piece));
    assert_eq!(
        verify_pieces(&[0u8; 32], &pieces, SectorSize(32 * 128)),
        Err(Error::NonPow2Piece)
    );
}

#[test]
fn single_piece_that_fills_the_sector() {
    for k in 0..8 {
        let size = 127u64 << k;
        let only = piece(9, size);
        assert_eq!(compute_comm_d(SectorSize(128 << k), &[only]), Ok(only.commitment));
    }
}

#[test]
fn single_piece_in_a_larger_sector_is_not_padded() {
    let only = piece(9, 127);
    for k in 0..8 {
        assert_eq!(compute_comm_d(SectorSize(128 << k), &[only]), Ok(only.commitment));
    }
    let only = piece(7, 254);
    assert_eq!(compute_comm_d(SectorSize(32 * 128), &[only]), Ok(only.commitment));
}

#[test]
fn two_pieces_of_one_size_are_hashed() {
    let a = piece(1, 127);
    let b = piece(2, 127);
    let expected = piece_hash(&a.commitment, &b.commitment);
    assert_eq!(compute_comm_d(SectorSize(2 * 128), &[a, b]), Ok(expected));
    assert_eq!(compute_comm_d(SectorSize(32 * 128), &[a, b]), Ok(expected));
    let swapped = piece_hash(&b.commitment, &a.commitment);
    assert_eq!(compute_comm_d(SectorSize(2 * 128), &[b, a]), Ok(swapped));
    assert_ne!(expected, swapped);
}

#[test]
fn a_larger_piece_waits_for_its_slot() {
    // [a(1), zero(1), b(2)]
    let a = piece(1, 127);
    let b = piece(2, 254);
    let left = piece_hash(&a.commitment, &zero(127));
    let expected = piece_hash(&left, &b.commitment);
    assert_eq!(compute_comm_d(SectorSize(4 * 128), &[a, b]), Ok(expected));
}

#[test]
fn a_smaller_piece_is_followed_by_zeros() {
    // [b(2), a(1), zero(1)]
    let a = piece(1, 127);
    let b = piece(2, 254);
    let right = piece_hash(&a.commitment, &zero(127));
    let expected = piece_hash(&b.commitment, &right);
    assert_eq!(compute_comm_d(SectorSize(4 * 128), &[b, a]), Ok(expected));
}

#[test]
fn three_pieces_are_padded_to_four() {
    let a = piece(1, 127);
    let b = piece(2, 127);
    let c = piece(3, 127);
    let left = piece_hash(&a.commitment, &b.commitment);
    let right = piece_hash(&c.commitment, &zero(127));
    let expected = piece_hash(&left, &right);
    assert_eq!(compute_comm_d(SectorSize(4 * 128), &[a, b, c]), Ok(expected));
}

#[test]
fn zero_pieces_of_growing_size_fill_a_gap() {
    // [a(1), zero(1), zero(2), zero(4), b(8)]
    let a = piece(1, 127);
    let b = piece(2, 8 * 127);
    let two = piece_hash(&a.commitment, &zero(127));
    let four = piece_hash(&two, &zero(254));
    let eight = piece_hash(&four, &zero(508));
    let expected = piece_hash(&eight, &b.commitment);
    assert_eq!(compute_comm_d(SectorSize(16 * 128), &[a, b]), Ok(expected));
    assert_eq!(zero(254), piece_hash(&zero(127), &zero(127)));
    assert_eq!(zero(508), piece_hash(&zero(254), &zero(254)));
}

#[test]
fn the_tree_may_outgrow_the_sector() {
    // The padded sizes add up to the sector, but the second piece has to
    // wait for its slot: [a(1), zero(1), b(2), c(1), zero(1), zero(2)].
    let a = piece(1, 127);
    let b = piece(2, 254);
    let c = piece(3, 127);
    let first = piece_hash(&piece_hash(&a.commitment, &zero(127)), &b.commitment);
    let second = piece_hash(&piece_hash(&c.commitment, &zero(127)), &zero(254));
    let expected = piece_hash(&first, &second);
    assert_eq!(compute_comm_d(SectorSize(4 * 128), &[a, b, c]), Ok(expected));
}

#[test]
fn what_is_computed_is_verified() {
    let lists: Vec<Vec<PieceInfo>> = vec![
        vec![piece(1, 127)],
        vec![piece(1, 127), piece(2, 127)],
        vec![piece(1, 127), piece(2, 508), piece(3, 254)],
        vec![piece(1, 1016), piece(2, 127), piece(3, 127), piece(4, 254)],
        vec![piece(1, 254), piece(2, 127), piece(3, 508), piece(4, 127)],
    ];
    for pieces in lists {
        let sector = SectorSize(32 * 128);
        let comm_d = compute_comm_d(sector, &pieces).unwrap();
        assert_eq!(verify_pieces(&comm_d, &pieces, sector), Ok(true));
        let mut other = comm_d;
        other[0] ^= 1;
        assert_eq!(verify_pieces(&other, &pieces, sector), Ok(false));
    }
}

#[test]
fn the_sector_size_only_decides_what_is_refused() {
    let pieces = vec![piece(1, 127), piece(2, 254), piece(3, 127)];
    let small = compute_comm_d(SectorSize(4 * 128), &pieces).unwrap();
    let large = compute_comm_d(SectorSize(1024 * 128), &pieces).unwrap();
    assert_eq!(small, large);
}

#[test]
fn a_tree_of_twice_the_largest_piece() {
    // Two pieces of 2^62 padded bytes, each after a piece of 127 bytes, and
    // one piece of 127 bytes more: the padded sizes fit in the sector, the
    // tree over the aligned pieces holds 2^65 padded bytes.
    let large = 127u64 << 55;
    let pad_up = |commitment: [u8; 32], to: u64| -> [u8; 32] {
        let mut commitment = commitment;
        let mut size = 127u64;
        while size < to {
            commitment = piece_hash(&commitment, &zero(size));
            size *= 2;
        }
        commitment
    };
    let pieces = vec![
        piece(1, 127),
        piece(2, large),
        piece(3, 127),
        piece(4, large),
        piece(5, 127),
    ];
    let first = piece_hash(&pad_up([1u8; 32], large), &[2u8; 32]);
    let second = piece_hash(&pad_up([3u8; 32], large), &[4u8; 32]);
    let left = piece_hash(&first, &second);
    let right = pad_up([5u8; 32], 4 * large);
    let expected = piece_hash(&left, &right);
    assert_eq!(compute_comm_d(SectorSize(u64::MAX), &pieces), Ok(expected));
    assert_eq!(verify_pieces(&expected, &pieces, SectorSize(u64::MAX)), Ok(true));
    assert_eq!(verify_pieces(&left, &pieces, SectorSize(u64::MAX)), Ok(false));
}

#[test]
fn the_largest_tree_that_an_entry_can_hold() {
    // [a(2^62), zero(2^62), c(2^63)]: the tree holds 2^64 padded bytes.
    let quarter = 127u64 << 55;
    let half = 127u64 << 56;
    let a = piece(1, quarter);
    let b = piece(2, quarter);
    let c = piece(3, half);
    let left = piece_hash(&a.commitment, &zero(quarter));
    let expected = piece_hash(&left, &c.commitment);
    assert_eq!(compute_comm_d(SectorSize(u64::MAX), &[a, c]), Ok(expected));
    assert_eq!(
        compute_comm_d(SectorSize(u64::MAX), &[a, b, c]),
        Err(Error::PieceOverflow)
    );
    let both = piece_hash(&a.commitment, &b.commitment);
    assert_eq!(compute_comm_d(SectorSize(1 << 63), &[a, b]), Ok(both));
    assert_eq!(compute_comm_d(SectorSize(1 << 63), &[c]), Ok(c.commitment));
}
