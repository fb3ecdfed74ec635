use filecoin_pieces::types::{
    PaddedBytesAmount, PieceInfo, SectorSize, UnpaddedByteIndex, UnpaddedBytesAmount,
};

#[test]
fn padded_amounts() {
    assert_eq!(UnpaddedBytesAmount(0).padded(), PaddedBytesAmount(0));
    assert_eq!(UnpaddedBytesAmount(1).padded(), PaddedBytesAmount(2));
    assert_eq!(UnpaddedBytesAmount(126).padded(), PaddedBytesAmount(127));
    assert_eq!(UnpaddedBytesAmount(127).padded(), PaddedBytesAmount(128));
    assert_eq!(UnpaddedBytesAmount(128).padded(), PaddedBytesAmount(130));
    assert_eq!(UnpaddedBytesAmount(254).padded(), PaddedBytesAmount(256));
    assert_eq!(UnpaddedBytesAmount(127 << 20).padded(), PaddedBytesAmount(128 << 20));
}

#[test]
fn unpadded_amounts() {
    assert_eq!(PaddedBytesAmount(0).unpadded(), UnpaddedBytesAmount(0));
    assert_eq!(PaddedBytesAmount(1).unpadded(), UnpaddedBytesAmount(0));
    assert_eq!(PaddedBytesAmount(2).unpadded(), UnpaddedBytesAmount(1));
    assert_eq!(PaddedBytesAmount(127).unpadded(), UnpaddedBytesAmount(126));
    assert_eq!(PaddedBytesAmount(128).unpadded(), UnpaddedBytesAmount(127));
    assert_eq!(PaddedBytesAmount(129).unpadded(), UnpaddedBytesAmount(127));
    assert_eq!(PaddedBytesAmount(130).unpadded(), UnpaddedBytesAmount(128));
    assert_eq!(PaddedBytesAmount(1024).unpadded(), UnpaddedBytesAmount(1016));
    assert_eq!(
        PaddedBytesAmount(u64::MAX).unpadded(),
        UnpaddedBytesAmount(u64::MAX - (1 << 57))
    );
}

#[test]
fn unpadded_of_padded_is_the_same() {
    for amount in 0..2000u64 {
        let amount = UnpaddedBytesAmount(amount);
        assert_eq!(amount.padded().unpadded(), amount);
    }
}

#[test]
fn conversions() {
    assert_eq!(PaddedBytesAmount::from(SectorSize(1024)), PaddedBytesAmount(1024));
    assert_eq!(UnpaddedBytesAmount::from(SectorSize(1024)), UnpaddedBytesAmount(1016));
    assert_eq!(SectorSize(1024).unpadded(), UnpaddedBytesAmount(1016));
    assert_eq!(
        UnpaddedBytesAmount::from(PaddedBytesAmount(256)),
        UnpaddedBytesAmount(254)
    );
    assert_eq!(u64::from(UnpaddedBytesAmount(127)), 127);
    assert_eq!(u64::from(PaddedBytesAmount(128)), 128);
    assert_eq!(u64::from(SectorSize(1 << 30)), 1 << 30);
    assert_eq!(UnpaddedByteIndex::from(UnpaddedBytesAmount(254)), UnpaddedByteIndex(254));
    let unpadded: UnpaddedBytesAmount = SectorSize(4 * 128).into();
    assert_eq!(unpadded, UnpaddedBytesAmount(4 * 127));
}

#[test]
fn amounts_add_and_compare() {
    assert_eq!(
        UnpaddedBytesAmount(127) + UnpaddedBytesAmount(254),
        UnpaddedBytesAmount(381)
    );
    assert!(UnpaddedBytesAmount(127) < UnpaddedBytesAmount(254));
    assert!(PaddedBytesAmount(256) > PaddedBytesAmount(128));
}

#[test]
fn piece_as_text() {
    let piece = PieceInfo::new([1u8; 32], UnpaddedBytesAmount(127));
    assert_eq!(
        piece.commitment_hex(),
        "0101010101010101010101010101010101010101010101010101010101010101"
    );
    assert_eq!(
        piece.debug_string(),
        "PieceInfo { commitment: \"0101010101010101010101010101010101010101010101010101010101010101\", size: UnpaddedBytesAmount(127) }"
    );
    let mut commitment = [0u8; 32];
    for (i, byte) in commitment.iter_mut().enumerate() {
        *byte = (i as u8).wrapping_mul(17).wrapping_add(0xa5);
    }
    let piece = PieceInfo::new(commitment, UnpaddedBytesAmount(0));
    assert_eq!(
        piece.commitment_hex(),
        "a5b6c7d8e9fa0b1c2d3e4f60718293a4b5c6d7e8f90a1b2c3d4e5f708192a3b4"
    );
    assert!(piece.debug_string().ends_with("size: UnpaddedBytesAmount(0) }"));
    for size in [9u64, 10, 99, 100, 1016, 1_000_000, 18446744073709551615] {
        let piece = PieceInfo::new([0u8; 32], UnpaddedBytesAmount(size));
        assert!(piece
            .debug_string()
            .ends_with(&format!("size: UnpaddedBytesAmount({}) }}", size)));
    }
}
