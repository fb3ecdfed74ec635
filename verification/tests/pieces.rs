use filecoin_pieces::alignment::{get_piece_alignment, get_piece_start_byte, PieceAlignment};
use filecoin_pieces::hasher::piece_hash;
use filecoin_pieces::pieces::{verify_pieces, zero_padding};
use filecoin_pieces::types::{PieceInfo, SectorSize, UnpaddedByteIndex, UnpaddedBytesAmount};
use rand::{Rng, SeedableRng};
use rand_xorshift::XorShiftRng;

const TEST_SEED: [u8; 16] = [
    0x59, 0x62, 0xbe, 0x5d, 0x76, 0x3d, 0x31, 0x8d, 0x17, 0xdb, 0x37, 0x32, 0x54, 0x06, 0xbc, 0xe5,
];

#[test]
fn test_get_piece_alignment() {
    let table = vec![
        (0, 0, (0, 127)),
        (0, 127, (0, 0)),
        (0, 254, (0, 0)),
        (0, 508, (0, 0)),
        (0, 1016, (0, 0)),
        (127, 127, (0, 0)),
        (127, 254, (127, 0)),
        (127, 508, (381, 0)),
        (100, 100, (27, 27)),
        (200, 200, (54, 54)),
        (300, 300, (208, 208)),
    ];

    for (bytes_in_sector, bytes_in_piece, (expected_left_align, expected_right_align)) in
        table.clone()
    {
        let PieceAlignment {
            left_bytes: UnpaddedBytesAmount(actual_left_align),
            right_bytes: UnpaddedBytesAmount(actual_right_align),
        } = get_piece_alignment(
            UnpaddedBytesAmount(bytes_in_sector),
            UnpaddedBytesAmount(bytes_in_piece),
        );
        assert_eq!(
            (expected_left_align, expected_right_align),
            (actual_left_align, actual_right_align)
        );
    }
}

#[test]
fn test_get_piece_start_byte() {
    let pieces = [
        UnpaddedBytesAmount(31),
        UnpaddedBytesAmount(32),
        UnpaddedBytesAmount(33),
    ];

    assert_eq!(
        get_piece_start_byte(&pieces[..0], pieces[0]),
        UnpaddedByteIndex(0)
    );
    assert_eq!(
        get_piece_start_byte(&pieces[..1], pieces[1]),
        UnpaddedByteIndex(127)
    );
    assert_eq!(
        get_piece_start_byte(&pieces[..2], pieces[2]),
        UnpaddedByteIndex(254)
    );
}

#[test]
fn test_verify_simple_pieces() {
    let rng = &mut XorShiftRng::from_seed(TEST_SEED);

    //     g
    //   /  \
    //  e    f
    // / \  / \
    // a  b c  d

    let (a, b, c, d): ([u8; 32], [u8; 32], [u8; 32], [u8; 32]) = rng.gen();

    let mut e = [0u8; 32];
    let h = piece_hash(&a, &b);
    e.copy_from_slice(h.as_ref());

    let mut f = [0u8; 32];
    let h = piece_hash(&c, &d);
    f.copy_from_slice(h.as_ref());

    let mut g = [0u8; 32];
    let h = piece_hash(&e, &f);
    g.copy_from_slice(h.as_ref());

    let a = PieceInfo::new(a, UnpaddedBytesAmount(127));
    let b = PieceInfo::new(b, UnpaddedBytesAmount(127));
    let c = PieceInfo::new(c, UnpaddedBytesAmount(127));
    let d = PieceInfo::new(d, UnpaddedBytesAmount(127));

    let e = PieceInfo::new(e, UnpaddedBytesAmount(254));
    let f = PieceInfo::new(f, UnpaddedBytesAmount(254));
    let g = PieceInfo::new(g, UnpaddedBytesAmount(508));

    let sector_size = SectorSize(4 * 128);
    let comm_d = g.commitment;

    assert!(
        verify_pieces(
            &comm_d,
            &vec![a.clone(), b.clone(), c.clone(), d.clone()],
            sector_size
        )
        .expect("failed to verify"),
        "[a, b, c, d]"
    );

    assert!(
        verify_pieces(&comm_d, &vec![e.clone(), c.clone(), d.clone()], sector_size)
            .expect("failed to verify"),
        "[e, c, d]"
    );

    assert!(
        verify_pieces(&comm_d, &vec![e.clone(), f.clone()], sector_size)
            .expect("failed to verify"),
        "[e, f]"
    );

    assert!(
        verify_pieces(&comm_d, &vec![a.clone(), b.clone(), f.clone()], sector_size)
            .expect("failed to verify"),
        "[a, b, f]"
    );

    assert!(
        verify_pieces(&comm_d, &vec![g], sector_size).expect("failed to verify"),
        "[g]"
    );
}

#[test]
fn test_verify_padded_pieces() {
    // [
    //   {(A0 00) (BB BB)} -> A(1) P(1) P(1) P(1) B(4)
    //   {(CC 00) (00 00)} -> C(2)      P(1) P(1) P(1) P(1) P(1) P(1)
    // ]
    // [
    //   {(DD DD) (DD DD)} -> D(8)
    //   {(00 00) (00 00)} -> P(1) P(1) P(1) P(1) P(1) P(1) P(1) P(1)
    // ]

    let sector_size = SectorSize(32 * 128);
    let pad = zero_padding(UnpaddedBytesAmount(127));

    let pieces = vec![
        PieceInfo {
            commitment: [1u8; 32],
            size: UnpaddedBytesAmount(1 * 127),
        },
        PieceInfo {
            commitment: [2u8; 32],
            size: UnpaddedBytesAmount(4 * 127),
        },
        PieceInfo {
            commitment: [3u8; 32],
            size: UnpaddedBytesAmount(2 * 127),
        },
        PieceInfo {
            commitment: [4u8; 32],
            size: UnpaddedBytesAmount(8 * 127),
        },
    ];

    let padded_pieces = vec![
        PieceInfo {
            commitment: [1u8; 32],
            size: UnpaddedBytesAmount(1 * 127),
        },
        pad.clone(),
        pad.clone(),
        pad.clone(),
        PieceInfo {
            commitment: [2u8; 32],
            size: UnpaddedBytesAmount(4 * 127),
        },
        PieceInfo {
            commitment: [3u8; 32],
            size: UnpaddedBytesAmount(2 * 127),
        },
        pad.clone(),
        pad.clone(),
        pad.clone(),
        pad.clone(),
        pad.clone(),
        pad.clone(),
        PieceInfo {
            commitment: [4u8; 32],
            size: UnpaddedBytesAmount(8 * 127),
        },
        pad.clone(),
        pad.clone(),
        pad.clone(),
        pad.clone(),
        pad.clone(),
        pad.clone(),
        pad.clone(),
        pad.clone(),
    ];

    let hash = |a, b| {
        let hash = piece_hash(a, b);
        let mut res = [0u8; 32];
        res.copy_from_slice(hash.as_ref());
        res
    };

    let layer1: Vec<[u8; 32]> = vec![
        hash(&padded_pieces[0].commitment, &padded_pieces[1].commitment), // 2: H(A(1) | P(1))
        hash(&padded_pieces[2].commitment, &padded_pieces[3].commitment), // 2: H(P(1) | P(1))
        padded_pieces[4].commitment,                                      // 4: B(4)
        padded_pieces[5].commitment,                                      // 2: C(2)
        hash(&padded_pieces[6].commitment, &padded_pieces[7].commitment), // 2: H(P(1) | P(1))
        hash(&padded_pieces[8].commitment, &padded_pieces[9].commitment), // 2: H(P(1) | P(1))
        hash(&padded_pieces[10].commitment, &padded_pieces[11].commitment), // 2: H(P(1) | P(1))
        padded_pieces[12].commitment,                                     // 8: D(8)
        hash(&padded_pieces[13].commitment, &padded_pieces[14].commitment), // 2: H(P(1) | P(1))
        hash(&padded_pieces[15].commitment, &padded_pieces[16].commitment), // 2: H(P(1) | P(1))
        hash(&padded_pieces[17].commitment, &padded_pieces[18].commitment), // 2: H(P(1) | P(1))
        hash(&padded_pieces[19].commitment, &padded_pieces[20].commitment), // 2: H(P(1) | P(1))
    ];

    let layer2: Vec<[u8; 32]> = vec![
        hash(&layer1[0], &layer1[1]),   // 4
        layer1[2],                      // 4
        hash(&layer1[3], &layer1[4]),   // 4
        hash(&layer1[5], &layer1[6]),   // 4
        layer1[7],                      // 8
        hash(&layer1[8], &layer1[9]),   // 4
        hash(&layer1[10], &layer1[11]), // 4
    ];

    let layer3 = vec![
        hash(&layer2[0], &layer2[1]), // 8
        hash(&layer2[2], &layer2[3]), // 8
        layer2[4],                    // 8
        hash(&layer2[5], &layer2[6]), // 8
    ];

    let layer4 = vec![
        hash(&layer3[0], &layer3[1]), // 16
        hash(&layer3[2], &layer3[3]), // 16
    ];

    let comm_d = hash(&layer4[0], &layer4[1]); // 32

    assert!(verify_pieces(&comm_d, &pieces, sector_size).unwrap());
}
