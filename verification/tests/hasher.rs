use filecoin_pieces::hasher::piece_hash;
use filecoin_pieces::pieces::zero_padding;
use filecoin_pieces::types::UnpaddedBytesAmount;

fn hex(bytes: &[u8]) -> String {
    let mut out = String::new();
    for byte in bytes {
        out.push_str(&format!("{:02x}", byte));
    }
    out
}

#[test]
fn piece_hash_of_zero_nodes_is_trimmed_sha256() {
    let zero = [0u8; 32];
    let parent = piece_hash(&zero, &zero);
    assert_eq!(
        hex(&parent),
        "f5a5fd42d16a20302798ef6ed309979b43003d2320d9f0e8ea9831a92759fb0b"
    );
}

#[test]
fn piece_hash_clears_the_two_highest_bits() {
    for seed in 0u8..=255 {
        let a = [seed; 32];
        let b = [seed.wrapping_mul(7).wrapping_add(3); 32];
        let parent = piece_hash(&a, &b);
        assert_eq!(parent[31] & 0xc0, 0);
    }
}

#[test]
fn piece_hash_depends_on_the_order_of_its_arguments() {
    let a = [1u8; 32];
    let b = [2u8; 32];
    assert_ne!(piece_hash(&a, &b), piece_hash(&b, &a));
    assert_eq!(piece_hash(&a, &b), piece_hash(&a, &b));
}

#[test]
fn zero_padding_of_the_smallest_piece() {
    let zero = [0u8; 32];
    let pair = piece_hash(&zero, &zero);
    let expected = piece_hash(&pair, &pair);
    let padding = zero_padding(UnpaddedBytesAmount(127));
    assert_eq!(padding.commitment, expected);
    assert_eq!(padding.size, UnpaddedBytesAmount(127));
    assert_eq!(
        hex(&padding.commitment),
        "3731bb99ac689f66eef5973e4a94da188f4ddcae580724fc6f3fd60dfd488333"
    );
}

#[test]
fn zero_padding_doubles_by_hashing_with_itself() {
    let mut expected = zero_padding(UnpaddedBytesAmount(127)).commitment;
    let mut size = 127u64;
    for _ in 0..10 {
        expected = piece_hash(&expected, &expected);
        size *= 2;
        let padding = zero_padding(UnpaddedBytesAmount(size));
        assert_eq!(padding.commitment, expected);
        assert_eq!(padding.size, UnpaddedBytesAmount(size));
    }
}

#[test]
fn zero_padding_is_the_same_at_every_call() {
    for k in 0..12 {
        let size = UnpaddedBytesAmount(127 << k);
        assert_eq!(zero_padding(size), zero_padding(size));
    }
}
