use filecoin_pieces::error::Error;
use filecoin_pieces::fr32::{write_padded, write_unpadded};
use rand::{RngCore, SeedableRng};
use rand_xorshift::XorShiftRng;

const SEED: [u8; 16] = [
    0x59, 0x62, 0xbe, 0x5d, 0x76, 0x3d, 0x31, 0x8d, 0x17, 0xdb, 0x37, 0x32, 0x54, 0x06, 0xbc, 0xe5,
];

fn random_data(size: usize) -> Vec<u8> {
    let mut rng = XorShiftRng::from_seed(SEED);
    let mut data = vec![0u8; size];
    rng.fill_bytes(&mut data);
    data
}

fn round_trip(size: usize) {
    let data = random_data(size);
    let padded = write_padded(&data);
    assert!(padded.len() > data.len());
    let unpadded = write_unpadded(&padded, 0, data.len()).unwrap();
    assert_eq!(unpadded.len(), data.len());
    assert_eq!(unpadded, data);
}

#[test]
fn round_trip_128() {
    round_trip(128);
}

#[test]
fn round_trip_256() {
    round_trip(256);
}

#[test]
fn round_trip_512() {
    round_trip(512);
}

#[test]
fn round_trip_256_000() {
    round_trip(256_000);
}

#[test]
fn round_trip_1_024_000() {
    round_trip(1_024_000);
}

#[test]
fn round_trip_2_048_000() {
    round_trip(2_048_000);
}

#[test]
fn round_trip_of_multiples_of_127() {
    for chunks in 0..9 {
        round_trip_any(127 * chunks);
    }
}

fn round_trip_any(size: usize) {
    let data = random_data(size);
    let padded = write_padded(&data);
    assert_eq!(write_unpadded(&padded, 0, size).unwrap(), data);
}

#[test]
fn round_trip_of_every_short_length() {
    for size in 0..600 {
        round_trip_any(size);
    }
}

#[test]
fn padded_length_is_one_byte_more_for_every_127_begun() {
    assert_eq!(write_padded(&[]).len(), 0);
    assert_eq!(write_padded(&[7u8; 1]).len(), 2);
    assert_eq!(write_padded(&[7u8; 126]).len(), 127);
    assert_eq!(write_padded(&[7u8; 127]).len(), 128);
    assert_eq!(write_padded(&[7u8; 128]).len(), 130);
    assert_eq!(write_padded(&[7u8; 254]).len(), 256);
    assert_eq!(write_padded(&[7u8; 151]).len(), 153);
}

#[test]
fn padded_layout_of_all_ones() {
    let data = vec![255u8; 151];
    let padded = write_padded(&data);
    assert_eq!(&padded[0..31], &data[0..31]);
    assert_eq!(padded[31], 0b0011_1111);
    assert_eq!(padded[32], 0b1111_1111);
    assert_eq!(&padded[33..63], vec![255u8; 30].as_slice());
    assert_eq!(padded[63], 0b0011_1111);
    assert_eq!(padded[95], 0b0011_1111);
    assert_eq!(padded[127], 0b0011_1111);
    assert_eq!(padded[128], 0b1111_1111);
}

#[test]
fn padded_layout_moves_bits_across_words() {
    // Bits 254 and 255 of the source are the two highest bits of byte 31;
    // they become the two lowest bits of the second word.
    let mut data = vec![0u8; 127];
    data[31] = 0b1100_0000;
    let padded = write_padded(&data);
    let mut expected = vec![0u8; 128];
    expected[32] = 0b0000_0011;
    assert_eq!(padded, expected);

    // Byte 32 of the source starts at bit 256, which is bit 2 of the second
    // word.
    let mut data = vec![0u8; 127];
    data[32] = 0b1000_0001;
    let padded = write_padded(&data);
    let mut expected = vec![0u8; 128];
    expected[32] = 0b0000_0100;
    expected[33] = 0b0000_0010;
    assert_eq!(padded, expected);

    // The last byte of the source ends the fourth word.
    let mut data = vec![0u8; 127];
    data[126] = 0b1111_1111;
    let padded = write_padded(&data);
    let mut expected = vec![0u8; 128];
    expected[126] = 0b1100_0000;
    expected[127] = 0b0011_1111;
    assert_eq!(padded, expected);
}

#[test]
fn every_word_of_the_padded_form_is_a_field_element() {
    let data = random_data(127 * 16);
    let padded = write_padded(&data);
    assert_eq!(padded.len(), 128 * 16);
    for word in padded.chunks(32) {
        assert_eq!(word[31] & 0b1100_0000, 0);
    }
}

#[test]
fn unpadded_from_an_offset() {
    let data = random_data(127 * 8);
    let padded = write_padded(&data);
    for (offset, len) in [(0usize, 1usize), (1, 30), (31, 2), (100, 300), (127, 127), (500, 516)] {
        let part = write_unpadded(&padded, offset, len).unwrap();
        assert_eq!(part.as_slice(), &data[offset..offset + len]);
    }
}

#[test]
fn unpadded_of_nothing_is_empty() {
    assert_eq!(write_unpadded(&[], 0, 0), Ok(vec![]));
    assert_eq!(write_unpadded(&[1, 2, 3], 100, 0), Ok(vec![]));
}

#[test]
fn short_read() {
    let data = random_data(254);
    let padded = write_padded(&data);
    assert_eq!(padded.len(), 256);
    assert_eq!(write_unpadded(&padded, 0, 255), Err(Error::ShortRead));
    assert_eq!(write_unpadded(&padded, 254, 1), Err(Error::ShortRead));
    assert_eq!(write_unpadded(&padded[..255], 0, 254), Err(Error::ShortRead));
    assert_eq!(write_unpadded(&padded, usize::MAX, 2), Err(Error::ShortRead));
    assert_eq!(write_unpadded(&padded, usize::MAX - 1, 1), Err(Error::ShortRead));
    assert_eq!(write_unpadded(&padded, 0, 254).unwrap(), data);
}
