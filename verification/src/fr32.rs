//! Bit padding: client bytes to sector bytes and back.
//!
//! A sector is a row of 32-byte words, each of which has to be a field
//! element of 254 bits. Padding lays the bits of the client's bytes into the
//! low 254 bits of one word after another and leaves the two high bits of
//! every word zero, so that 127 client bytes fill 128 sector bytes. Bits are
//! counted from the lowest bit of the first byte.

use crate::error::Error;
use crate::types::padded_bytes;
use vstd::prelude::*;

verus! {

/// Bit `k` of `byte`, the lowest first.
pub open spec fn bit(byte: u8, k: u8) -> bool {
    (byte >> k) & 1 == 1
}

/// The byte that has the given bits, the lowest first.
pub open spec fn byte_from(
    b0: bool,
    b1: bool,
    b2: bool,
    b3: bool,
    b4: bool,
    b5: bool,
    b6: bool,
    b7: bool,
) -> u8 {
    (if b0 { 1u8 } else { 0u8 }) | (if b1 { 2u8 } else { 0u8 }) | (if b2 { 4u8 } else { 0u8 }) | (
    if b3 { 8u8 } else { 0u8 }) | (if b4 { 16u8 } else { 0u8 }) | (if b5 { 32u8 } else { 0u8 }) | (
    if b6 { 64u8 } else { 0u8 }) | (if b7 { 128u8 } else { 0u8 })
}

/// The byte whose bit `k` is `bits(k)`.
pub open spec fn byte_of_bits(bits: spec_fn(int) -> bool) -> u8 {
    byte_from(bits(0), bits(1), bits(2), bits(3), bits(4), bits(5), bits(6), bits(7))
}

/// Bit `index` of a row of bytes; there are only zero bits after its end.
pub open spec fn bit_of(bytes: Seq<u8>, index: int) -> bool {
    0 <= index < 8 * bytes.len() && bit(bytes[index / 8], (index % 8) as u8)
}

/// Bit `index` of the padded form of `source`: of every 256 bits the first
/// 254 are the next 254 bits of `source`, and the last two are zero.
pub open spec fn padded_bit(source: Seq<u8>, index: int) -> bool {
    index % 256 < 254 && bit_of(source, 254 * (index / 256) + index % 256)
}

/// Byte `index` of the padded form of `source`.
pub open spec fn padded_byte(source: Seq<u8>, index: int) -> u8 {
    byte_of_bits(|k: int| padded_bit(source, 8 * index + k))
}

/// The padded form of `source`.
pub open spec fn padded(source: Seq<u8>) -> Seq<u8> {
    Seq::new(padded_bytes(source.len()), |index: int| padded_byte(source, index))
}

/// Bit `index` of the bytes that `padded` is the padded form of: the bits of
/// `padded` without the last two of every 256.
pub open spec fn unpadded_bit(padded: Seq<u8>, index: int) -> bool {
    bit_of(padded, 256 * (index / 254) + index % 254)
}

/// Byte `index` of the bytes that `padded` is the padded form of.
pub open spec fn unpadded_byte(padded: Seq<u8>, index: int) -> u8 {
    byte_of_bits(|k: int| unpadded_bit(padded, 8 * index + k))
}

/// The `len` bytes from `offset` of the bytes that `padded` is the padded
/// form of.
pub open spec fn unpadded(padded: Seq<u8>, offset: nat, len: nat) -> Seq<u8> {
    Seq::new(len, |index: int| unpadded_byte(padded, offset + index))
}

/// The byte that starts `8 - shift` bits into `lo` and ends in `hi`: the
/// high bits of `lo`, then the low bits of `hi`.
pub open spec fn splice_spec(lo: u8, hi: u8, shift: u8) -> u8 {
    (lo >> ((8 - shift) as u8)) | (hi << shift)
}

/// The byte that starts `6 - keep` bits into `lo` and skips its two highest
/// bits: `keep` bits of `lo`, then the low bits of `hi`.
pub open spec fn splice_over_gap_spec(lo: u8, hi: u8, keep: u8) -> u8 {
    ((lo >> ((6 - keep) as u8)) & (((1u8 << keep) - 1) as u8)) | (hi << keep)
}

/// The low `shift` bits of a spliced byte are the high bits of `lo`, and
/// the others are the low bits of `hi`.
proof fn lemma_splice_bit(lo: u8, hi: u8, shift: u8, k: u8)
    by (bit_vector)
    requires
        0 < shift < 8,
        k < 8,
    ensures
        bit(splice_spec(lo, hi, shift), k) == if k < shift {
            bit(lo, (8 - shift + k) as u8)
        } else {
            bit(hi, (k - shift) as u8)
        },
{
}

/// The low `keep` bits of a byte spliced over a gap are the bits of `lo`
/// that end below its two highest, and the others are the low bits of `hi`.
proof fn lemma_splice_over_gap_bit(lo: u8, hi: u8, keep: u8, k: u8)
    by (bit_vector)
    requires
        keep == 2 || keep == 4 || keep == 6,
        k < 8,
    ensures
        bit(splice_over_gap_spec(lo, hi, keep), k) == if k < keep {
            bit(lo, (6 - keep + k) as u8)
        } else {
            bit(hi, (k - keep) as u8)
        },
{
}

/// Masking with `0x3f` keeps the six low bits and clears the two high ones;
/// the zero byte has no bit set.
proof fn lemma_low_six_bits(byte: u8, k: u8)
    by (bit_vector)
    requires
        k < 8,
    ensures
        bit(byte & 0x3f, k) == (k < 6 && bit(byte, k)),
        !bit(0u8, k),
{
}

/// A byte is made of its own bits.
proof fn lemma_byte_from_its_bits(byte: u8)
    by (bit_vector)
    ensures
        byte_from(
            bit(byte, 0),
            bit(byte, 1),
            bit(byte, 2),
            bit(byte, 3),
            bit(byte, 4),
            bit(byte, 5),
            bit(byte, 6),
            bit(byte, 7),
        ) == byte,
{
}

/// The byte that is made of some bits has those bits.
proof fn lemma_bits_of_byte_from(
    b0: bool,
    b1: bool,
    b2: bool,
    b3: bool,
    b4: bool,
    b5: bool,
    b6: bool,
    b7: bool,
)
    by (bit_vector)
    ensures
        bit(byte_from(b0, b1, b2, b3, b4, b5, b6, b7), 0) == b0,
        bit(byte_from(b0, b1, b2, b3, b4, b5, b6, b7), 1) == b1,
        bit(byte_from(b0, b1, b2, b3, b4, b5, b6, b7), 2) == b2,
        bit(byte_from(b0, b1, b2, b3, b4, b5, b6, b7), 3) == b3,
        bit(byte_from(b0, b1, b2, b3, b4, b5, b6, b7), 4) == b4,
        bit(byte_from(b0, b1, b2, b3, b4, b5, b6, b7), 5) == b5,
        bit(byte_from(b0, b1, b2, b3, b4, b5, b6, b7), 6) == b6,
        bit(byte_from(b0, b1, b2, b3, b4, b5, b6, b7), 7) == b7,
{
}

/// A byte is the byte of its bits.
pub proof fn lemma_byte_by_bits(byte: u8, bits: spec_fn(int) -> bool)
    requires
        forall|k: int| 0 <= k < 8 ==> bit(byte, k as u8) == #[trigger] bits(k),
    ensures
        byte == byte_of_bits(bits),
{
    lemma_byte_from_its_bits(byte);
    assert(bit(byte, 0) == bits(0));
    assert(bit(byte, 1) == bits(1));
    assert(bit(byte, 2) == bits(2));
    assert(bit(byte, 3) == bits(3));
    assert(bit(byte, 4) == bits(4));
    assert(bit(byte, 5) == bits(5));
    assert(bit(byte, 6) == bits(6));
    assert(bit(byte, 7) == bits(7));
}

/// The bits of the byte of some bits are those bits.
pub proof fn lemma_bit_of_byte_of_bits(bits: spec_fn(int) -> bool, k: int)
    requires
        0 <= k < 8,
    ensures
        bit(byte_of_bits(bits), k as u8) == bits(k),
{
    lemma_bits_of_byte_from(
        bits(0),
        bits(1),
        bits(2),
        bits(3),
        bits(4),
        bits(5),
        bits(6),
        bits(7),
    );
}

/// The byte that `write_padded` makes of the source bytes `lo` and `hi`
/// for the place `index` of its output.
pub open spec fn padded_from(lo: u8, hi: u8, index: int) -> u8 {
    let shift = 2 * ((index % 128) / 32);
    let whole = if shift == 0 {
        hi
    } else {
        splice_spec(lo, hi, shift as u8)
    };
    if index % 32 == 31 {
        whole & 0x3f
    } else {
        whole
    }
}

/// The byte that `write_unpadded` makes of the padded bytes `lo` and `hi`
/// for the place `index` of the unpadded bytes.
pub open spec fn unpadded_from(lo: u8, hi: u8, index: int) -> u8 {
    let word = (index % 127) / 32;
    if (index % 127) % 32 < 31 {
        if word == 0 {
            lo
        } else {
            splice_spec(lo, hi, (8 - 2 * word) as u8)
        }
    } else {
        splice_over_gap_spec(lo, hi, (6 - 2 * word) as u8)
    }
}

/// Where bit `8 * index + k` of the padded form comes from: the bit that
/// lies `2 * word` bits before bit `k` of the source byte at
/// `index - index / 128`, where `word` counts the words that the 128 bytes
/// around `index` hold before it.
proof fn lemma_padded_bit_place(index: int, k: int)
    requires
        0 <= index,
        0 <= k < 8,
    ensures
        (8 * index + k) % 256 == 8 * (index % 32) + k,
        254 * ((8 * index + k) / 256) + (8 * index + k) % 256 == 8 * (index - index / 128) - 2 * ((
        index % 128) / 32) + k,
{
    let p = 8 * index + k;
    assert(p / 256 == index / 32);
    assert(index / 32 == 4 * (index / 128) + (index % 128) / 32);
}

/// Bit `k` of the byte that is made for the place `index` is bit
/// `8 * index + k` of the padded form.
proof fn lemma_padded_bit_made(source: Seq<u8>, index: int, lo: u8, hi: u8, k: int)
    requires
        0 <= index,
        0 <= k < 8,
        index - index / 128 <= source.len(),
        hi == (if index - index / 128 < source.len() {
            source[index - index / 128]
        } else {
            0u8
        }),
        index % 128 >= 32 ==> lo == source[index - index / 128 - 1],
    ensures
        bit(padded_from(lo, hi, index), k as u8) == padded_bit(source, 8 * index + k),
{
    let at = index - index / 128;
    let shift = 2 * ((index % 128) / 32);
    let whole = if shift == 0 {
        hi
    } else {
        splice_spec(lo, hi, shift as u8)
    };
    let p = 8 * index + k;
    let i = 8 * at - shift + k;
    lemma_padded_bit_place(index, k);
    lemma_low_six_bits(whole, k as u8);
    if shift > 0 {
        lemma_splice_bit(lo, hi, shift as u8, k as u8);
    }
    if index % 32 == 31 && k >= 6 {
    } else if k >= shift {
        assert(i / 8 == at && i % 8 == k - shift);
        lemma_low_six_bits(hi, (k - shift) as u8);
    } else {
        assert(i / 8 == at - 1 && i % 8 == 8 - shift + k);
    }
}

/// Byte `index` of the padded form is made of the source byte at
/// `index - index / 128`, and of the one before it.
proof fn lemma_padded_byte(source: Seq<u8>, index: int, lo: u8, hi: u8)
    requires
        0 <= index,
        index - index / 128 <= source.len(),
        hi == (if index - index / 128 < source.len() {
            source[index - index / 128]
        } else {
            0u8
        }),
        index % 128 >= 32 ==> lo == source[index - index / 128 - 1],
    ensures
        padded_from(lo, hi, index) == padded_byte(source, index),
{
    let bits = |k: int| padded_bit(source, 8 * index + k);
    assert forall|k: int| 0 <= k < 8 implies bit(padded_from(lo, hi, index), k as u8)
        == #[trigger] bits(k) by {
        lemma_padded_bit_made(source, index, lo, hi, k);
    }
    lemma_byte_by_bits(padded_from(lo, hi, index), bits);
}

/// Byte `index` of the unpadded form is made of the padded byte at
/// `index + index / 127`, and of the one after it.
proof fn lemma_unpadded_byte(padded: Seq<u8>, index: int, lo: u8, hi: u8)
    requires
        0 <= index,
        index + index / 127 + 1 < padded.len(),
        lo == padded[index + index / 127],
        hi == padded[index + index / 127 + 1],
    ensures
        unpadded_from(lo, hi, index) == unpadded_byte(padded, index),
{
    let at = index + index / 127;
    let within = index % 127;
    let word = within / 32;
    let byte = unpadded_from(lo, hi, index);
    let bits = |k: int| unpadded_bit(padded, 8 * index + k);
    assert forall|k: int| 0 <= k < 8 implies bit(byte, k as u8) == #[trigger] bits(k) by {
        let i = 8 * index + k;
        let q = 256 * (i / 254) + i % 254;
        let inner = 8 * within + k;
        assert(i == 254 * (4 * (index / 127)) + inner);
        if within % 32 < 31 {
            assert(inner == 254 * word + (2 * word + 8 * (within % 32) + k));
            assert(i / 254 == 4 * (index / 127) + word);
            assert(i % 254 == 2 * word + 8 * (within % 32) + k);
            assert(q == 8 * at + 2 * word + k);
            if word > 0 {
                lemma_splice_bit(lo, hi, (8 - 2 * word) as u8, k as u8);
            }
            if k < 8 - 2 * word {
                assert(q / 8 == at && q % 8 == 2 * word + k);
            } else {
                assert(q / 8 == at + 1 && q % 8 == 2 * word + k - 8);
            }
        } else {
            let keep = 6 - 2 * word;
            lemma_splice_over_gap_bit(lo, hi, keep as u8, k as u8);
            if k < keep {
                assert(inner == 254 * word + (2 * word + 248 + k));
                assert(i / 254 == 4 * (index / 127) + word);
                assert(i % 254 == 2 * word + 248 + k);
                assert(q == 8 * at + 2 * word + k);
                assert(q / 8 == at && q % 8 == 2 * word + k);
            } else {
                assert(inner == 254 * (word + 1) + (k - keep));
                assert(i / 254 == 4 * (index / 127) + word + 1);
                assert(i % 254 == k - keep);
                assert(q == 8 * (at + 1) + (k - keep));
                assert(q / 8 == at + 1 && q % 8 == k - keep);
            }
        }
    }
    lemma_byte_by_bits(byte, bits);
}

/// The bits of the padded form, without the two that end every 256, are
/// the bits of what was padded.
pub proof fn lemma_unpadded_bit_of_padded(source: Seq<u8>, index: int)
    requires
        0 <= index < 8 * source.len(),
    ensures
        unpadded_bit(padded(source), index) == bit_of(source, index),
{
    let q = 256 * (index / 254) + index % 254;
    let whole = padded(source);
    assert(q % 256 == index % 254);
    assert(q / 256 == index / 254);
    assert(q / 8 < padded_bytes(source.len()));
    assert(whole[q / 8] == padded_byte(source, q / 8));
    lemma_bit_of_byte_of_bits(|k: int| padded_bit(source, 8 * (q / 8) + k), q % 8);
}

/// Unpadding what was padded gives it back.
pub proof fn lemma_padding_round_trip(source: Seq<u8>)
    ensures
        unpadded(padded(source), 0, source.len()) == source,
{
    let back = unpadded(padded(source), 0, source.len());
    assert forall|index: int| 0 <= index < source.len() implies back[index] == source[index] by {
        let bits = |k: int| unpadded_bit(padded(source), 8 * index + k);
        assert forall|k: int| 0 <= k < 8 implies bit(source[index], k as u8) == #[trigger] bits(
            k,
        ) by {
            lemma_unpadded_bit_of_padded(source, 8 * index + k);
        }
        lemma_byte_by_bits(source[index], bits);
    }
    assert(back =~= source);
}

/// The two highest bits of every 32-byte word of the padded form are zero.
pub proof fn lemma_padded_words_are_field_elements(source: Seq<u8>, word: int)
    requires
        0 <= word,
        32 * word + 31 < padded(source).len(),
    ensures
        padded(source)[32 * word + 31] & 0xc0 == 0,
{
    let index = 32 * word + 31;
    let bits = |k: int| padded_bit(source, 8 * index + k);
    lemma_bit_of_byte_of_bits(bits, 6);
    lemma_bit_of_byte_of_bits(bits, 7);
    assert((8 * index + 6) % 256 == 254);
    assert((8 * index + 7) % 256 == 255);
    let byte = padded(source)[index];
    assert(byte & 0xc0 == 0) by (bit_vector)
        requires
            !bit(byte, 6),
            !bit(byte, 7),
    ;
}

/// Joins the high bits of `lo` and the low bits of `hi` into the byte that
/// starts `8 - shift` bits into `lo`.
fn splice(lo: u8, hi: u8, shift: u8) -> (byte: u8)
    requires
        0 < shift < 8,
    ensures
        byte == splice_spec(lo, hi, shift),
{
    (lo >> (8 - shift)) | (hi << shift)
}

/// Joins `keep` bits of `lo` below its two highest and the low bits of `hi`
/// into one byte.
fn splice_over_gap(lo: u8, hi: u8, keep: u8) -> (byte: u8)
    requires
        keep == 2 || keep == 4 || keep == 6,
    ensures
        byte == splice_over_gap_spec(lo, hi, keep),
{
    assert((1u8 << keep) >= 1) by (bit_vector)
        requires
            keep == 2 || keep == 4 || keep == 6,
    ;
    ((lo >> (6 - keep)) & ((1u8 << keep) - 1)) | (hi << keep)
}

/// Pads `source`: every 127 bytes become 128, and what is left at the end
/// takes as many bytes more as it has, and one.
pub fn write_padded(source: &[u8]) -> (target: Vec<u8>)
    requires
        padded_bytes(source@.len()) <= usize::MAX,
    ensures
        target@ == padded(source@),
{
    let n = source.len();
    let total = n + (n / 127 + if n % 127 != 0 {
        1
    } else {
        0
    });
    let mut target: Vec<u8> = Vec::new();
    let mut index: usize = 0;
    while index < total
        invariant
            n == source@.len(),
            total == padded_bytes(source@.len()),
            index <= total,
            target@.len() == index,
            forall|i: int| 0 <= i < index ==> target@[i] == padded_byte(source@, i),
        decreases total - index,
    {
        let at = index - index / 128;
        let shift = (2 * ((index % 128) / 32)) as u8;
        let hi = if at < n {
            source[at]
        } else {
            0
        };
        let lo = if shift > 0 {
            source[at - 1]
        } else {
            0
        };
        let whole = if shift == 0 {
            hi
        } else {
            splice(lo, hi, shift)
        };
        let byte = if index % 32 == 31 {
            whole & 0x3f
        } else {
            whole
        };
        proof {
            lemma_padded_byte(source@, index as int, lo, hi);
        }
        target.push(byte);
        index += 1;
    }
    assert(target@ =~= padded(source@));
    target
}

/// Whether `source` ends before the padded form of `offset + len` bytes
/// does, of which some are asked for.
pub open spec fn is_short(source: Seq<u8>, offset: nat, len: nat) -> bool {
    len > 0 && source.len() < padded_bytes(offset + len)
}

/// Takes the padding out of `source` and gives the `len` bytes from
/// `offset` of what it was the padded form of.
///
/// Fails when `source` ends before the bytes that are asked for.
pub fn write_unpadded(source: &[u8], offset: usize, len: usize) -> (result: Result<Vec<u8>, Error>)
    ensures
        match result {
            Ok(target) => !is_short(source@, offset as nat, len as nat) && target@ == unpadded(
                source@,
                offset as nat,
                len as nat,
            ),
            Err(error) => is_short(source@, offset as nat, len as nat) && error
                == Error::ShortRead,
        },
{
    let available = source.len();
    let mut target: Vec<u8> = Vec::new();
    if len == 0 {
        assert(target@ =~= unpadded(source@, offset as nat, len as nat));
        return Ok(target);
    }
    let end = match offset.checked_add(len) {
        Some(end) => end,
        None => {
            return Err(Error::ShortRead);
        },
    };
    let extra = end / 127 + if end % 127 != 0 {
        1
    } else {
        0
    };
    let needed = match end.checked_add(extra) {
        Some(needed) => needed,
        None => {
            return Err(Error::ShortRead);
        },
    };
    if available < needed {
        return Err(Error::ShortRead);
    }
    let mut index: usize = offset;
    while index < end
        invariant
            offset <= index <= end,
            end == offset + len,
            padded_bytes(end as nat) <= source@.len() == available,
            target@.len() == index - offset,
            forall|i: int|
                0 <= i < index - offset ==> target@[i] == unpadded_byte(source@, offset + i),
        decreases end - index,
    {
        let at = index + index / 127;
        let within = index % 127;
        let word = (within / 32) as u8;
        let lo = source[at];
        let hi = source[at + 1];
        let byte = if within % 32 < 31 {
            if word == 0 {
                lo
            } else {
                splice(lo, hi, 8 - 2 * word)
            }
        } else {
            splice_over_gap(lo, hi, 6 - 2 * word)
        };
        proof {
            lemma_unpadded_byte(source@, index as int, lo, hi);
        }
        target.push(byte);
        index += 1;
    }
    assert(target@ =~= unpadded(source@, offset as nat, len as nat));
    Ok(target)
}

} // verus!
