//! Where a piece goes in a sector.
//!
//! A piece is given the smallest slot of a piece size that holds it, and the
//! slot starts at a multiple of its own size. The tree over the slot is then
//! a sub-tree of the sector's tree, and the bytes before and after the piece
//! cannot change its root.

use crate::error::Error;
use crate::multiples::lemma_product_is_multiple;
use crate::piece_size::{
    align_up, is_piece_size, lemma_largest_piece_size, lemma_piece_size_for,
    lemma_piece_size_for_unique, lemma_piece_sizes_comparable, piece_size_for,
    LARGEST_PIECE_SIZE,
};
use crate::types::{UnpaddedByteIndex, UnpaddedBytesAmount, MINIMUM_PIECE_SIZE};
use vstd::arithmetic::div_mod::lemma_fundamental_div_mod;
use vstd::prelude::*;

verus! {

/// The zero bytes that go before and after a piece.
#[derive(Clone, Copy, Debug, PartialEq, Eq)]
pub struct PieceAlignment {
    pub left_bytes: UnpaddedBytesAmount,
    pub right_bytes: UnpaddedBytesAmount,
}

/// Bytes to skip after `written` bytes so that a piece of `piece` bytes
/// starts at a multiple of its slot.
pub open spec fn left_padding(written: nat, piece: nat) -> nat {
    let slot = piece_size_for(piece);
    if written % slot == 0 {
        0
    } else {
        (slot - written % slot) as nat
    }
}

/// Bytes that a piece of `piece` bytes leaves free at the end of its slot.
pub open spec fn right_padding(piece: nat) -> nat {
    (piece_size_for(piece) - piece) as nat
}

/// The byte after the last slot, when pieces of these sizes are placed one
/// after another, each in its slot.
pub open spec fn aligned_end(sizes: Seq<nat>) -> nat
    decreases sizes.len(),
{
    if sizes.len() == 0 {
        0
    } else {
        let written = aligned_end(sizes.drop_last());
        let piece = sizes.last();
        written + left_padding(written, piece) + piece + right_padding(piece)
    }
}

/// The byte counts of `pieces`, in order.
pub open spec fn amounts_of(pieces: Seq<UnpaddedBytesAmount>) -> Seq<nat> {
    Seq::new(pieces.len(), |i: int| pieces[i]@)
}

/// The padding puts a piece at the next multiple of its slot and fills the
/// slot: the piece starts at `align_up(written, slot)`, and the slot ends one
/// slot later.
pub proof fn lemma_alignment_fills_slot(written: nat, piece: nat)
    ensures
        written + left_padding(written, piece) == align_up(written, piece_size_for(piece)),
        (written + left_padding(written, piece)) % piece_size_for(piece) == 0,
        left_padding(written, piece) < piece_size_for(piece),
        piece + right_padding(piece) == piece_size_for(piece),
        written % piece_size_for(piece) == 0 ==> left_padding(written, piece) + piece
            + right_padding(piece) == piece_size_for(piece),
{
    let slot = piece_size_for(piece);
    lemma_piece_size_for(piece);
    if written % slot != 0 {
        let before = written / slot;
        lemma_fundamental_div_mod(written as int, slot as int);
        assert(slot * (before + 1) == slot * before + slot) by (nonlinear_arith);
        lemma_product_is_multiple(slot, before + 1);
    }
}

/// A piece of the smallest size leaves nothing free after it, and needs no
/// bytes before it exactly when what was written is a multiple of 127.
pub proof fn lemma_minimum_piece_alignment(written: nat)
    ensures
        right_padding(MINIMUM_PIECE_SIZE as nat) == 0,
        left_padding(written, MINIMUM_PIECE_SIZE as nat) == 0 <==> written % (
        MINIMUM_PIECE_SIZE as nat) == 0,
{
}

/// The end of a layout does not move back when pieces are added.
pub proof fn lemma_aligned_end_grows(sizes: Seq<nat>, n: int)
    requires
        0 <= n <= sizes.len(),
    ensures
        aligned_end(sizes.take(n)) <= aligned_end(sizes),
    decreases sizes.len() - n,
{
    if n == sizes.len() {
        assert(sizes.take(n) =~= sizes);
    } else {
        lemma_aligned_end_grows(sizes, n + 1);
        assert(sizes.take(n + 1).drop_last() =~= sizes.take(n));
        lemma_piece_size_for(sizes[n]);
    }
}

impl PieceAlignment {
    /// The bytes that a piece of `piece_size` bytes takes with its padding.
    pub fn sum(&self, piece_size: UnpaddedBytesAmount) -> (total: UnpaddedBytesAmount)
        requires
            self.left_bytes@ + piece_size@ + self.right_bytes@ <= u64::MAX,
        ensures
            total@ == self.left_bytes@ + piece_size@ + self.right_bytes@,
    {
        UnpaddedBytesAmount(self.left_bytes.0 + piece_size.0 + self.right_bytes.0)
    }
}

/// Given a number of bytes already written to a staged sector (ignoring bit
/// padding) and a number of bytes (before bit padding) to be added, return
/// the alignment required to create a piece whose slot is the sector size
/// divided by a power of two, with sufficient left padding to ensure simple
/// merkle proof construction.
pub fn get_piece_alignment(
    written_bytes: UnpaddedBytesAmount,
    piece_bytes: UnpaddedBytesAmount,
) -> (alignment: PieceAlignment)
    requires
        piece_bytes@ <= LARGEST_PIECE_SIZE,
    ensures
        alignment.left_bytes@ == left_padding(written_bytes@, piece_bytes@),
        alignment.right_bytes@ == right_padding(piece_bytes@),
        (written_bytes@ + alignment.left_bytes@) % piece_size_for(piece_bytes@) == 0,
        piece_bytes@ + alignment.right_bytes@ == piece_size_for(piece_bytes@),
        written_bytes@ % piece_size_for(piece_bytes@) == 0 ==> alignment.left_bytes@
            + piece_bytes@ + alignment.right_bytes@ == piece_size_for(piece_bytes@),
{
    let mut piece_bytes_needed: u64 = MINIMUM_PIECE_SIZE;
    proof {
        lemma_piece_size_for(piece_bytes@);
        lemma_largest_piece_size(piece_bytes@);
    }

    // The next power of two multiple that will fully contain the piece's
    // data, so that its root is not affected by preceding or following
    // pieces.
    while piece_bytes_needed < piece_bytes.0
        invariant
            is_piece_size(piece_bytes_needed as nat),
            piece_bytes_needed == MINIMUM_PIECE_SIZE || piece_bytes_needed < 2 * piece_bytes.0,
            piece_bytes_needed <= piece_size_for(piece_bytes@) <= u64::MAX,
        decreases piece_size_for(piece_bytes@) - piece_bytes_needed,
    {
        proof {
            lemma_piece_size_for(piece_bytes@);
            lemma_piece_sizes_comparable(
                piece_bytes_needed as nat,
                piece_size_for(piece_bytes@),
            );
            assert((2 * piece_bytes_needed) / 2 == piece_bytes_needed);
        }
        piece_bytes_needed = piece_bytes_needed * 2;
    }
    proof {
        lemma_piece_size_for_unique(piece_bytes@, piece_bytes_needed as nat);
        lemma_alignment_fills_slot(written_bytes@, piece_bytes@);
    }

    // The bytes being affected from the left of the piece by the previous
    // piece.
    let encroaching = written_bytes.0 % piece_bytes_needed;

    // The bytes to push from the left to ensure a clean piece merkle root.
    let left_bytes = if encroaching > 0 {
        piece_bytes_needed - encroaching
    } else {
        0
    };

    let right_bytes = piece_bytes_needed - piece_bytes.0;

    PieceAlignment {
        left_bytes: UnpaddedBytesAmount(left_bytes),
        right_bytes: UnpaddedBytesAmount(right_bytes),
    }
}

/// Given a list of pieces, sum the number of bytes taken by those pieces in
/// that order.
pub fn sum_piece_bytes_with_alignment(pieces: &[UnpaddedBytesAmount]) -> (total:
    UnpaddedBytesAmount)
    requires
        aligned_end(amounts_of(pieces@)) <= u64::MAX,
    ensures
        total@ == aligned_end(amounts_of(pieces@)),
{
    let ghost sizes = amounts_of(pieces@);
    let mut acc = UnpaddedBytesAmount(0);
    let mut i: usize = 0;
    while i < pieces.len()
        invariant
            i <= pieces.len(),
            sizes == amounts_of(pieces@),
            acc@ == aligned_end(sizes.take(i as int)),
            aligned_end(sizes) <= u64::MAX,
        decreases pieces.len() - i,
    {
        let piece_bytes = pieces[i];
        proof {
            lemma_aligned_end_grows(sizes, i + 1);
            assert(sizes.take(i + 1).drop_last() =~= sizes.take(i as int));
            lemma_piece_size_for(piece_bytes@);
            lemma_largest_piece_size(piece_bytes@);
        }
        let alignment = get_piece_alignment(acc, piece_bytes);
        acc = UnpaddedBytesAmount(acc.0 + alignment.sum(piece_bytes).0);
        i += 1;
    }
    assert(sizes.take(i as int) =~= sizes);
    acc
}

/// Given a list of pieces, sum the number of bytes taken by those pieces in
/// that order, if the sum fits in 64 bits.
pub fn try_sum_piece_bytes_with_alignment(pieces: &[UnpaddedBytesAmount]) -> (total: Option<
    UnpaddedBytesAmount,
>)
    ensures
        match total {
            Some(total) => total@ == aligned_end(amounts_of(pieces@)),
            None => aligned_end(amounts_of(pieces@)) > u64::MAX,
        },
{
    let ghost sizes = amounts_of(pieces@);
    let mut acc = UnpaddedBytesAmount(0);
    let mut i: usize = 0;
    while i < pieces.len()
        invariant
            i <= pieces.len(),
            sizes == amounts_of(pieces@),
            acc@ == aligned_end(sizes.take(i as int)),
        decreases pieces.len() - i,
    {
        let piece_bytes = pieces[i];
        proof {
            lemma_aligned_end_grows(sizes, i + 1);
            assert(sizes.take(i + 1).drop_last() =~= sizes.take(i as int));
            lemma_piece_size_for(piece_bytes@);
            lemma_largest_piece_size(piece_bytes@);
        }
        if piece_bytes.0 > LARGEST_PIECE_SIZE {
            return None;
        }
        let alignment = get_piece_alignment(acc, piece_bytes);
        let end = acc.0 as u128 + alignment.left_bytes.0 as u128 + piece_bytes.0 as u128
            + alignment.right_bytes.0 as u128;
        if end > u64::MAX as u128 {
            return None;
        }
        acc = UnpaddedBytesAmount(end as u64);
        i += 1;
    }
    assert(sizes.take(i as int) =~= sizes);
    Some(acc)
}

/// Given a list of pieces, find the byte where a given piece does or would
/// start.
pub fn get_piece_start_byte(
    pieces: &[UnpaddedBytesAmount],
    piece_bytes: UnpaddedBytesAmount,
) -> (start: UnpaddedByteIndex)
    requires
        piece_bytes@ <= LARGEST_PIECE_SIZE,
        aligned_end(amounts_of(pieces@)) + left_padding(
            aligned_end(amounts_of(pieces@)),
            piece_bytes@,
        ) <= u64::MAX,
    ensures
        start@ == aligned_end(amounts_of(pieces@)) + left_padding(
            aligned_end(amounts_of(pieces@)),
            piece_bytes@,
        ),
{
    // sum up all the bytes taken by the ordered pieces
    let last_byte = sum_piece_bytes_with_alignment(pieces);
    let alignment = get_piece_alignment(last_byte, piece_bytes);

    // add only the left padding of the target piece to give the start of
    // that piece's data
    UnpaddedByteIndex(last_byte.0 + alignment.left_bytes.0)
}

/// A read that asked for bytes got none, while the source still owes bytes
/// of the piece: the source has ended before the piece has.
pub open spec fn ends_early(owed: nat, asked: nat, got: nat) -> bool {
    got == 0 && asked > 0 && owed > 0
}

/// What the source of a piece still owes, after a read that asked for
/// `asked` bytes and got `got` of them, when it owed `owed` bytes before.
///
/// Fails when the source has ended and still owes bytes of the piece. What
/// the source gives beyond the piece is let through.
pub fn after_read(owed: u64, asked: usize, got: usize) -> (result: Result<u64, Error>)
    ensures
        match result {
            Ok(rest) => !ends_early(owed as nat, asked as nat, got as nat) && rest == if got
                >= owed {
                0
            } else {
                owed - got
            },
            Err(error) => ends_early(owed as nat, asked as nat, got as nat) && error
                == Error::UnderflowSource,
        },
{
    if got == 0 && asked > 0 && owed > 0 {
        return Err(Error::UnderflowSource);
    }
    if got as u64 >= owed {
        Ok(0)
    } else {
        Ok(owed - got as u64)
    }
}

/// `count` zero bytes.
pub open spec fn zero_bytes(count: nat) -> Seq<u8> {
    Seq::new(count, |i: int| 0u8)
}

/// The bytes of a piece with the zero bytes that its alignment asks for
/// before and after them.
pub open spec fn aligned_bytes(source: Seq<u8>, left: nat, right: nat) -> Seq<u8> {
    zero_bytes(left) + source + zero_bytes(right)
}

/// Appends `count` zero bytes to `bytes`.
fn push_zero_bytes(bytes: &mut Vec<u8>, count: u64)
    requires
        old(bytes)@.len() + count <= usize::MAX,
    ensures
        final(bytes)@ == old(bytes)@ + zero_bytes(count as nat),
{
    let mut done: u64 = 0;
    while done < count
        invariant
            done <= count,
            old(bytes)@.len() + count <= usize::MAX,
            bytes@ == old(bytes)@ + zero_bytes(done as nat),
        decreases count - done,
    {
        bytes.push(0u8);
        done += 1;
        assert(bytes@ =~= old(bytes)@ + zero_bytes(done as nat));
    }
}

/// Given an enumeration of pieces in a staged sector and a piece to be
/// added to the staged sector (its bytes, and the number of bytes it is said
/// to have), produce the bytes to write to the staged sector, which include
/// the appropriate amount of alignment bytes, their expected number, and the
/// alignment.
///
/// Fails when the source holds fewer bytes than the piece is said to have.
pub fn get_aligned_source(
    source: &[u8],
    pieces: &[UnpaddedBytesAmount],
    piece_bytes: UnpaddedBytesAmount,
) -> (result: Result<(UnpaddedBytesAmount, PieceAlignment, Vec<u8>), Error>)
    requires
        aligned_end(amounts_of(pieces@)) <= u64::MAX,
        piece_bytes@ <= LARGEST_PIECE_SIZE,
        left_padding(aligned_end(amounts_of(pieces@)), piece_bytes@) + piece_bytes@
            + right_padding(piece_bytes@) <= u64::MAX,
        left_padding(aligned_end(amounts_of(pieces@)), piece_bytes@) + source@.len()
            + right_padding(piece_bytes@) <= usize::MAX,
    ensures
        match result {
            Ok((expected, alignment, aligned)) => {
                &&& source@.len() >= piece_bytes@
                &&& alignment.left_bytes@ == left_padding(
                    aligned_end(amounts_of(pieces@)),
                    piece_bytes@,
                )
                &&& alignment.right_bytes@ == right_padding(piece_bytes@)
                &&& expected@ == alignment.left_bytes@ + piece_bytes@ + alignment.right_bytes@
                &&& aligned@ == aligned_bytes(
                    source@,
                    alignment.left_bytes@,
                    alignment.right_bytes@,
                )
            },
            Err(error) => source@.len() < piece_bytes@ && error == Error::UnderflowSource,
        },
{
    let written_bytes = sum_piece_bytes_with_alignment(pieces);
    let piece_alignment = get_piece_alignment(written_bytes, piece_bytes);
    let expected_num_bytes_written = piece_alignment.sum(piece_bytes);

    if (source.len() as u64) < piece_bytes.0 {
        return Err(Error::UnderflowSource);
    }
    let mut aligned: Vec<u8> = Vec::new();
    push_zero_bytes(&mut aligned, piece_alignment.left_bytes.0);
    let mut i: usize = 0;
    while i < source.len()
        invariant
            i <= source.len(),
            piece_alignment.left_bytes@ + source@.len() + piece_alignment.right_bytes@
                <= usize::MAX,
            aligned@ == zero_bytes(piece_alignment.left_bytes@) + source@.take(i as int),
        decreases source.len() - i,
    {
        aligned.push(source[i]);
        i += 1;
        assert(aligned@ =~= zero_bytes(piece_alignment.left_bytes@) + source@.take(i as int));
    }
    assert(source@.take(i as int) =~= source@);
    push_zero_bytes(&mut aligned, piece_alignment.right_bytes.0);

    Ok((expected_num_bytes_written, piece_alignment, aligned))
}

} // verus!
