//! The tree of a sector.
//!
//! Pieces lie in a sector one after another, each at the next multiple of
//! its own size; what lies between and after them is zero. The commitment
//! of any aligned part of the sector is the root of the binary tree over it:
//! the commitment of the piece that fills the part if one does, else the
//! parent of the commitments of its two halves, down to the smallest piece
//! size, where a part that no piece fills holds zero bytes only.

use crate::alignment::{aligned_end, left_padding, right_padding};
use crate::hasher::{piece_hash_spec, zero_root};
use crate::piece_size::{is_piece_size, lemma_piece_size_for_piece_size, piece_size_for};
use crate::types::{sizes_of, PieceModel, MINIMUM_PIECE_SIZE};
use vstd::arithmetic::div_mod::lemma_small_mod;
use vstd::prelude::*;

verus! {

/// Every piece holds a power of two times 127 bytes.
pub open spec fn all_piece_sizes(pieces: Seq<PieceModel>) -> bool {
    forall|i: int| 0 <= i < pieces.len() ==> is_piece_size(#[trigger] pieces[i].size)
}

/// The byte after the slot of the last of `pieces`.
pub open spec fn layout_end(pieces: Seq<PieceModel>) -> nat {
    aligned_end(sizes_of(pieces))
}

/// Where a piece of `size` bytes starts when it follows `pieces`.
pub open spec fn next_start(pieces: Seq<PieceModel>, size: nat) -> nat {
    layout_end(pieces) + left_padding(layout_end(pieces), size)
}

/// The piece that fills exactly the `size` bytes from `offset`, if one of
/// `pieces` does.
pub open spec fn piece_at(pieces: Seq<PieceModel>, offset: nat, size: nat) -> Option<PieceModel>
    decreases pieces.len(),
{
    if pieces.len() == 0 {
        None
    } else if pieces.last().size == size && next_start(pieces.drop_last(), size) == offset {
        Some(pieces.last())
    } else {
        piece_at(pieces.drop_last(), offset, size)
    }
}

/// The commitment of `size` zero bytes, for a piece size.
pub open spec fn zero_commitment(size: nat) -> Seq<u8>
    decreases size,
{
    if size <= MINIMUM_PIECE_SIZE {
        zero_root(2)
    } else {
        let half = zero_commitment(size / 2);
        piece_hash_spec(half, half)
    }
}

/// The all-zero piece of `size` bytes.
pub open spec fn zero_piece(size: nat) -> PieceModel {
    PieceModel { commitment: zero_commitment(size), size }
}

/// The commitment of the `size` bytes from `offset` of the sector that
/// holds `pieces`.
pub open spec fn tree_root(pieces: Seq<PieceModel>, offset: nat, size: nat) -> Seq<u8>
    decreases size,
{
    match piece_at(pieces, offset, size) {
        Some(piece) => piece.commitment,
        None => if size <= MINIMUM_PIECE_SIZE {
            zero_root(2)
        } else {
            piece_hash_spec(
                tree_root(pieces, offset, size / 2),
                tree_root(pieces, offset + size / 2, size / 2),
            )
        },
    }
}

/// The commitment of the sector that holds `pieces`: the root of the
/// smallest tree that spans them all.
pub open spec fn sector_root(pieces: Seq<PieceModel>) -> Seq<u8> {
    tree_root(pieces, 0, piece_size_for(layout_end(pieces)))
}

/// The layout of `pieces` ends one slot after the start of the last piece.
pub proof fn lemma_layout_end_unfold(pieces: Seq<PieceModel>)
    requires
        pieces.len() > 0,
    ensures
        layout_end(pieces) == next_start(pieces.drop_last(), pieces.last().size)
            + pieces.last().size + right_padding(pieces.last().size),
        layout_end(pieces.drop_last()) <= next_start(pieces.drop_last(), pieces.last().size),
{
    assert(sizes_of(pieces).drop_last() =~= sizes_of(pieces.drop_last()));
}

/// A piece of a piece size that follows `pieces` ends the layout where it
/// ends itself.
pub proof fn lemma_layout_end_push(pieces: Seq<PieceModel>, piece: PieceModel)
    requires
        is_piece_size(piece.size),
    ensures
        layout_end(pieces.push(piece)) == next_start(pieces, piece.size) + piece.size,
{
    let all = pieces.push(piece);
    assert(all.drop_last() =~= pieces);
    lemma_layout_end_unfold(all);
    lemma_piece_size_for_piece_size(piece.size);
}

/// A piece that fills a part of the sector lies before the end of the
/// layout.
pub proof fn lemma_piece_at_within(pieces: Seq<PieceModel>, offset: nat, size: nat)
    requires
        piece_at(pieces, offset, size) is Some,
    ensures
        offset + size <= layout_end(pieces),
    decreases pieces.len(),
{
    lemma_layout_end_unfold(pieces);
    if !(pieces.last().size == size && next_start(pieces.drop_last(), size) == offset) {
        lemma_piece_at_within(pieces.drop_last(), offset, size);
    }
}

/// What lies after the end of the layout is zero.
pub proof fn lemma_tree_root_after_end(pieces: Seq<PieceModel>, offset: nat, size: nat)
    requires
        layout_end(pieces) <= offset,
        size > 0,
    ensures
        tree_root(pieces, offset, size) == zero_commitment(size),
    decreases size,
{
    if piece_at(pieces, offset, size) is Some {
        lemma_piece_at_within(pieces, offset, size);
    }
    if size > MINIMUM_PIECE_SIZE {
        lemma_tree_root_after_end(pieces, offset, size / 2);
        lemma_tree_root_after_end(pieces, offset + size / 2, size / 2);
    }
}

/// A piece that is added to a sector leaves the commitment of what lies
/// before it as it was.
pub proof fn lemma_tree_root_before_piece(
    pieces: Seq<PieceModel>,
    piece: PieceModel,
    offset: nat,
    size: nat,
)
    requires
        offset + size <= next_start(pieces, piece.size),
        piece.size > 0,
    ensures
        tree_root(pieces.push(piece), offset, size) == tree_root(pieces, offset, size),
    decreases size,
{
    let all = pieces.push(piece);
    assert(all.drop_last() =~= pieces);
    assert(piece_at(all, offset, size) == piece_at(pieces, offset, size));
    if size > MINIMUM_PIECE_SIZE {
        lemma_tree_root_before_piece(pieces, piece, offset, size / 2);
        lemma_tree_root_before_piece(pieces, piece, offset + size / 2, size / 2);
    }
}

/// A single piece is the whole tree: its commitment is the commitment of
/// the sector.
pub proof fn lemma_single_piece_root(piece: PieceModel)
    requires
        is_piece_size(piece.size),
    ensures
        sector_root(seq![piece]) == piece.commitment,
{
    let pieces = seq![piece];
    let none = Seq::<PieceModel>::empty();
    assert(pieces.drop_last() =~= none);
    assert(sizes_of(none) =~= Seq::<nat>::empty());
    lemma_piece_size_for_piece_size(piece.size);
    lemma_layout_end_unfold(pieces);
    assert(layout_end(none) == 0);
    lemma_small_mod(0, piece.size);
    assert(next_start(none, piece.size) == 0);
    assert(piece_at(pieces, 0, piece.size) == Some(piece));
}

} // verus!
