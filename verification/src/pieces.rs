//! The commitment of a sector, computed from the commitments of its pieces.

use crate::alignment::{lemma_aligned_end_grows, lemma_alignment_fills_slot};
use crate::error::Error;
use crate::hasher::zero_root;
use crate::multiples::{lemma_multiple_of_multiple, lemma_multiples_meet};
use crate::piece_size::{
    is_piece_size, is_valid_piece_size, lemma_double_piece_size, lemma_largest_piece_size,
    lemma_piece_size_for, lemma_piece_size_for_is_least, lemma_piece_size_for_piece_size,
    lemma_piece_sizes_comparable, piece_size_for, LARGEST_PIECE_SIZE,
};
use crate::stack::{
    at_rest, can_reduce, join, lemma_reduce_fits_below, lemma_reduce_once_total,
    lemma_reduced_length, reduce_fits, reduce_once, reduced, total_size,
};
use crate::tiling::{
    lemma_at_rest_single, lemma_offset_bound, lemma_shift_reduce_piece,
    lemma_shift_reduce_zero, lemma_total_is_multiple, offset_of, tiles,
};
use crate::tree::{
    all_piece_sizes, layout_end, lemma_layout_end_push, next_start, sector_root,
    zero_commitment, zero_piece,
};
use crate::types::{
    models_of, padded_bytes, sizes_of, unpadded_bytes, Commitment, PieceInfo, PieceModel,
    SectorSize, UnpaddedBytesAmount, MINIMUM_PIECE_SIZE,
};
use vstd::prelude::*;

pub use crate::alignment::{
    get_aligned_source, get_piece_alignment, get_piece_start_byte,
    sum_piece_bytes_with_alignment, PieceAlignment,
};
pub use crate::hasher::piece_hash;
pub use crate::stack::{join_piece_infos, Stack};

verus! {

/// The padded bytes that pieces of these sizes take together.
pub open spec fn padded_total(sizes: Seq<nat>) -> nat
    decreases sizes.len(),
{
    if sizes.len() == 0 {
        0
    } else {
        padded_total(sizes.drop_last()) + padded_bytes(sizes.last())
    }
}

/// Why `pieces` are refused for a sector of `sector` padded bytes, if they
/// are.
pub open spec fn rejection(sector: nat, pieces: Seq<PieceModel>) -> Option<Error> {
    if pieces.len() == 0 {
        Some(Error::MissingPieces)
    } else if pieces.len() > unpadded_bytes(sector) / (MINIMUM_PIECE_SIZE as nat) {
        Some(Error::TooManyPieces)
    } else if padded_total(sizes_of(pieces)) > sector {
        Some(Error::PieceOverflow)
    } else if !all_piece_sizes(pieces) {
        Some(Error::NonPow2Piece)
    } else {
        None
    }
}

/// The commitment of the sector of `sector` padded bytes that holds
/// `pieces`, or why there is none.
pub open spec fn comm_d(sector: nat, pieces: Seq<PieceModel>) -> Result<Seq<u8>, Error> {
    match rejection(sector, pieces) {
        Some(error) => Err(error),
        None => Ok(sector_root(pieces)),
    }
}

/// Whether `claimed` is the commitment of the sector that holds `pieces`,
/// or why that sector has none.
pub open spec fn verified(claimed: Seq<u8>, pieces: Seq<PieceModel>, sector: nat) -> Result<
    bool,
    Error,
> {
    match comm_d(sector, pieces) {
        Ok(root) => Ok(root == claimed),
        Err(error) => Err(error),
    }
}

/// The commitment that is computed for a sector is verified for it.
pub proof fn lemma_computed_commitment_verifies(sector: nat, pieces: Seq<PieceModel>)
    requires
        comm_d(sector, pieces) is Ok,
    ensures
        verified(comm_d(sector, pieces)->Ok_0, pieces, sector) == Ok::<bool, Error>(true),
{
}

/// A single piece of a piece size that the sector has room for is the
/// sector's whole tree: the commitment of the sector is the piece's own, and
/// no zero piece is added.
pub proof fn lemma_single_piece_commitment(sector: nat, piece: PieceModel)
    requires
        is_piece_size(piece.size),
        MINIMUM_PIECE_SIZE <= unpadded_bytes(sector),
        padded_bytes(piece.size) <= sector,
    ensures
        comm_d(sector, seq![piece]) == Ok::<Seq<u8>, Error>(piece.commitment),
{
    let pieces = seq![piece];
    assert(sizes_of(pieces).drop_last() =~= Seq::<nat>::empty());
    assert(padded_total(sizes_of(pieces).drop_last()) == 0);
    crate::tree::lemma_single_piece_root(piece);
}

/// In the smallest sector, the commitment of the piece of 127 bytes that
/// fills it is the commitment of the sector: no level of zero pieces is put
/// on top of it.
pub proof fn lemma_smallest_sector_commitment(piece: PieceModel)
    requires
        piece.size == MINIMUM_PIECE_SIZE,
    ensures
        comm_d(128, seq![piece]) == Ok::<Seq<u8>, Error>(piece.commitment),
{
    lemma_single_piece_commitment(128, piece);
}

/// Pieces of piece sizes end no later than twice the bytes they hold, which
/// are 127 of every 128 of their padded bytes.
pub proof fn lemma_layout_end_bound(pieces: Seq<PieceModel>)
    requires
        all_piece_sizes(pieces),
    ensures
        64 * layout_end(pieces) <= 127 * padded_total(sizes_of(pieces)),
    decreases pieces.len(),
{
    if pieces.len() > 0 {
        let before = pieces.drop_last();
        let last = pieces.last();
        assert(sizes_of(pieces).drop_last() =~= sizes_of(before));
        assert(is_piece_size(last.size));
        assert forall|i: int| 0 <= i < before.len() implies is_piece_size(
            #[trigger] before[i].size,
        ) by {
            assert(before[i] == pieces[i]);
        }
        lemma_layout_end_bound(before);
        crate::tree::lemma_layout_end_unfold(pieces);
        lemma_piece_size_for_piece_size(last.size);
        lemma_alignment_fills_slot(layout_end(before), last.size);
        assert(is_piece_size(MINIMUM_PIECE_SIZE as nat));
        lemma_piece_sizes_comparable(MINIMUM_PIECE_SIZE as nat, last.size);
        assert(128 * last.size == 127 * padded_bytes(last.size));
    } else {
        assert(sizes_of(pieces) =~= Seq::<nat>::empty());
    }
}

/// The padded bytes of a list of pieces are at least those of its first
/// `n`.
proof fn lemma_padded_total_grows(sizes: Seq<nat>, n: int)
    requires
        0 <= n <= sizes.len(),
    ensures
        padded_total(sizes.take(n)) <= padded_total(sizes),
    decreases sizes.len() - n,
{
    if n == sizes.len() {
        assert(sizes.take(n) =~= sizes);
    } else {
        lemma_padded_total_grows(sizes, n + 1);
        assert(sizes.take(n + 1).drop_last() =~= sizes.take(n));
    }
}

/// The layout of a list of pieces ends no earlier than that of its first
/// `n`.
proof fn lemma_layout_end_grows(pieces: Seq<PieceModel>, n: int)
    requires
        0 <= n <= pieces.len(),
    ensures
        layout_end(pieces.take(n)) <= layout_end(pieces),
{
    assert(sizes_of(pieces).take(n) =~= sizes_of(pieces.take(n)));
    lemma_aligned_end_grows(sizes_of(pieces), n);
}

/// A stack at rest with one more entry of a piece size can be reduced in 64
/// bits if it then holds less than twice the largest piece size.
proof fn lemma_pushed_fits(stack: Seq<PieceModel>, entry: PieceModel)
    requires
        at_rest(stack),
        is_piece_size(entry.size),
        total_size(stack) + entry.size < 2 * LARGEST_PIECE_SIZE,
    ensures
        reduce_fits(stack.push(entry)),
{
    let pushed = stack.push(entry);
    assert(pushed.drop_last() =~= stack);
    assert forall|i: int| 0 <= i < pushed.len() implies is_piece_size(
        #[trigger] pushed[i].size,
    ) by {
        if i < stack.len() {
            assert(pushed[i] == stack[i]);
        }
    }
    lemma_reduce_fits_below(pushed);
}

/// The tree over pieces that are not refused is no larger than twice the
/// largest piece size.
proof fn lemma_root_size_bound(sector: nat, pieces: Seq<PieceModel>)
    requires
        rejection(sector, pieces) is None,
        sector <= u64::MAX,
    ensures
        is_piece_size(piece_size_for(layout_end(pieces))),
        layout_end(pieces) <= piece_size_for(layout_end(pieces)) <= 2 * LARGEST_PIECE_SIZE,
        layout_end(pieces) < 2 * LARGEST_PIECE_SIZE,
{
    lemma_layout_end_bound(pieces);
    lemma_piece_size_for(layout_end(pieces));
    lemma_largest_piece_size(0);
    lemma_double_piece_size(LARGEST_PIECE_SIZE as nat);
    lemma_piece_size_for_is_least(layout_end(pieces), 2 * (LARGEST_PIECE_SIZE as nat));
}

/// Create a padding `PieceInfo` of size `size`.
pub fn zero_padding(size: UnpaddedBytesAmount) -> (padding: PieceInfo)
    requires
        is_piece_size(size@),
    ensures
        padding@ == zero_piece(size@),
{
    let zero = [0u8; 32];
    assert(zero@ =~= crate::hasher::zero_node());
    let mut commitment = piece_hash(&zero, &zero);
    commitment = piece_hash(&commitment, &commitment);
    proof {
        reveal_with_fuel(zero_root, 3);
    }
    let mut covered: u64 = MINIMUM_PIECE_SIZE;
    while covered < size.0
        invariant
            is_piece_size(size@),
            is_piece_size(covered as nat),
            covered <= size.0,
            commitment@ == zero_commitment(covered as nat),
        decreases size.0 - covered,
    {
        proof {
            lemma_piece_sizes_comparable(covered as nat, size@);
            lemma_double_piece_size(covered as nat);
            assert((2 * covered) / 2 == covered);
        }
        commitment = piece_hash(&commitment, &commitment);
        covered = covered * 2;
    }
    PieceInfo { commitment, size }
}

/// Tells why `piece_infos` are refused for a sector of `sector_size`, if
/// they are.
fn check_pieces(sector_size: SectorSize, piece_infos: &[PieceInfo]) -> (refusal: Option<Error>)
    ensures
        refusal == rejection(sector_size@, models_of(piece_infos@)),
{
    let ghost pieces = models_of(piece_infos@);
    let ghost sizes = sizes_of(pieces);
    if piece_infos.len() == 0 {
        return Some(Error::MissingPieces);
    }
    let sector = sector_size.0;
    let unpadded_sector = sector_size.unpadded();
    if piece_infos.len() as u64 > unpadded_sector.0 / MINIMUM_PIECE_SIZE {
        return Some(Error::TooManyPieces);
    }
    // make sure the piece sizes are at most a sector size large

    let mut taken: u64 = 0;
    let mut i: usize = 0;
    while i < piece_infos.len()
        invariant
            i <= piece_infos.len(),
            pieces == models_of(piece_infos@),
            sizes == sizes_of(pieces),
            taken == padded_total(sizes.take(i as int)),
            taken <= sector,
            sector == sector_size@,
            0 < pieces.len() <= unpadded_bytes(sector_size@) / (MINIMUM_PIECE_SIZE as nat),
        decreases piece_infos.len() - i,
    {
        let size = piece_infos[i].size.0;
        let padded: u128 = size as u128 + (size as u128 + 126) / 127;
        proof {
            assert(sizes.take(i + 1).drop_last() =~= sizes.take(i as int));
            assert(sizes.take(i + 1).last() == size);
            lemma_padded_total_grows(sizes, i + 1);
        }
        if padded > (sector - taken) as u128 {
            return Some(Error::PieceOverflow);
        }
        taken = taken + padded as u64;
        i += 1;
    }
    assert(sizes.take(i as int) =~= sizes);

    let mut k: usize = 0;
    while k < piece_infos.len()
        invariant
            k <= piece_infos.len(),
            pieces == models_of(piece_infos@),
            forall|j: int| 0 <= j < k ==> is_piece_size(#[trigger] pieces[j].size),
            0 < pieces.len() <= unpadded_bytes(sector_size@) / (MINIMUM_PIECE_SIZE as nat),
            padded_total(sizes_of(pieces)) <= sector_size@,
        decreases piece_infos.len() - k,
    {
        if !is_valid_piece_size(piece_infos[k].size) {
            assert(!is_piece_size(pieces[k as int].size));
            return Some(Error::NonPow2Piece);
        }
        k += 1;
    }
    None
}

/// A stack at rest with one more entry, which reduces to a stack that
/// covers the sector and holds twice the largest piece size: it reduces to
/// one entry, which covers the whole tree.
proof fn lemma_whole_tree(stack: Seq<PieceModel>, entry: PieceModel, all: Seq<PieceModel>)
    requires
        stack.len() > 0,
        at_rest(stack),
        is_piece_size(entry.size),
        total_size(stack) + entry.size == 2 * LARGEST_PIECE_SIZE,
        total_size(stack) + entry.size <= piece_size_for(layout_end(all)) <= 2
            * LARGEST_PIECE_SIZE,
        at_rest(reduced(stack.push(entry))),
        tiles(reduced(stack.push(entry)), all),
        total_size(reduced(stack.push(entry))) == total_size(stack) + entry.size,
    ensures
        reduced(stack.push(entry)).len() == 1,
        stack.push(entry).len() >= 2,
        forall|j: int|
            0 <= j < stack.push(entry).len() ==> is_piece_size(
                #[trigger] stack.push(entry)[j].size,
            ),
        total_size(stack.push(entry)) == 2 * LARGEST_PIECE_SIZE,
        reduced(stack.push(entry))[0].commitment == sector_root(all),
{
    let pushed = stack.push(entry);
    let next = reduced(pushed);
    assert(pushed.drop_last() =~= stack);
    assert forall|j: int| 0 <= j < pushed.len() implies is_piece_size(
        #[trigger] pushed[j].size,
    ) by {
        if j < stack.len() {
            assert(pushed[j] == stack[j]);
        }
    }
    lemma_largest_piece_size(0);
    lemma_double_piece_size(LARGEST_PIECE_SIZE as nat);
    lemma_reduced_length(pushed);
    lemma_at_rest_single(next);
    assert(next.drop_last() =~= Seq::<PieceModel>::empty());
    assert(total_size(next.drop_last()) == 0);
    assert(next.take(0) =~= Seq::<PieceModel>::empty());
    assert(offset_of(next, 0) == 0);
}

/// Joins the entries of a stack that hold twice the largest piece size
/// together, and reduce to one entry, into the commitment of that entry.
///
/// The entry itself would hold more bytes than 64 bits can count, so the
/// last two entries are hashed without being joined on the stack.
fn join_to_root(stack: &mut Stack) -> (root: Commitment)
    requires
        old(stack)@.len() >= 2,
        forall|j: int|
            0 <= j < old(stack)@.len() ==> is_piece_size(#[trigger] old(stack)@[j].size),
        total_size(old(stack)@) == 2 * LARGEST_PIECE_SIZE,
        reduced(old(stack)@).len() == 1,
    ensures
        reduced(old(stack)@) == seq![
            PieceModel { commitment: root@, size: 2 * (LARGEST_PIECE_SIZE as nat) },
        ],
{
    while stack.len() > 2
        invariant
            stack@.len() >= 2,
            forall|j: int| 0 <= j < stack@.len() ==> is_piece_size(#[trigger] stack@[j].size),
            total_size(stack@) == 2 * LARGEST_PIECE_SIZE,
            reduced(stack@) == reduced(old(stack)@),
            reduced(stack@).len() == 1,
        decreases stack@.len(),
    {
        proof {
            let n = stack@.len() as int;
            let below = stack@.take(n - 2);
            let next = reduce_once(stack@);
            let top = stack@[n - 1].size;
            assert(can_reduce(stack@));
            lemma_reduce_once_total(stack@);
            assert(below.last() == stack@[n - 3]);
            assert(total_size(below) >= below.last().size);
            lemma_double_piece_size(stack@[n - 3].size);
            lemma_largest_piece_size(0);
            lemma_piece_sizes_comparable(top, LARGEST_PIECE_SIZE as nat);
            lemma_double_piece_size(top);
            assert forall|j: int| 0 <= j < next.len() implies is_piece_size(
                #[trigger] next[j].size,
            ) by {
                if j < n - 2 {
                    assert(next[j] == stack@[j]);
                }
            }
        }
        stack.reduce1();
    }
    let ghost last = stack@;
    let right = stack.pop();
    let left = stack.pop();
    proof {
        assert(last.len() == 2);
        assert(can_reduce(last));
        assert(last.drop_last().last() == last[0]);
        assert(last.take(0) =~= Seq::<PieceModel>::empty());
        assert(last.drop_last().drop_last() =~= Seq::<PieceModel>::empty());
        assert(total_size(last.drop_last().drop_last()) == 0);
        assert(total_size(last.drop_last()) == last[0].size);
        assert(total_size(last) == last[0].size + last[1].size);
        let root = join(last[0], last[1]);
        assert(reduce_once(last) =~= seq![root]);
        assert(!can_reduce(seq![root]));
        assert(reduced(seq![root]) == seq![root]);
    }
    piece_hash(&left.commitment, &right.commitment)
}

/// Computes the commitment of the sector that holds the given pieces, in
/// their order.
pub fn compute_comm_d(sector_size: SectorSize, piece_infos: &[PieceInfo]) -> (result: Result<
    Commitment,
    Error,
>)
    ensures
        match result {
            Ok(commitment) => comm_d(sector_size@, models_of(piece_infos@)) == Ok::<
                Seq<u8>,
                Error,
            >(commitment@),
            Err(error) => comm_d(sector_size@, models_of(piece_infos@)) == Err::<Seq<u8>, Error>(
                error,
            ),
        },
{
    if let Some(error) = check_pieces(sector_size, piece_infos) {
        return Err(error);
    }
    let ghost all = models_of(piece_infos@);
    let ghost root_size = piece_size_for(layout_end(all));
    proof {
        lemma_root_size_bound(sector_size@, all);
    }

    let mut stack = Stack::new();

    let first = piece_infos[0];
    proof {
        let none = Seq::<PieceModel>::empty();
        assert(sizes_of(none) =~= Seq::<nat>::empty());
        assert(all.take(1) =~= none.push(first@));
        assert(all[0] == first@);
        lemma_alignment_fills_slot(0, first@.size);
        assert(next_start(none, first@.size) == 0);
        lemma_shift_reduce_piece(none, none, first@);
        lemma_layout_end_push(none, first@);
        lemma_layout_end_grows(all, 1);
    }
    stack.shift(first);
    // The bytes that the stack holds: the last join may make them more than
    // 64 bits can count.
    let mut held: u128 = first.size.0 as u128;

    let mut i: usize = 1;
    while i < piece_infos.len()
        invariant
            1 <= i <= piece_infos.len(),
            all == models_of(piece_infos@),
            rejection(sector_size@, all) is None,
            all_piece_sizes(all),
            root_size == piece_size_for(layout_end(all)),
            layout_end(all) <= root_size <= 2 * LARGEST_PIECE_SIZE,
            layout_end(all) < 2 * LARGEST_PIECE_SIZE,
            at_rest(stack@),
            stack@.len() > 0,
            tiles(stack@, all.take(i as int)),
            total_size(stack@) == layout_end(all.take(i as int)),
            held == total_size(stack@),
        decreases piece_infos.len() - i,
    {
        let piece_info = piece_infos[i];
        let ghost done = all.take(i as int);
        let ghost piece = piece_info@;
        let ghost target = next_start(done, piece.size);
        proof {
            assert(all[i as int] == piece);
            assert(done.push(piece) =~= all.take(i + 1));
            lemma_layout_end_push(done, piece);
            lemma_layout_end_grows(all, i + 1);
            lemma_piece_size_for_piece_size(piece.size);
            lemma_alignment_fills_slot(layout_end(done), piece.size);
        }

        while stack.peek().size.0 < piece_info.size.0
            invariant
                is_piece_size(piece.size),
                piece == piece_info@,
                at_rest(stack@),
                stack@.len() > 0,
                tiles(stack@, done),
                total_size(stack@) <= target,
                target % piece.size == 0,
                target + piece.size < 2 * LARGEST_PIECE_SIZE,
                held == total_size(stack@),
            decreases target - total_size(stack@),
        {
            let padding = zero_padding(stack.peek().size);
            proof {
                let top = stack@.last().size;
                lemma_piece_sizes_comparable(top, piece.size);
                lemma_multiple_of_multiple(target, piece.size, 2 * top);
                lemma_shift_reduce_zero(stack@, done, target);
                lemma_pushed_fits(stack@, padding@);
            }
            stack.shift_reduce(padding);
            held = held + padding.size.0 as u128;
        }
        proof {
            lemma_total_is_multiple(stack@, piece.size);
            lemma_multiples_meet(total_size(stack@), target, piece.size);
            lemma_shift_reduce_piece(stack@, done, piece);
        }

        proof {
            lemma_pushed_fits(stack@, piece);
        }
        stack.shift_reduce(piece_info);
        held = held + piece_info.size.0 as u128;
        i += 1;
    }
    assert(all.take(i as int) =~= all);

    while stack.len() > 1
        invariant
            all == models_of(piece_infos@),
            rejection(sector_size@, all) is None,
            is_piece_size(root_size),
            root_size == piece_size_for(layout_end(all)),
            layout_end(all) <= root_size <= 2 * LARGEST_PIECE_SIZE,
            all_piece_sizes(all),
            at_rest(stack@),
            stack@.len() > 0,
            tiles(stack@, all),
            total_size(stack@) <= root_size,
            held == total_size(stack@),
        decreases root_size - total_size(stack@),
    {
        let padding = zero_padding(stack.peek().size);
        proof {
            let top = stack@.last().size;
            lemma_offset_bound(stack@, 0);
            assert(stack@.take(0) =~= Seq::<PieceModel>::empty());
            lemma_piece_sizes_comparable(top, root_size);
            lemma_shift_reduce_zero(stack@, all, root_size);
        }
        if held + padding.size.0 as u128 == 2 * (LARGEST_PIECE_SIZE as u128) {
            // The tree is twice the largest piece: its root is the parent
            // of what the stack then holds.
            let ghost pushed = stack@.push(padding@);
            proof {
                lemma_whole_tree(stack@, padding@, all);
            }
            stack.shift(padding);
            let root = join_to_root(&mut stack);
            assert(reduced(pushed)[0].commitment == root@);
            return Ok(root);
        }
        proof {
            lemma_pushed_fits(stack@, padding@);
        }
        stack.shift_reduce(padding);
        held = held + padding.size.0 as u128;
    }
    proof {
        let root = stack@.last();
        assert(stack@.len() == 1);
        assert(stack@.drop_last() =~= Seq::<PieceModel>::empty());
        assert(stack@.take(0) =~= Seq::<PieceModel>::empty());
        assert(total_size(stack@.drop_last()) == 0);
        assert(total_size(stack@) == root.size);
        lemma_piece_size_for_is_least(layout_end(all), root.size);
        assert(offset_of(stack@, 0) == 0);
        assert(stack@[0] == root);
    }

    let comm_d_calculated = stack.pop().commitment;

    Ok(comm_d_calculated)
}

/// Tells whether two commitments are the same.
fn same_commitment(a: &Commitment, b: &Commitment) -> (same: bool)
    ensures
        same == (a@ == b@),
{
    let mut i: usize = 0;
    while i < 32
        invariant
            i <= 32,
            forall|j: int| 0 <= j < i ==> a@[j] == b@[j],
        decreases 32 - i,
    {
        if a[i] != b[i] {
            return false;
        }
        i += 1;
    }
    assert(a@ =~= b@);
    true
}

/// Verify that the provided `piece_infos` and `comm_d` match.
pub fn verify_pieces(comm_d: &Commitment, piece_infos: &[PieceInfo], sector_size: SectorSize) -> (result:
    Result<bool, Error>)
    ensures
        result == verified(comm_d@, models_of(piece_infos@), sector_size@),
{
    match compute_comm_d(sector_size, piece_infos) {
        Ok(comm_d_calculated) => Ok(same_commitment(&comm_d_calculated, comm_d)),
        Err(error) => Err(error),
    }
}

} // verus!
