//! How the reduction stack stands for a sector that is being filled.
//!
//! The entries of the stack lie in the sector one after another from its
//! start, and each holds the commitment of the part it covers. The lemmas
//! here show that pushing a piece or a zero piece at the end, and joining
//! the two entries on top, keep it so.

use crate::multiples::{
    lemma_odd_multiple, lemma_product_is_multiple, lemma_room_for_half, lemma_sum_of_multiples,
};
use crate::piece_size::{
    is_piece_size, lemma_double_piece_size, lemma_piece_sizes_comparable,
};
use crate::stack::{
    at_rest, can_reduce, join, lemma_reduce_once_total, lemma_reduced_at_rest,
    lemma_reduced_length, lemma_reduced_total, ready_to_reduce, reduce_once, reduced,
    total_size,
};
use crate::tree::{
    layout_end, lemma_layout_end_push, lemma_piece_at_within, lemma_tree_root_after_end,
    lemma_tree_root_before_piece, next_start, piece_at, tree_root, zero_piece,
};
use crate::types::PieceModel;
use vstd::prelude::*;

verus! {

/// Where entry `index` of a stack starts in the sector.
pub open spec fn offset_of(stack: Seq<PieceModel>, index: int) -> nat {
    total_size(stack.take(index))
}

/// The stack covers the sector that holds `pieces` from its start to the end
/// of the pieces or further: every entry holds a piece size and the
/// commitment of the part it covers, and no piece fills a part that an entry
/// is only a part of.
pub open spec fn tiles(stack: Seq<PieceModel>, pieces: Seq<PieceModel>) -> bool {
    &&& layout_end(pieces) <= total_size(stack)
    &&& forall|j: int| 0 <= j < stack.len() ==> is_piece_size(#[trigger] stack[j].size)
    &&& forall|j: int|
        0 <= j < stack.len() ==> stack[j].commitment == tree_root(
            pieces,
            #[trigger] offset_of(stack, j),
            stack[j].size,
        )
    &&& forall|j: int, offset: nat, size: nat|
        #![trigger offset_of(stack, j), piece_at(pieces, offset, size)]
        0 <= j < stack.len() && offset <= offset_of(stack, j) && offset_of(stack, j)
            + stack[j].size <= offset + size && stack[j].size < size ==> piece_at(
            pieces,
            offset,
            size,
        ) is None
}

/// An entry starts where the one below it ends.
pub proof fn lemma_offset_step(stack: Seq<PieceModel>, index: int)
    requires
        0 <= index < stack.len(),
    ensures
        offset_of(stack, index + 1) == offset_of(stack, index) + stack[index].size,
{
    assert(stack.take(index + 1).drop_last() =~= stack.take(index));
}

/// Every entry ends at or before the end of the stack.
pub proof fn lemma_offset_bound(stack: Seq<PieceModel>, index: int)
    requires
        0 <= index <= stack.len(),
    ensures
        offset_of(stack, index) <= total_size(stack),
        index < stack.len() ==> offset_of(stack, index) + stack[index].size <= total_size(stack),
    decreases stack.len() - index,
{
    if index == stack.len() {
        assert(stack.take(index) =~= stack);
    } else {
        lemma_offset_step(stack, index);
        lemma_offset_bound(stack, index + 1);
    }
}

/// Below the top, a stack with one more entry is the stack it was.
proof fn lemma_offset_push(stack: Seq<PieceModel>, entry: PieceModel, index: int)
    requires
        0 <= index <= stack.len(),
    ensures
        offset_of(stack.push(entry), index) == offset_of(stack, index),
        offset_of(stack.push(entry), stack.len() as int) == total_size(stack),
        total_size(stack.push(entry)) == total_size(stack) + entry.size,
{
    let pushed = stack.push(entry);
    assert(pushed.take(index) =~= stack.take(index));
    assert(pushed.take(stack.len() as int) =~= stack);
    assert(pushed.drop_last() =~= stack);
}

/// A piece pushed where it starts in the sector: the stack covers the
/// sector with that piece in it.
pub proof fn lemma_push_piece_tiles(
    stack: Seq<PieceModel>,
    pieces: Seq<PieceModel>,
    piece: PieceModel,
)
    requires
        tiles(stack, pieces),
        is_piece_size(piece.size),
        total_size(stack) == next_start(pieces, piece.size),
    ensures
        tiles(stack.push(piece), pieces.push(piece)),
        total_size(stack.push(piece)) == layout_end(pieces.push(piece)),
{
    let pushed = stack.push(piece);
    let all = pieces.push(piece);
    let n = stack.len() as int;
    let start = next_start(pieces, piece.size);
    assert(all.drop_last() =~= pieces);
    lemma_layout_end_push(pieces, piece);
    lemma_offset_push(stack, piece, n);
    assert forall|j: int| 0 <= j < pushed.len() implies pushed[j].commitment == tree_root(
        all,
        #[trigger] offset_of(pushed, j),
        pushed[j].size,
    ) by {
        lemma_offset_push(stack, piece, j);
        if j < n {
            lemma_offset_bound(stack, j);
            assert(stack[j].commitment == tree_root(pieces, offset_of(stack, j), stack[j].size));
            lemma_tree_root_before_piece(pieces, piece, offset_of(stack, j), stack[j].size);
        } else {
            assert(piece_at(all, start, piece.size) == Some(piece));
        }
    }
    assert forall|j: int, offset: nat, size: nat|
        #![trigger offset_of(pushed, j), piece_at(all, offset, size)]
        0 <= j < pushed.len() && offset <= offset_of(pushed, j) && offset_of(pushed, j)
            + pushed[j].size <= offset + size && pushed[j].size < size implies piece_at(
        all,
        offset,
        size,
    ) is None by {
        lemma_offset_push(stack, piece, j);
        if j < n {
            lemma_offset_bound(stack, j);
            assert(is_piece_size(stack[j].size));
            assert(piece_at(pieces, offset, size) is None) by {
                let _ = offset_of(stack, j);
            }
        } else {
            if piece_at(pieces, offset, size) is Some {
                lemma_piece_at_within(pieces, offset, size);
            }
        }
    }
}

/// A zero piece pushed at the end of the stack: the stack still covers the
/// sector.
pub proof fn lemma_push_zero_tiles(stack: Seq<PieceModel>, pieces: Seq<PieceModel>, size: nat)
    requires
        tiles(stack, pieces),
        is_piece_size(size),
    ensures
        tiles(stack.push(zero_piece(size)), pieces),
{
    let zero = zero_piece(size);
    let pushed = stack.push(zero);
    let n = stack.len() as int;
    lemma_offset_push(stack, zero, n);
    assert forall|j: int| 0 <= j < pushed.len() implies pushed[j].commitment == tree_root(
        pieces,
        #[trigger] offset_of(pushed, j),
        pushed[j].size,
    ) by {
        lemma_offset_push(stack, zero, j);
        if j < n {
            assert(stack[j].commitment == tree_root(pieces, offset_of(stack, j), stack[j].size));
        } else {
            lemma_tree_root_after_end(pieces, total_size(stack), size);
        }
    }
    assert forall|j: int, offset: nat, size2: nat|
        #![trigger offset_of(pushed, j), piece_at(pieces, offset, size2)]
        0 <= j < pushed.len() && offset <= offset_of(pushed, j) && offset_of(pushed, j)
            + pushed[j].size <= offset + size2 && pushed[j].size < size2 implies piece_at(
        pieces,
        offset,
        size2,
    ) is None by {
        lemma_offset_push(stack, zero, j);
        if j < n {
            assert(piece_at(pieces, offset, size2) is None) by {
                let _ = offset_of(stack, j);
            }
        } else {
            if piece_at(pieces, offset, size2) is Some {
                lemma_piece_at_within(pieces, offset, size2);
            }
        }
    }
}

/// Joining the two entries on top keeps the stack covering the sector.
pub proof fn lemma_reduce_once_tiles(stack: Seq<PieceModel>, pieces: Seq<PieceModel>)
    requires
        tiles(stack, pieces),
        can_reduce(stack),
    ensures
        tiles(reduce_once(stack), pieces),
{
    let n = stack.len() as int;
    let next = reduce_once(stack);
    let left = stack[n - 2];
    let right = stack[n - 1];
    let start = offset_of(stack, n - 2);
    lemma_reduce_once_total(stack);
    lemma_offset_step(stack, n - 2);
    lemma_double_piece_size(left.size);
    assert(is_piece_size(left.size));
    assert(next.take(n - 2) =~= stack.take(n - 2));
    assert(left.commitment == tree_root(pieces, offset_of(stack, n - 2), left.size));
    assert(right.commitment == tree_root(pieces, offset_of(stack, n - 1), right.size));
    assert(piece_at(pieces, start, 2 * left.size) is None) by {
        let _ = offset_of(stack, n - 2);
    }
    assert((2 * left.size) / 2 == left.size);
    assert(tree_root(pieces, start, 2 * left.size) == join(left, right).commitment);
    assert forall|j: int| 0 <= j < next.len() implies is_piece_size(#[trigger] next[j].size) by {
        if j < n - 2 {
            assert(next[j] == stack[j]);
        }
    }
    assert forall|j: int| 0 <= j < next.len() implies next[j].commitment == tree_root(
        pieces,
        #[trigger] offset_of(next, j),
        next[j].size,
    ) by {
        assert(next.take(j) =~= stack.take(j));
        if j < n - 2 {
            assert(next[j] == stack[j]);
            assert(stack[j].commitment == tree_root(pieces, offset_of(stack, j), stack[j].size));
        }
    }
    assert forall|j: int, offset: nat, size: nat|
        #![trigger offset_of(next, j), piece_at(pieces, offset, size)]
        0 <= j < next.len() && offset <= offset_of(next, j) && offset_of(next, j) + next[j].size
            <= offset + size && next[j].size < size implies piece_at(pieces, offset, size)
        is None by {
        assert(next.take(j) =~= stack.take(j));
        assert(piece_at(pieces, offset, size) is None) by {
            let _ = offset_of(stack, j);
        }
    }
}

/// Reducing keeps the stack covering the sector.
pub proof fn lemma_reduced_tiles(stack: Seq<PieceModel>, pieces: Seq<PieceModel>)
    requires
        tiles(stack, pieces),
    ensures
        tiles(reduced(stack), pieces),
    decreases stack.len(),
{
    if can_reduce(stack) {
        lemma_reduce_once_tiles(stack, pieces);
        lemma_reduced_tiles(reduce_once(stack), pieces);
    }
}

/// The bytes on a stack at rest are a multiple of every piece size up to the
/// size of its top.
pub proof fn lemma_total_is_multiple(stack: Seq<PieceModel>, d: nat)
    requires
        at_rest(stack),
        is_piece_size(d),
        stack.len() > 0 ==> d <= stack.last().size,
    ensures
        total_size(stack) % d == 0,
    decreases stack.len(),
{
    if stack.len() > 0 {
        let rest = stack.drop_last();
        let top = stack.last();
        assert(at_rest(rest)) by {
            assert forall|i: int| 0 <= i < rest.len() implies rest[i] == stack[i] by {}
        }
        if rest.len() > 0 {
            assert(rest.last() == stack[stack.len() - 2]);
        }
        lemma_total_is_multiple(rest, d);
        lemma_piece_sizes_comparable(d, top.size);
        if d == top.size {
            lemma_product_is_multiple(d, 1);
        }
        assert(d * 1 == d);
        assert(top.size % d == 0);
        assert(total_size(stack) == total_size(rest) + top.size);
        lemma_sum_of_multiples(total_size(rest), top.size, d);
    } else {
        lemma_product_is_multiple(d, 0);
        assert(d * 0 == 0);
    }
}

/// The bytes on a stack at rest are an odd multiple of the size of its top.
pub proof fn lemma_total_mod_top(stack: Seq<PieceModel>)
    requires
        at_rest(stack),
        stack.len() > 0,
    ensures
        total_size(stack) % (2 * stack.last().size) == stack.last().size,
{
    let rest = stack.drop_last();
    let t = stack.last().size;
    assert(at_rest(rest)) by {
        assert forall|i: int| 0 <= i < rest.len() implies rest[i] == stack[i] by {}
    }
    lemma_double_piece_size(t);
    if rest.len() > 0 {
        assert(rest.last() == stack[stack.len() - 2]);
        lemma_piece_sizes_comparable(t, rest.last().size);
    }
    lemma_total_is_multiple(rest, 2 * t);
    lemma_odd_multiple(total_size(rest), t);
}

/// A stack at rest that holds a piece size in all has one entry.
pub proof fn lemma_at_rest_single(stack: Seq<PieceModel>)
    requires
        at_rest(stack),
        stack.len() > 0,
        is_piece_size(total_size(stack)),
    ensures
        stack.len() == 1,
{
    if stack.len() >= 2 {
        let rest = stack.drop_last();
        let top = stack.last().size;
        lemma_total_mod_top(stack);
        assert(rest.last() == stack[stack.len() - 2]);
        assert(total_size(rest) >= rest.last().size);
        assert(is_piece_size(rest.last().size));
        assert(is_piece_size(top));
        lemma_piece_sizes_comparable(top, total_size(stack));
    }
}

/// A stack at rest with a zero piece of the size of its top pushed and
/// reduced: it is at rest again, covers the sector as before, and holds
/// that many bytes more, which is no more than any multiple of twice that
/// size that it had not reached.
pub proof fn lemma_shift_reduce_zero(stack: Seq<PieceModel>, pieces: Seq<PieceModel>, bound: nat)
    requires
        at_rest(stack),
        stack.len() > 0,
        tiles(stack, pieces),
        total_size(stack) <= bound,
        bound % (2 * stack.last().size) == 0,
    ensures
        ({
            let next = reduced(stack.push(zero_piece(stack.last().size)));
            &&& at_rest(next)
            &&& next.len() > 0
            &&& tiles(next, pieces)
            &&& total_size(next) == total_size(stack) + stack.last().size
            &&& total_size(next) <= bound
        }),
{
    let t = stack.last().size;
    let pushed = stack.push(zero_piece(t));
    assert(pushed.drop_last() =~= stack);
    assert(ready_to_reduce(pushed));
    lemma_total_mod_top(stack);
    lemma_room_for_half(total_size(stack), bound, t);
    lemma_push_zero_tiles(stack, pieces, t);
    lemma_reduced_at_rest(pushed);
    lemma_reduced_length(pushed);
    lemma_reduced_tiles(pushed, pieces);
    lemma_reduced_total(pushed);
}

/// A stack at rest with the next piece pushed where it starts and reduced:
/// it is at rest again and covers the sector with that piece in it, up to
/// the end of the piece.
pub proof fn lemma_shift_reduce_piece(
    stack: Seq<PieceModel>,
    pieces: Seq<PieceModel>,
    piece: PieceModel,
)
    requires
        at_rest(stack),
        tiles(stack, pieces),
        is_piece_size(piece.size),
        total_size(stack) == next_start(pieces, piece.size),
        stack.len() > 0 ==> piece.size <= stack.last().size,
    ensures
        ({
            let next = reduced(stack.push(piece));
            &&& at_rest(next)
            &&& next.len() > 0
            &&& tiles(next, pieces.push(piece))
            &&& total_size(next) == layout_end(pieces.push(piece))
        }),
{
    let pushed = stack.push(piece);
    assert(pushed.drop_last() =~= stack);
    assert(ready_to_reduce(pushed));
    lemma_push_piece_tiles(stack, pieces, piece);
    lemma_reduced_at_rest(pushed);
    lemma_reduced_length(pushed);
    lemma_reduced_tiles(pushed, pieces.push(piece));
    lemma_reduced_total(pushed);
}

} // verus!
