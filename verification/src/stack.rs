//! The reduction stack: pieces waiting to be joined with a neighbour of
//! their own size.

use crate::hasher::{piece_hash, piece_hash_spec};
use crate::piece_size::{
    is_piece_size, lemma_double_piece_size, lemma_largest_piece_size,
    lemma_piece_sizes_comparable, LARGEST_PIECE_SIZE,
};
use crate::types::{models_of, PieceInfo, PieceModel, UnpaddedBytesAmount};
use vstd::prelude::*;

verus! {

/// The parent of two neighbouring sub-trees: it holds the bytes of both.
pub open spec fn join(left: PieceModel, right: PieceModel) -> PieceModel {
    PieceModel {
        commitment: piece_hash_spec(left.commitment, right.commitment),
        size: left.size + right.size,
    }
}

/// The two entries on top are of one size.
pub open spec fn can_reduce(stack: Seq<PieceModel>) -> bool {
    stack.len() >= 2 && stack[stack.len() - 1].size == stack[stack.len() - 2].size
}

/// The stack with its two top entries replaced by their parent.
pub open spec fn reduce_once(stack: Seq<PieceModel>) -> Seq<PieceModel> {
    stack.take(stack.len() - 2).push(join(stack[stack.len() - 2], stack[stack.len() - 1]))
}

/// The stack after joining its top entries for as long as they are of one
/// size.
pub open spec fn reduced(stack: Seq<PieceModel>) -> Seq<PieceModel>
    decreases stack.len(),
{
    if can_reduce(stack) {
        reduced(reduce_once(stack))
    } else {
        stack
    }
}

/// The bytes that the entries of a stack hold together.
pub open spec fn total_size(stack: Seq<PieceModel>) -> nat
    decreases stack.len(),
{
    if stack.len() == 0 {
        0
    } else {
        total_size(stack.drop_last()) + stack.last().size
    }
}

/// Every entry holds a power of two times 127 bytes, and each holds more
/// than all that lie above it.
pub open spec fn at_rest(stack: Seq<PieceModel>) -> bool {
    &&& forall|i: int| 0 <= i < stack.len() ==> is_piece_size(#[trigger] stack[i].size)
    &&& forall|i: int, j: int|
        0 <= i < j < stack.len() ==> (#[trigger] stack[i].size) > (#[trigger] stack[j].size)
}

/// A stack at rest onto which one more entry was pushed, no larger than the
/// entry it lies on.
pub open spec fn ready_to_reduce(stack: Seq<PieceModel>) -> bool {
    stack.len() > 0 ==> {
        &&& at_rest(stack.drop_last())
        &&& is_piece_size(stack.last().size)
        &&& stack.len() >= 2 ==> stack.last().size <= stack[stack.len() - 2].size
    }
}

/// The sizes of the parents that reducing makes all fit in 64 bits.
pub open spec fn reduce_fits(stack: Seq<PieceModel>) -> bool
    decreases stack.len(),
{
    can_reduce(stack) ==> 2 * stack.last().size <= u64::MAX && reduce_fits(reduce_once(stack))
}

/// Joining two entries leaves the bytes on the stack unchanged.
pub proof fn lemma_reduce_once_total(stack: Seq<PieceModel>)
    requires
        stack.len() >= 2,
    ensures
        total_size(reduce_once(stack)) == total_size(stack),
        total_size(stack) == total_size(stack.take(stack.len() - 2)) + stack[stack.len()
            - 2].size + stack[stack.len() - 1].size,
{
    let below = stack.take(stack.len() - 2);
    let rest = stack.drop_last();
    assert(reduce_once(stack).drop_last() =~= below);
    assert(rest.drop_last() =~= below);
    assert(total_size(rest) == total_size(below) + rest.last().size);
    assert(total_size(stack) == total_size(rest) + stack.last().size);
}

/// Reducing leaves the bytes on the stack unchanged.
pub proof fn lemma_reduced_total(stack: Seq<PieceModel>)
    ensures
        total_size(reduced(stack)) == total_size(stack),
    decreases stack.len(),
{
    if can_reduce(stack) {
        lemma_reduce_once_total(stack);
        lemma_reduced_total(reduce_once(stack));
    }
}

/// Reducing does not empty a stack, nor add entries to it.
pub proof fn lemma_reduced_length(stack: Seq<PieceModel>)
    ensures
        reduced(stack).len() <= stack.len(),
        stack.len() > 0 ==> reduced(stack).len() > 0,
    decreases stack.len(),
{
    if can_reduce(stack) {
        lemma_reduced_length(reduce_once(stack));
    }
}

/// Where every entry holds a piece size and all hold less than twice the
/// largest piece size together, every parent that reducing makes fits in 64
/// bits.
pub proof fn lemma_reduce_fits_below(stack: Seq<PieceModel>)
    requires
        forall|i: int| 0 <= i < stack.len() ==> is_piece_size(#[trigger] stack[i].size),
        total_size(stack) < 2 * LARGEST_PIECE_SIZE,
    ensures
        reduce_fits(stack),
    decreases stack.len(),
{
    if can_reduce(stack) {
        let n = stack.len() as int;
        let next = reduce_once(stack);
        let top = stack[n - 1].size;
        lemma_reduce_once_total(stack);
        lemma_largest_piece_size(0);
        lemma_piece_sizes_comparable(top, LARGEST_PIECE_SIZE as nat);
        lemma_double_piece_size(top);
        assert forall|i: int| 0 <= i < next.len() implies is_piece_size(
            #[trigger] next[i].size,
        ) by {
            if i < n - 2 {
                assert(next[i] == stack[i]);
            }
        }
        lemma_reduce_fits_below(next);
    }
}

/// Reducing brings a stack back to rest, if it was at rest before an entry
/// no larger than its top was pushed.
pub proof fn lemma_reduced_at_rest(stack: Seq<PieceModel>)
    requires
        ready_to_reduce(stack),
    ensures
        at_rest(reduced(stack)),
    decreases stack.len(),
{
    let n = stack.len() as int;
    if can_reduce(stack) {
        let next = reduce_once(stack);
        let top = stack[n - 1];
        assert(stack.drop_last()[n - 2] == stack[n - 2]);
        lemma_double_piece_size(top.size);
        assert(next.drop_last() =~= stack.take(n - 2));
        assert forall|i: int| 0 <= i < n - 2 implies stack.take(n - 2)[i] == stack.drop_last()[i] by {}
        if n >= 3 {
            assert(stack.drop_last()[n - 3] == stack[n - 3]);
            lemma_piece_sizes_comparable(stack[n - 3].size, stack[n - 2].size);
        }
        lemma_reduced_at_rest(next);
    } else if n > 0 {
        assert forall|i: int| 0 <= i < n implies is_piece_size(#[trigger] stack[i].size) by {
            if i < n - 1 {
                assert(stack.drop_last()[i] == stack[i]);
            }
        }
        assert forall|i: int, j: int| 0 <= i < j < n implies (#[trigger] stack[i].size) > (
        #[trigger] stack[j].size) by {
            assert(stack.drop_last()[i] == stack[i]);
            if j < n - 1 {
                assert(stack.drop_last()[j] == stack[j]);
            } else if i < n - 2 {
                assert(stack.drop_last()[n - 2] == stack[n - 2]);
            }
        }
    }
}

/// Joins two sub-trees of one size into their parent.
pub fn join_piece_infos(left: PieceInfo, right: PieceInfo) -> (joined: PieceInfo)
    requires
        left.size == right.size,
        left.size@ + right.size@ <= u64::MAX,
    ensures
        joined@ == join(left@, right@),
{
    let commitment = piece_hash(&left.commitment, &right.commitment);
    PieceInfo { commitment, size: UnpaddedBytesAmount(left.size.0 + right.size.0) }
}

/// Stack used for piece reduction.
pub struct Stack(Vec<PieceInfo>);

impl View for Stack {
    type V = Seq<PieceModel>;

    closed spec fn view(&self) -> Seq<PieceModel> {
        models_of(self.0@)
    }
}

impl Stack {
    /// Creates a new stack.
    pub fn new() -> (stack: Self)
        ensures
            stack@ == Seq::<PieceModel>::empty(),
    {
        let stack = Stack(Vec::new());
        assert(stack@ =~= Seq::<PieceModel>::empty());
        stack
    }

    /// Pushes a single element onto the stack.
    pub fn shift(&mut self, el: PieceInfo)
        ensures
            final(self)@ == old(self)@.push(el@),
    {
        self.0.push(el);
        assert(self@ =~= old(self)@.push(el@));
    }

    /// Look at the last element of the stack.
    pub fn peek(&self) -> (top: &PieceInfo)
        requires
            self@.len() >= 1,
        ensures
            top@ == self@[self@.len() - 1],
    {
        &self.0[self.0.len() - 1]
    }

    /// Look at the second to last element of the stack.
    pub fn peek2(&self) -> (second: &PieceInfo)
        requires
            self@.len() >= 2,
        ensures
            second@ == self@[self@.len() - 2],
    {
        &self.0[self.0.len() - 2]
    }

    /// Pop the last element of the stack.
    pub fn pop(&mut self) -> (top: PieceInfo)
        requires
            old(self)@.len() >= 1,
        ensures
            top@ == old(self)@.last(),
            final(self)@ == old(self)@.drop_last(),
    {
        let top = self.0.pop().unwrap();
        assert(self@ =~= old(self)@.drop_last());
        top
    }

    /// Joins the two top entries if they are of one size, and tells whether
    /// it did.
    pub fn reduce1(&mut self) -> (joined: bool)
        requires
            can_reduce(old(self)@) ==> 2 * old(self)@.last().size <= u64::MAX,
        ensures
            joined == can_reduce(old(self)@),
            joined ==> final(self)@ == reduce_once(old(self)@),
            !joined ==> final(self)@ == old(self)@,
    {
        if self.len() < 2 {
            return false;
        }
        if self.peek().size.0 == self.peek2().size.0 {
            let right = self.pop();
            let left = self.pop();
            let joined = join_piece_infos(left, right);
            self.shift(joined);
            assert(self@ =~= reduce_once(old(self)@));
            return true;
        }
        false
    }

    /// Joins the top entries for as long as the two on top are of one size.
    pub fn reduce(&mut self)
        requires
            reduce_fits(old(self)@),
        ensures
            final(self)@ == reduced(old(self)@),
            ready_to_reduce(old(self)@) ==> at_rest(final(self)@),
            total_size(final(self)@) == total_size(old(self)@),
            final(self)@.len() <= old(self)@.len(),
            old(self)@.len() > 0 ==> final(self)@.len() > 0,
    {
        loop
            invariant
                reduce_fits(self@),
                reduced(self@) == reduced(old(self)@),
            ensures
                self@ == reduced(old(self)@),
            decreases self@.len(),
        {
            let joined = self.reduce1();
            if !joined {
                break ;
            }
        }
        proof {
            if ready_to_reduce(old(self)@) {
                lemma_reduced_at_rest(old(self)@);
            }
            lemma_reduced_total(old(self)@);
            lemma_reduced_length(old(self)@);
        }
    }

    /// Pushes `piece` and joins what can be joined.
    pub fn shift_reduce(&mut self, piece: PieceInfo)
        requires
            reduce_fits(old(self)@.push(piece@)),
        ensures
            final(self)@ == reduced(old(self)@.push(piece@)),
            ready_to_reduce(old(self)@.push(piece@)) ==> at_rest(final(self)@),
            total_size(final(self)@) == total_size(old(self)@) + piece@.size,
            0 < final(self)@.len() <= old(self)@.len() + 1,
    {
        self.shift(piece);
        assert(self@.drop_last() =~= old(self)@);
        self.reduce();
    }

    /// The number of entries.
    pub fn len(&self) -> (len: usize)
        ensures
            len == self@.len(),
    {
        self.0.len()
    }
}

} // verus!
