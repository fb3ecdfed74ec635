//! Piece sizes: the powers of two times 127 bytes.
//!
//! A piece of 127 client bytes fills 128 sector bytes, four nodes of the
//! piece tree. Every piece, and every sub-tree of a sector, holds a power of
//! two times that amount, which makes the sizes a chain under divisibility.

use crate::multiples::{lemma_multiple_quotient, lemma_product_is_multiple};
use crate::types::{UnpaddedBytesAmount, MINIMUM_PIECE_SIZE};
use vstd::arithmetic::power2::{lemma2_to64, lemma2_to64_rest, lemma_pow2_unfold, pow2};
use vstd::prelude::*;

verus! {

/// The largest piece size that fits in 64 bits: 127 times two to the power
/// of 57.
pub const LARGEST_PIECE_SIZE: u64 = 0xfe00_0000_0000_0000;

/// `n` is 127 times a power of two.
pub open spec fn is_piece_size(n: nat) -> bool
    decreases n,
{
    n == MINIMUM_PIECE_SIZE || (n > MINIMUM_PIECE_SIZE && n % 2 == 0 && is_piece_size(n / 2))
}

/// The smallest piece size that is at least `n`.
pub open spec fn piece_size_for(n: nat) -> nat
    decreases n,
{
    if n <= MINIMUM_PIECE_SIZE {
        MINIMUM_PIECE_SIZE as nat
    } else {
        2 * piece_size_for((n + 1) / 2)
    }
}

/// The first multiple of `size` at or after `offset`.
pub open spec fn align_up(offset: nat, size: nat) -> nat {
    if offset % size == 0 {
        offset
    } else {
        (offset + size - offset % size) as nat
    }
}

/// The power of two by which 127 is to be multiplied to give the piece size
/// `n`.
pub open spec fn level_of(n: nat) -> nat
    decreases n,
{
    if n <= MINIMUM_PIECE_SIZE {
        0
    } else {
        1 + level_of(n / 2)
    }
}

/// A piece size is 127 times two to the power of its level.
pub proof fn lemma_piece_size_is_power(n: nat)
    requires
        is_piece_size(n),
    ensures
        n == MINIMUM_PIECE_SIZE * pow2(level_of(n)),
    decreases n,
{
    if n == MINIMUM_PIECE_SIZE {
        lemma2_to64();
    } else {
        lemma_piece_size_is_power(n / 2);
        lemma_pow2_unfold(level_of(n));
    }
}

/// 127 times a power of two is a piece size.
pub proof fn lemma_power_is_piece_size(level: nat)
    ensures
        is_piece_size(MINIMUM_PIECE_SIZE as nat * pow2(level)),
        level_of(MINIMUM_PIECE_SIZE as nat * pow2(level)) == level,
    decreases level,
{
    if level == 0 {
        lemma2_to64();
    } else {
        lemma_power_is_piece_size((level - 1) as nat);
        lemma_pow2_unfold(level);
        let half = MINIMUM_PIECE_SIZE as nat * pow2((level - 1) as nat);
        assert(MINIMUM_PIECE_SIZE * pow2(level) == 2 * half);
        assert(half >= MINIMUM_PIECE_SIZE);
        assert((2 * half) / 2 == half);
    }
}

/// Twice a piece size is a piece size.
pub proof fn lemma_double_piece_size(n: nat)
    requires
        is_piece_size(n),
    ensures
        is_piece_size(2 * n),
        n >= MINIMUM_PIECE_SIZE,
{
    assert((2 * n) / 2 == n);
}

/// Of two piece sizes, the smaller divides the larger, and is at most half
/// of it.
pub proof fn lemma_piece_sizes_comparable(a: nat, b: nat)
    requires
        is_piece_size(a),
        is_piece_size(b),
    ensures
        a == b || (2 * a <= b && b % (2 * a) == 0 && b % a == 0) || (2 * b <= a && a % (2 * b)
            == 0 && a % b == 0),
    decreases a + b,
{
    if a == MINIMUM_PIECE_SIZE && b == MINIMUM_PIECE_SIZE {
    } else if a == MINIMUM_PIECE_SIZE {
        lemma_piece_sizes_comparable(a, b / 2);
        lemma_halves_comparable(a, b);
    } else if b == MINIMUM_PIECE_SIZE {
        lemma_piece_sizes_comparable(a / 2, b);
        lemma_halves_comparable(b, a);
    } else {
        lemma_piece_sizes_comparable(a / 2, b / 2);
        if a / 2 < b / 2 {
            assert(2 * (a / 2) == a);
            lemma_halves_comparable(a, b);
        } else if b / 2 < a / 2 {
            assert(2 * (b / 2) == b);
            lemma_halves_comparable(b, a);
        }
    }
}

/// If `a` divides half of the even number `b`, then `a` and `2 * a` divide
/// `b`.
proof fn lemma_halves_comparable(a: nat, b: nat)
    requires
        a > 0,
        b % 2 == 0,
        (b / 2) % a == 0,
    ensures
        b % a == 0,
        b % (2 * a) == 0,
{
    lemma_double_multiple(b / 2, a);
}

/// Twice a multiple of `m` is a multiple of `2 * m`, and of `m`.
proof fn lemma_double_multiple(h: nat, m: nat)
    requires
        m > 0,
        h % m == 0,
    ensures
        (2 * h) % (2 * m) == 0,
        (2 * h) % m == 0,
{
    let q = h / m;
    lemma_multiple_quotient(h, m);
    assert(2 * h == (2 * m) * q) by (nonlinear_arith)
        requires
            h == m * q,
    ;
    assert(2 * h == m * (2 * q)) by (nonlinear_arith)
        requires
            h == m * q,
    ;
    lemma_product_is_multiple(2 * m, q);
    lemma_product_is_multiple(m, 2 * q);
}

/// `piece_size_for(n)` is a piece size, is at least `n`, and its half is
/// less than `n` unless it is the smallest piece size.
pub proof fn lemma_piece_size_for(n: nat)
    ensures
        is_piece_size(piece_size_for(n)),
        n <= piece_size_for(n),
        piece_size_for(n) == MINIMUM_PIECE_SIZE || piece_size_for(n) < 2 * n,
    decreases n,
{
    if n > MINIMUM_PIECE_SIZE {
        let m = (n + 1) / 2;
        let s = piece_size_for(m);
        lemma_piece_size_for(m);
        lemma_double_piece_size(s);
    }
}

/// No piece size below `piece_size_for(n)` is at least `n`.
pub proof fn lemma_piece_size_for_is_least(n: nat, q: nat)
    requires
        is_piece_size(q),
        n <= q,
    ensures
        piece_size_for(n) <= q,
{
    lemma_piece_size_for(n);
    lemma_piece_sizes_comparable(q, piece_size_for(n));
}

/// A piece size that is at least `n`, and whose half is not, is
/// `piece_size_for(n)`.
pub proof fn lemma_piece_size_for_unique(n: nat, q: nat)
    requires
        is_piece_size(q),
        n <= q,
        q == MINIMUM_PIECE_SIZE || q < 2 * n,
    ensures
        q == piece_size_for(n),
{
    lemma_piece_size_for(n);
    lemma_piece_sizes_comparable(q, piece_size_for(n));
}

/// A piece size is its own slot.
pub proof fn lemma_piece_size_for_piece_size(n: nat)
    requires
        is_piece_size(n),
    ensures
        piece_size_for(n) == n,
{
    lemma_piece_size_for_unique(n, n);
}

/// The slot of a piece fits in 64 bits exactly when the piece holds no more
/// than `LARGEST_PIECE_SIZE` bytes.
pub proof fn lemma_largest_piece_size(n: nat)
    ensures
        is_piece_size(LARGEST_PIECE_SIZE as nat),
        piece_size_for(n) <= u64::MAX <==> n <= LARGEST_PIECE_SIZE,
{
    lemma_power_is_piece_size(57);
    lemma2_to64_rest();
    lemma_piece_size_for(n);
    if n <= LARGEST_PIECE_SIZE {
        lemma_piece_size_for_is_least(n, LARGEST_PIECE_SIZE as nat);
    } else {
        lemma_piece_sizes_comparable(piece_size_for(n), LARGEST_PIECE_SIZE as nat);
    }
}

/// Tells whether `size` is a power of two times 127 bytes.
pub fn is_valid_piece_size(size: UnpaddedBytesAmount) -> (valid: bool)
    ensures
        valid == is_piece_size(size@),
{
    let mut n: u64 = size.0;
    while n > MINIMUM_PIECE_SIZE && n % 2 == 0
        invariant
            is_piece_size(n as nat) == is_piece_size(size@),
        decreases n,
    {
        n = n / 2;
    }
    n == MINIMUM_PIECE_SIZE
}

} // verus!
