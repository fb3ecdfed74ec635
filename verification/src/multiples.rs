//! Facts about multiples that the layout of a sector rests on.

use vstd::arithmetic::div_mod::{
    lemma_div_multiples_vanish, lemma_fundamental_div_mod, lemma_mod_multiples_vanish,
    lemma_small_mod,
};
use vstd::prelude::*;

verus! {

/// A multiple of `d` is `d` times its quotient by `d`.
pub proof fn lemma_multiple_quotient(a: nat, d: nat)
    requires
        d > 0,
        a % d == 0,
    ensures
        a == d * (a / d),
{
    lemma_fundamental_div_mod(a as int, d as int);
}

/// `d` times anything is a multiple of `d`.
pub proof fn lemma_product_is_multiple(d: nat, q: nat)
    requires
        d > 0,
    ensures
        (d * q) % d == 0,
        (d * q) / d == q,
{
    lemma_mod_multiples_vanish(q as int, 0, d as int);
    lemma_small_mod(0, d);
    lemma_div_multiples_vanish(q as int, d as int);
}

/// The sum of two multiples of `d` is a multiple of `d`.
pub proof fn lemma_sum_of_multiples(a: nat, b: nat, d: nat)
    requires
        d > 0,
        a % d == 0,
        b % d == 0,
    ensures
        (a + b) % d == 0,
{
    lemma_multiple_quotient(a, d);
    lemma_multiple_quotient(b, d);
    let q = a / d + b / d;
    assert(a + b == d * q) by (nonlinear_arith)
        requires
            a == d * (a / d),
            b == d * (b / d),
            q == a / d + b / d,
    ;
    lemma_product_is_multiple(d, q);
}

/// A multiple of `d` is a multiple of what divides `d`.
pub proof fn lemma_multiple_of_multiple(a: nat, d: nat, e: nat)
    requires
        d > 0,
        e > 0,
        a % d == 0,
        d % e == 0,
    ensures
        a % e == 0,
{
    lemma_multiple_quotient(a, d);
    lemma_multiple_quotient(d, e);
    let q = (d / e) * (a / d);
    assert(a == e * q) by (nonlinear_arith)
        requires
            a == d * (a / d),
            d == e * (d / e),
            q == (d / e) * (a / d),
    ;
    lemma_product_is_multiple(e, q);
}

/// A multiple of `2 * t` with `t` added leaves `t` when divided by `2 * t`.
pub proof fn lemma_odd_multiple(below: nat, t: nat)
    requires
        t > 0,
        below % (2 * t) == 0,
    ensures
        (below + t) % (2 * t) == t,
{
    let d = 2 * t;
    lemma_multiple_quotient(below, d);
    let q = below / d;
    lemma_mod_multiples_vanish(q as int, t as int, d as int);
    lemma_small_mod(t, d);
}

/// Between a number that is `t` more than a multiple of `2 * t` and a
/// multiple of `2 * t` at or above it, there is room for `t` more.
pub proof fn lemma_room_for_half(total: nat, bound: nat, t: nat)
    requires
        t > 0,
        total % (2 * t) == t,
        bound % (2 * t) == 0,
        total <= bound,
    ensures
        total + t <= bound,
{
    let d = 2 * t;
    lemma_fundamental_div_mod(total as int, d as int);
    lemma_multiple_quotient(bound, d);
    let p = total / d;
    let q = bound / d;
    assert(total + t <= bound) by (nonlinear_arith)
        requires
            d == 2 * t,
            t > 0,
            total == d * p + t,
            bound == d * q,
            total <= bound,
    {
        if p >= q {
            assert(d * p >= d * q);
        } else {
            assert(d * (p + 1) <= d * q);
        }
    }
}

/// Two multiples of `s` less than `s` apart are one.
pub proof fn lemma_multiples_meet(low: nat, high: nat, s: nat)
    requires
        s > 0,
        low % s == 0,
        high % s == 0,
        low <= high,
        high - low < s,
    ensures
        low == high,
{
    lemma_multiple_quotient(low, s);
    lemma_multiple_quotient(high, s);
    let p = low / s;
    let q = high / s;
    assert(low == high) by (nonlinear_arith)
        requires
            s > 0,
            low == s * p,
            high == s * q,
            low <= high,
            high - low < s,
    {
        if p < q {
            assert(s * (p + 1) <= s * q);
        }
    }
}

} // verus!
