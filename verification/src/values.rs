//! What comparisons of rounded results say of the exact values.

use crate::num::{lemma_order_is_numeric, unit, Num, ZERO};
use crate::order::{lemma_plus_against, lemma_steps_zero};
use crate::precision::apart;
use vstd::arithmetic::power2::{lemma_pow2_adds, lemma_pow2_pos, pow2};
use vstd::prelude::*;

verus! {

/// The value of zero.
pub proof fn lemma_zero()
    ensures
        Num(ZERO).finite(),
        Num(ZERO).value() == 0,
{
    lemma_steps_zero(Num(ZERO));
}

/// A rounded sum lies on the side of a number that the exact sum lies on.
pub proof fn lemma_sum_side(a: Num, b: Num, c: Num)
    requires
        a.finite(),
        b.finite(),
        c.finite(),
    ensures
        a.value() + b.value() <= c.value() ==> a.plus(b).le(c),
        c.value() <= a.value() + b.value() ==> c.le(a.plus(b)),
        c.lt(a.plus(b)) ==> c.value() < a.value() + b.value(),
        a.plus(b).lt(c) ==> a.value() + b.value() < c.value(),
        !a.plus(b).nan(),
{
    lemma_plus_against(a, b, c);
    crate::order::lemma_plus_nan(a, b);
    reveal(Num::le);
    reveal(Num::lt);
}

/// So does a rounded difference.
pub proof fn lemma_difference_side(a: Num, b: Num, c: Num)
    requires
        a.finite(),
        b.finite(),
        c.finite(),
    ensures
        a.value() - b.value() <= c.value() ==> a.minus(b).le(c),
        c.value() <= a.value() - b.value() ==> c.le(a.minus(b)),
        c.lt(a.minus(b)) ==> c.value() < a.value() - b.value(),
        a.minus(b).lt(c) ==> a.value() - b.value() < c.value(),
        !a.minus(b).nan(),
{
    reveal(Num::minus);
    assert(b.opposite().value() == -b.value());
    lemma_sum_side(a, b.opposite(), c);
}

/// So does the size of a rounded difference.
pub proof fn lemma_gap_side(a: Num, b: Num, c: Num)
    requires
        a.finite(),
        b.finite(),
        c.finite(),
        c.value() >= 0,
    ensures
        apart(a.value(), b.value()) <= c.value() ==> a.minus(b).size().le(c),
        c.value() <= apart(a.value(), b.value()) ==> c.le(a.minus(b).size()),
        c.lt(a.minus(b).size()) ==> c.value() < apart(a.value(), b.value()),
        a.minus(b).size().lt(c) ==> apart(a.value(), b.value()) < c.value(),
        !a.minus(b).size().nan(),
{
    let d = a.minus(b);
    let e = c.opposite();
    lemma_zero();
    assert(e.finite() && e.value() == -c.value());
    lemma_difference_side(a, b, c);
    lemma_difference_side(a, b, e);
    lemma_difference_side(a, b, Num(ZERO));
    lemma_order_is_numeric(Num(ZERO), c);
    reveal(Num::le);
    reveal(Num::lt);
    assert(d.opposite().magnitude() == d.magnitude());
    assert(d.size().key() == if d.key() >= 0 {
        d.key()
    } else {
        -d.key()
    });
    assert(e.key() == -c.key());
}

/// Comparisons of finite numbers are comparisons of their values.
pub proof fn lemma_compare(a: Num, b: Num)
    requires
        a.finite(),
        b.finite(),
    ensures
        a.lt(b) <==> a.value() < b.value(),
        a.le(b) <==> a.value() <= b.value(),
        a.same(b) <==> a.value() == b.value(),
{
    lemma_order_is_numeric(a, b);
}

/// A number whose significand is a whole number times a power of two has that
/// whole number's value.
pub proof fn lemma_whole(x: Num, n: nat, k: nat)
    requires
        x.finite() && !x.negative(),
        k <= 1074,
        x.exponent() == 1074 - k,
        x.significand() == n * pow2(k),
    ensures
        x.value() == n * unit(),
{
    let e = (1074 - k) as nat;
    lemma_pow2_adds(k, e);
    assert(n * pow2(k) * pow2(e) == n * (pow2(k) * pow2(e))) by (nonlinear_arith);
}

/// A number that is whole is the whole number that it is.
pub proof fn lemma_whole_number(x: Num, n: int)
    requires
        x.finite(),
        x.value() == n * unit(),
        0 <= n < 0xffff_ffff,
    ensures
        x.whole() == n,
{
    reveal(Num::whole);
    let u = unit() as int;
    lemma_pow2_pos(1074);
    lemma_steps_zero(x);
    assert(n * u >= 0) by (nonlinear_arith)
        requires
            n >= 0,
            u > 0,
    ;
    if x.negative() {
        assert(n == 0) by (nonlinear_arith)
            requires
                n * u == 0,
                u > 0,
        ;
    } else {
        assert(x.steps() == n * u);
        vstd::arithmetic::div_mod::lemma_div_multiples_vanish(n, u);
        assert(n * u == u * n) by (nonlinear_arith);
    }
}

/// A root lies on the side of a number that the exact root lies on.
pub proof fn lemma_root_side(x: Num, c: Num)
    requires
        x.finite() && x.value() >= 0,
        c.finite() && !c.negative(),
    ensures
        !x.root().nan(),
        c.steps() * c.steps() <= x.steps() * unit() ==> c.le(x.root()),
        x.steps() * unit() <= c.steps() * c.steps() ==> x.root().le(c),
{
    reveal(Num::root);
    reveal(Num::le);
    lemma_steps_zero(x);
    lemma_steps_zero(c);
    lemma_pow2_pos(1074);
    let n = x.steps() * unit();
    if x.magnitude() == 0 {
        assert(n == 0) by (nonlinear_arith)
            requires
                n == x.steps() * unit(),
                x.steps() == 0,
        ;
        if c.steps() * c.steps() <= n {
            assert(c.steps() == 0) by (nonlinear_arith)
                requires
                    c.steps() * c.steps() <= 0,
                    c.steps() >= 0,
            ;
        }
    } else {
        let known = crate::num::lemma_root_exists(n);
        let r = crate::num::integer_root(n);
        assert(r * r <= n < (r + 1) * (r + 1)) by {
            assert(known * known <= n < (known + 1) * (known + 1));
        }
        let k = c.steps();
        let twice = 2 * r + if r * r == n {
            0nat
        } else {
            1nat
        };
        crate::order::lemma_round_cancel(k, 2);
        crate::order::lemma_round_exact(c);
        assert(k * 2 == 2 * k);
        if k * k <= n {
            assert(k <= r) by (nonlinear_arith)
                requires
                    k * k < (r + 1) * (r + 1),
                    r >= 0,
                    k >= 0,
            ;
            crate::order::lemma_round_monotone(2 * k, twice, 2);
        }
        if n <= k * k {
            assert(r <= k) by (nonlinear_arith)
                requires
                    r * r <= k * k,
                    r >= 0,
                    k >= 0,
            ;
            assert(twice <= 2 * k);
            crate::order::lemma_round_monotone(twice, 2 * k, 2);
        }
    }
}

} // verus!
