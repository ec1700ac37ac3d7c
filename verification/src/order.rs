//! How rounded arithmetic respects order.
//!
//! Rounding never swaps two exact results, so a rounded sum, difference,
//! product or quotient moves with its operands. The bounds that the control
//! laws promise rest on these facts.
use crate::num::{Num, ONE, ZERO};
use vstd::prelude::*;

verus! {

/// The exponent that `scale` picks keeps the integer part within 53 bits and,
/// above the smallest exponent, with its leading bit in place.
pub proof fn lemma_scale_bounds(t: nat)
    ensures
        t < vstd::arithmetic::power2::pow2(53 + crate::rounding::scale(t)),
        crate::rounding::scale(t) > 0 ==> t >= vstd::arithmetic::power2::pow2(
            (52 + crate::rounding::scale(t)) as nat,
        ),
    decreases t,
{
    let k = crate::rounding::scale(t);
    vstd::arithmetic::power2::lemma2_to64_rest();
    if t >= 0x20_0000_0000_0000 {
        lemma_scale_bounds(t / 2);
        vstd::arithmetic::power2::lemma_pow2_unfold(53 + k);
        vstd::arithmetic::power2::lemma_pow2_unfold((52 + k) as nat);
    }
}

proof fn lemma_scale_monotone(a: nat, b: nat)
    requires
        a <= b,
    ensures
        crate::rounding::scale(a) <= crate::rounding::scale(b),
    decreases a,
{
    if a >= 0x20_0000_0000_0000 {
        lemma_scale_monotone(a / 2, b / 2);
    }
}

proof fn lemma_nearest_monotone(a: nat, b: nat, d: nat)
    requires
        a <= b,
        d > 0,
    ensures
        crate::rounding::nearest_even(a, d) <= crate::rounding::nearest_even(b, d),
{
    vstd::arithmetic::div_mod::lemma_div_is_ordered(a as int, b as int, d as int);
    vstd::arithmetic::div_mod::lemma_fundamental_div_mod(a as int, d as int);
    vstd::arithmetic::div_mod::lemma_fundamental_div_mod(b as int, d as int);
}

/// The rounded significand has at most 53 bits, or is the next power of two;
/// above the smallest exponent its leading bit is in place.
pub proof fn lemma_nearest_range(n: nat, d: nat)
    requires
        d > 0,
    ensures
        ({
            let k = crate::rounding::scale(n / d);
            let m = crate::rounding::nearest_even(n, d * vstd::arithmetic::power2::pow2(k));
            m <= 0x20_0000_0000_0000 && (k > 0 ==> m >= 0x10_0000_0000_0000)
        }),
{
    let t = n / d;
    let k = crate::rounding::scale(t);
    let p = vstd::arithmetic::power2::pow2(k);
    lemma_scale_bounds(t);
    vstd::arithmetic::power2::lemma_pow2_pos(k);
    vstd::arithmetic::power2::lemma2_to64_rest();
    vstd::arithmetic::power2::lemma_pow2_adds(53, k);
    vstd::arithmetic::power2::lemma_pow2_adds(52, k);
    vstd::arithmetic::div_mod::lemma_div_denominator(n as int, d as int, p as int);
    assert(t / p < 0x20_0000_0000_0000) by {
        vstd::arithmetic::div_mod::lemma_fundamental_div_mod(t as int, p as int);
        assert(t / p < 0x20_0000_0000_0000) by (nonlinear_arith)
            requires
                t == p * (t / p) + t % p,
                t % p >= 0,
                t < 0x20_0000_0000_0000 * p,
                p > 0,
        ;
    }
    if k > 0 {
        assert(t / p >= 0x10_0000_0000_0000) by {
            vstd::arithmetic::div_mod::lemma_fundamental_div_mod(t as int, p as int);
            assert(t / p >= 0x10_0000_0000_0000) by (nonlinear_arith)
                requires
                    t == p * (t / p) + t % p,
                    t % p < p,
                    t >= 0x10_0000_0000_0000 * p,
                    p > 0,
            ;
        }
    }
}

/// Rounding keeps the order of exact results.
pub proof fn lemma_round_monotone(a: nat, b: nat, d: nat)
    requires
        a <= b,
        d > 0,
    ensures
        crate::rounding::round_magnitude(a, d) <= crate::rounding::round_magnitude(b, d),
{
    vstd::arithmetic::div_mod::lemma_div_is_ordered(a as int, b as int, d as int);
    lemma_scale_monotone(a / d, b / d);
    lemma_nearest_range(a, d);
    lemma_nearest_range(b, d);
    let ka = crate::rounding::scale(a / d);
    let kb = crate::rounding::scale(b / d);
    vstd::arithmetic::power2::lemma_pow2_pos(ka);
    if ka == kb {
        assert(d * vstd::arithmetic::power2::pow2(ka) > 0) by (nonlinear_arith)
            requires
                d > 0,
                vstd::arithmetic::power2::pow2(ka) > 0,
        ;
        lemma_nearest_monotone(a, b, d * vstd::arithmetic::power2::pow2(ka));
    }
}

/// A common factor of an exact ratio does not change what it rounds to.
pub proof fn lemma_round_cancel(n: nat, c: nat)
    requires
        c > 0,
    ensures
        crate::rounding::round_magnitude(n * c, c) == crate::rounding::round_magnitude(n, 1),
{
    vstd::arithmetic::div_mod::lemma_div_multiples_vanish(n as int, c as int);
    assert(n * c == c * n) by (nonlinear_arith);
    let k = crate::rounding::scale(n);
    let p = vstd::arithmetic::power2::pow2(k);
    vstd::arithmetic::power2::lemma_pow2_pos(k);
    let q = n / p;
    let r = n % p;
    vstd::arithmetic::div_mod::lemma_fundamental_div_mod(n as int, p as int);
    assert(n * c == q * (c * p) + c * r) by (nonlinear_arith)
        requires
            n == p * q + r,
    ;
    assert(0 <= c * r < c * p) by (nonlinear_arith)
        requires
            0 <= r < p,
            c > 0,
    ;
    vstd::arithmetic::div_mod::lemma_fundamental_div_mod_converse(
        (n * c) as int,
        (c * p) as int,
        q as int,
        (c * r) as int,
    );
    assert(2 * (c * r) > c * p <==> 2 * r > p) by (nonlinear_arith)
        requires
            c > 0,
    ;
    assert(2 * (c * r) == c * p <==> 2 * r == p) by (nonlinear_arith)
        requires
            c > 0,
    ;
}

/// A representable magnitude rounds to itself.
pub proof fn lemma_round_exact(x: Num)
    requires
        x.finite(),
    ensures
        crate::rounding::round_magnitude(x.steps(), 1) == x.magnitude(),
{
    let m = x.significand();
    let e = x.exponent();
    let p = vstd::arithmetic::power2::pow2(e);
    vstd::arithmetic::power2::lemma_pow2_pos(e);
    vstd::arithmetic::power2::lemma2_to64_rest();
    vstd::arithmetic::power2::lemma_pow2_adds(53, e);
    vstd::arithmetic::power2::lemma_pow2_adds(52, e);
    assert(m * p < 0x20_0000_0000_0000 * p) by (nonlinear_arith)
        requires
            m < 0x20_0000_0000_0000,
            p > 0,
    ;
    if e > 0 {
        assert(m * p >= 0x10_0000_0000_0000 * p) by (nonlinear_arith)
            requires
                m >= 0x10_0000_0000_0000,
        ;
    }
    crate::rounding::lemma_scale(x.steps(), e);
    vstd::arithmetic::div_mod::lemma_div_multiples_vanish(m as int, p as int);
    assert(p * m == m * p) by (nonlinear_arith);
    vstd::arithmetic::div_mod::lemma_fundamental_div_mod_converse(
        x.steps() as int,
        p as int,
        m as int,
        0,
    );
}

/// The number nearest to an exact value in steps.
pub open spec fn near(v: int) -> Num {
    if v < 0 {
        crate::num::signed(true, crate::rounding::round_magnitude((-v) as nat, 1))
    } else {
        crate::num::signed(false, crate::rounding::round_magnitude(v as nat, 1))
    }
}

proof fn lemma_near_monotone(a: int, b: int)
    requires
        a <= b,
    ensures
        near(a).le(near(b)),
{
    reveal(Num::le);
    if b < 0 {
        lemma_round_monotone((-b) as nat, (-a) as nat, 1);
    } else if a >= 0 {
        lemma_round_monotone(a as nat, b as nat, 1);
    }
}

proof fn lemma_near_exact(x: Num)
    requires
        x.finite(),
    ensures
        near(x.value()).key() == x.key(),
        !near(x.value()).nan(),
{
    lemma_round_exact(x);
    if x.value() == 0 {
        lemma_steps_zero(x);
    }
}

pub proof fn lemma_steps_zero(x: Num)
    requires
        x.finite(),
    ensures
        x.steps() == 0 <==> x.magnitude() == 0,
        x.steps() == 0 <==> x.value() == 0,
{
    crate::num::lemma_magnitude_order(x, Num(ZERO));
    assert(Num(ZERO).significand() == 0);
    assert(Num(ZERO).steps() == 0) by (nonlinear_arith)
        requires
            Num(ZERO).steps() == Num(ZERO).significand() * vstd::arithmetic::power2::pow2(
                Num(ZERO).exponent(),
            ),
            Num(ZERO).significand() == 0,
    ;
}

/// A sum of finite numbers is the number nearest to the exact sum.
proof fn lemma_plus_near(a: Num, b: Num)
    requires
        a.finite(),
        b.finite(),
    ensures
        a.plus(b).key() == near(a.value() + b.value()).key(),
        !a.plus(b).nan(),
{
    reveal(Num::plus);
    if a.value() + b.value() == 0 {
        lemma_steps_zero(Num(ZERO));
        lemma_near_exact(Num(ZERO));
    }
}

/// A sum is not a number only if an operand is not, or if infinities of
/// opposite signs meet.
pub proof fn lemma_plus_nan(a: Num, b: Num)
    ensures
        a.plus(b).nan() <==> (a.nan() || b.nan() || (a.infinite() && b.infinite() && a.negative()
            != b.negative())),
{
    reveal(Num::plus);
    if a.finite() && b.finite() {
        lemma_plus_near(a, b);
    }
}

/// A sum grows with its second term.
pub proof fn lemma_plus_monotone(a: Num, b: Num, c: Num)
    requires
        b.le(c),
        !a.plus(b).nan(),
        !a.plus(c).nan(),
    ensures
        a.plus(b).le(a.plus(c)),
{
    reveal(Num::le);
    reveal(Num::plus);
    if a.finite() && b.finite() && c.finite() {
        lemma_plus_near(a, b);
        lemma_plus_near(a, c);
        crate::num::lemma_order_is_numeric(b, c);
        lemma_near_monotone(a.value() + b.value(), a.value() + c.value());
    }
}

/// Adding zero changes nothing but, at most, the sign of a zero.
pub proof fn lemma_plus_zero(a: Num, z: Num)
    requires
        !a.nan(),
        z.magnitude() == 0,
    ensures
        a.plus(z).key() == a.key(),
        !a.plus(z).nan(),
{
    reveal(Num::plus);
    if a.finite() {
        lemma_plus_near(a, z);
        lemma_steps_zero(z);
        lemma_near_exact(a);
    }
}

/// Adding something that is not negative does not lead below the start.
pub proof fn lemma_plus_grows(a: Num, b: Num)
    requires
        Num(ZERO).le(b),
        !a.plus(b).nan(),
    ensures
        a.le(a.plus(b)),
{
    reveal(Num::le);
    lemma_plus_nan(a, b);
    lemma_plus_zero(a, Num(ZERO));
    lemma_plus_monotone(a, Num(ZERO), b);
}

/// Taking away something that is not negative does not lead above the start.
pub proof fn lemma_minus_shrinks(a: Num, b: Num)
    requires
        Num(ZERO).le(b),
        !a.minus(b).nan(),
    ensures
        a.minus(b).le(a),
{
    reveal(Num::le);
    reveal(Num::minus);
    lemma_plus_nan(a, b.opposite());
    lemma_plus_zero(a, Num(ZERO));
    lemma_plus_monotone(a, b.opposite(), Num(ZERO));
}

/// A sum does not depend on the order of its terms.
pub proof fn lemma_plus_commutes(a: Num, b: Num)
    ensures
        a.plus(b) == b.plus(a),
{
    reveal(Num::plus);
}

/// A difference grows with what it is taken from.
pub proof fn lemma_minus_from(a: Num, b: Num, c: Num)
    requires
        a.le(b),
        !a.minus(c).nan(),
        !b.minus(c).nan(),
    ensures
        a.minus(c).le(b.minus(c)),
{
    reveal(Num::le);
    reveal(Num::minus);
    lemma_plus_commutes(a, c.opposite());
    lemma_plus_commutes(b, c.opposite());
    lemma_plus_monotone(c.opposite(), a, b);
}

/// A product of finite numbers that are not negative is a number, and not
/// negative.
pub proof fn lemma_times_nonnegative(a: Num, b: Num)
    requires
        a.finite(),
        b.finite(),
        Num(ZERO).le(a),
        Num(ZERO).le(b),
    ensures
        Num(ZERO).le(a.times(b)),
        !a.times(b).nan(),
{
    reveal(Num::le);
    reveal(Num::times);
    lemma_steps_zero(a);
    lemma_steps_zero(b);
    if a.negative() != b.negative() {
        assert(a.steps() * b.steps() == 0) by (nonlinear_arith)
            requires
                a.steps() == 0 || b.steps() == 0,
        ;
        lemma_round_nothing();
    }
}

/// Zero rounds to zero.
pub proof fn lemma_round_nothing()
    ensures
        crate::rounding::round_magnitude(0, crate::num::unit()) == 0,
        crate::rounding::round_magnitude(0, 1) == 0,
{
    lemma_round_exact(Num(ZERO));
    lemma_steps_zero(Num(ZERO));
    vstd::arithmetic::power2::lemma_pow2_pos(1074);
    lemma_round_cancel(0, crate::num::unit());
}

/// Half of a finite number that is not negative is finite, and not negative.
pub proof fn lemma_half(a: Num)
    requires
        a.finite(),
        Num(ZERO).le(a),
    ensures
        a.over(Num(crate::num::TWO)).finite(),
        Num(ZERO).le(a.over(Num(crate::num::TWO))),
{
    reveal(Num::over);
    reveal(Num::le);
    let two = Num(crate::num::TWO);
    let u = crate::num::unit();
    lemma_steps_zero(a);
    assert(two.steps() == 2 * u) by {
        assert(two.significand() == 0x10_0000_0000_0000);
        assert(two.exponent() == 1023);
        vstd::arithmetic::power2::lemma2_to64_rest();
        vstd::arithmetic::power2::lemma_pow2_adds(52, 1023);
        vstd::arithmetic::power2::lemma_pow2_adds(1, 1074);
        vstd::arithmetic::power2::lemma2_to64();
    }
    vstd::arithmetic::power2::lemma_pow2_pos(1074);
    let d = two.steps();
    assert(d > 0);
    assert(a.steps() * u <= a.steps() * d) by (nonlinear_arith)
        requires
            u <= d,
    ;
    lemma_round_monotone(a.steps() * u, a.steps() * d, d);
    lemma_round_cancel(a.steps(), d);
    lemma_round_exact(a);
    if a.negative() {
        assert(a.steps() * u == 0) by (nonlinear_arith)
            requires
                a.steps() == 0,
        ;
        lemma_round_zero_over(d);
    }
}

/// Zero over anything rounds to zero.
pub proof fn lemma_round_zero_over(d: nat)
    requires
        d > 0,
    ensures
        crate::rounding::round_magnitude(0, d) == 0,
{
    lemma_round_cancel(0, d);
    lemma_round_exact(Num(ZERO));
    lemma_steps_zero(Num(ZERO));
}

/// Stepping back by one width and forward by another leaves an interval that
/// is the right way round.
pub proof fn lemma_span(a: Num, back: Num, forth: Num)
    requires
        !a.nan(),
        Num(ZERO).le(back),
        Num(ZERO).le(forth),
        back.finite(),
        forth.finite(),
    ensures
        a.minus(back).le(a),
        a.le(a.plus(forth)),
        a.minus(back).le(a.plus(forth)),
{
    reveal(Num::le);
    reveal(Num::minus);
    lemma_plus_nan(a, back.opposite());
    lemma_plus_nan(a, forth);
    lemma_minus_shrinks(a, back);
    lemma_plus_grows(a, forth);
}

/// A short whole number of steps at any exponent is representable: it rounds
/// to itself.
pub proof fn lemma_round_short(n: nat, k: nat)
    requires
        n < 0x20_0000_0000_0000,
        k <= 1980,
    ensures
        ({
            let m = crate::rounding::round_magnitude(n * vstd::arithmetic::power2::pow2(k), 1);
            let x = crate::num::signed(false, m);
            &&& m < 0x7ff0_0000_0000_0000
            &&& x.finite()
            &&& !x.negative()
            &&& x.magnitude() == m
            &&& x.steps() == n * vstd::arithmetic::power2::pow2(k)
        }),
{
    let p = vstd::arithmetic::power2::pow2(k);
    let t = n * p;
    let j = crate::rounding::scale(t);
    let q = vstd::arithmetic::power2::pow2(j);
    vstd::arithmetic::power2::lemma_pow2_pos(k);
    vstd::arithmetic::power2::lemma_pow2_pos(j);
    vstd::arithmetic::power2::lemma2_to64_rest();
    lemma_scale_bounds(t);
    if j > k {
        vstd::arithmetic::power2::lemma_pow2_adds(53, k);
        if 53 + k < 52 + j {
            vstd::arithmetic::power2::lemma_pow2_strictly_increases(53 + k, (52 + j) as nat);
        }
        assert(n * p < 0x20_0000_0000_0000 * p) by (nonlinear_arith)
            requires
                n < 0x20_0000_0000_0000,
                p > 0,
        ;
        assert(false);
    }
    let e = (k - j) as nat;
    let f = vstd::arithmetic::power2::pow2(e);
    vstd::arithmetic::power2::lemma_pow2_adds(e, j);
    let m = n * f;
    assert(t == m * q) by (nonlinear_arith)
        requires
            t == n * p,
            p == f * q,
            m == n * f,
    ;
    vstd::arithmetic::div_mod::lemma_fundamental_div_mod_converse(t as int, q as int, m as int, 0);
    vstd::arithmetic::power2::lemma_pow2_adds(53, j);
    vstd::arithmetic::power2::lemma_pow2_adds(52, j);
    assert(m < 0x20_0000_0000_0000) by (nonlinear_arith)
        requires
            t == m * q,
            t < 0x20_0000_0000_0000 * q,
            q > 0,
    ;
    if j > 0 {
        assert(m >= 0x10_0000_0000_0000) by (nonlinear_arith)
            requires
                t == m * q,
                t >= 0x10_0000_0000_0000 * q,
                q > 0,
        ;
    }
    let code = j * 0x10_0000_0000_0000 + m;
    assert(crate::rounding::round_magnitude(t, 1) == code);
    let x = crate::num::signed(false, code);
    assert(x.magnitude() == code);
    assert(x.significand() == m && x.exponent() == j);
}

/// A whole number of at most 53 bits is held exactly.
pub proof fn lemma_of_int_exact(n: nat)
    requires
        n < 0x20_0000_0000_0000,
    ensures
        crate::num::of_int(n).finite(),
        !crate::num::of_int(n).negative(),
        crate::num::of_int(n).steps() == n * crate::num::unit(),
        crate::num::of_int(n).value() == n * crate::num::unit(),
{
    reveal(crate::num::of_int);
    lemma_round_short(n, 1074);
}

/// The part of a whole is between 0 and 1.
pub proof fn lemma_over_share(a: Num, b: Num)
    requires
        Num(ZERO).le(a),
        a.le(b),
        Num(ZERO).lt(b),
        b.finite(),
    ensures
        Num(ZERO).le(a.over(b)),
        a.over(b).le(Num(ONE)),
{
    reveal(Num::over);
    reveal(Num::le);
    reveal(Num::lt);
    let u = crate::num::unit();
    vstd::arithmetic::power2::lemma_pow2_pos(1074);
    lemma_steps_zero(a);
    lemma_steps_zero(b);
    crate::num::lemma_magnitude_order(a, b);
    let d = b.steps();
    assert(a.steps() * u <= u * d) by (nonlinear_arith)
        requires
            a.steps() <= d,
    ;
    lemma_round_monotone(a.steps() * u, u * d, d);
    lemma_round_cancel(u, d);
    lemma_one();
    lemma_round_exact(Num(ONE));
    if a.negative() {
        assert(a.steps() * u == 0) by (nonlinear_arith)
            requires
                a.steps() == 0,
        ;
        lemma_round_zero_over(d);
    }
}

/// One is `unit` steps.
pub proof fn lemma_one()
    ensures
        Num(ONE).steps() == crate::num::unit(),
        Num(ONE).finite(),
        !Num(ONE).negative(),
{
    vstd::arithmetic::power2::lemma2_to64_rest();
    vstd::arithmetic::power2::lemma_pow2_adds(52, 1022);
    assert(Num(ONE).significand() == 0x10_0000_0000_0000);
    assert(Num(ONE).exponent() == 1022);
}

/// A part of a number that is not negative is not above it.
pub proof fn lemma_times_share(a: Num, b: Num)
    requires
        Num(ZERO).le(a),
        a.le(Num(ONE)),
        Num(ZERO).le(b),
        b.finite(),
    ensures
        Num(ZERO).le(a.times(b)),
        a.times(b).le(b),
        a.times(b).finite(),
{
    reveal(Num::le);
    lemma_one();
    lemma_times_nonnegative(a, b);
    reveal(Num::times);
    let u = crate::num::unit();
    vstd::arithmetic::power2::lemma_pow2_pos(1074);
    lemma_steps_zero(a);
    lemma_steps_zero(b);
    crate::num::lemma_magnitude_order(a, Num(ONE));
    assert(a.steps() * b.steps() <= b.steps() * u) by (nonlinear_arith)
        requires
            a.steps() <= u,
    ;
    lemma_round_monotone(a.steps() * b.steps(), b.steps() * u, u);
    lemma_round_cancel(b.steps(), u);
    lemma_round_exact(b);
}

/// The difference of two finite numbers has the sign of their order.
pub proof fn lemma_minus_sign(a: Num, b: Num)
    requires
        a.finite(),
        b.finite(),
    ensures
        a.le(b) ==> Num(ZERO).le(b.minus(a)),
        a.lt(b) ==> Num(ZERO).lt(b.minus(a)),
        !b.minus(a).nan(),
{
    reveal(Num::minus);
    reveal(Num::le);
    reveal(Num::lt);
    lemma_plus_near(b, a.opposite());
    assert(a.opposite().value() == -a.value());
    crate::num::lemma_order_is_numeric(a, b);
    let v = b.value() - a.value();
    lemma_steps_zero(Num(ZERO));
    lemma_near_exact(Num(ZERO));
    if v >= 0 {
        lemma_near_monotone(0, v);
    }
    if v > 0 {
        lemma_round_monotone(1, v as nat, 1);
        vstd::arithmetic::power2::lemma2_to64();
        lemma_round_short(1, 0);
        lemma_steps_zero(crate::num::signed(false, crate::rounding::round_magnitude(1, 1)));
    }
}

/// The whole part of a small number that is not negative, floored or not.
pub proof fn lemma_floor_whole(x: Num)
    requires
        x.finite(),
        !x.negative(),
        x.steps() / crate::num::unit() <= 0xffff_ffff,
    ensures
        x.floored().whole() == x.steps() / crate::num::unit(),
{
    reveal(Num::floored);
    reveal(Num::whole);
    let u = crate::num::unit();
    let n = x.steps() / u;
    vstd::arithmetic::power2::lemma_pow2_pos(1074);
    lemma_round_short(n, 1074);
    vstd::arithmetic::div_mod::lemma_div_multiples_vanish(n as int, u as int);
    assert(u * n == n * u) by (nonlinear_arith);
}

/// The sum of two finite numbers whose exact sum is representable is exact.
pub proof fn lemma_plus_exact(a: Num, b: Num, c: Num)
    requires
        a.finite(),
        b.finite(),
        c.finite(),
        a.value() + b.value() == c.value(),
    ensures
        a.plus(b).key() == c.key(),
        !a.plus(b).nan(),
{
    lemma_plus_near(a, b);
    lemma_near_exact(c);
}

/// A sum whose exact value is not below a number is not below it, and the
/// other way round.
pub proof fn lemma_plus_against(a: Num, b: Num, c: Num)
    requires
        a.finite(),
        b.finite(),
        c.finite(),
    ensures
        c.value() <= a.value() + b.value() ==> c.le(a.plus(b)),
        a.value() + b.value() <= c.value() ==> a.plus(b).le(c),
{
    reveal(Num::le);
    lemma_plus_near(a, b);
    lemma_near_exact(c);
    let v = a.value() + b.value();
    if c.value() <= v {
        lemma_near_monotone(c.value(), v);
    }
    if v <= c.value() {
        lemma_near_monotone(v, c.value());
    }
}

/// Magnitudes that follow those of two numbers, under their signs, keep the
/// numbers' order.
proof fn lemma_signed_monotone(a: Num, b: Num, ma: nat, mb: nat)
    requires
        a.le(b),
        ma <= 0x7ff0_0000_0000_0000,
        mb <= 0x7ff0_0000_0000_0000,
        !a.negative() && !b.negative() ==> ma <= mb,
        a.negative() && b.negative() ==> mb <= ma,
        a.magnitude() == 0 ==> ma == 0,
        b.magnitude() == 0 ==> mb == 0,
    ensures
        crate::num::signed(a.negative(), ma).le(crate::num::signed(b.negative(), mb)),
{
    reveal(Num::le);
}

/// A quotient by something positive grows with what is divided.
pub proof fn lemma_over_monotone(a: Num, b: Num, d: Num)
    requires
        a.le(b),
        d.finite(),
        Num(ZERO).lt(d),
    ensures
        a.over(d).le(b.over(d)),
{
    reveal(Num::le);
    reveal(Num::lt);
    reveal(Num::over);
    lemma_steps_zero(d);
    let u = crate::num::unit();
    let ma = if a.infinite() {
        0x7ff0_0000_0000_0000
    } else {
        crate::rounding::round_magnitude(a.steps() * u, d.steps())
    };
    let mb = if b.infinite() {
        0x7ff0_0000_0000_0000
    } else {
        crate::rounding::round_magnitude(b.steps() * u, d.steps())
    };
    lemma_round_zero_over(d.steps());
    if a.finite() && b.finite() {
        crate::num::lemma_magnitude_order(a, b);
        crate::num::lemma_magnitude_order(b, a);
        lemma_steps_zero(a);
        lemma_steps_zero(b);
        if a.steps() <= b.steps() {
            assert(a.steps() * u <= b.steps() * u) by (nonlinear_arith)
                requires
                    a.steps() <= b.steps(),
            ;
            lemma_round_monotone(a.steps() * u, b.steps() * u, d.steps());
        }
        if b.steps() <= a.steps() {
            assert(b.steps() * u <= a.steps() * u) by (nonlinear_arith)
                requires
                    b.steps() <= a.steps(),
            ;
            lemma_round_monotone(b.steps() * u, a.steps() * u, d.steps());
        }
    } else if a.finite() {
        lemma_steps_zero(a);
    } else if b.finite() {
        lemma_steps_zero(b);
    }
    assert(a.steps() == 0 ==> a.steps() * u == 0) by (nonlinear_arith);
    assert(b.steps() == 0 ==> b.steps() * u == 0) by (nonlinear_arith);
    lemma_signed_monotone(a, b, ma, mb);
}

/// A product does not depend on the order of its factors.
pub proof fn lemma_times_commutes(a: Num, b: Num)
    ensures
        a.times(b) == b.times(a),
{
    reveal(Num::times);
    assert(a.steps() * b.steps() == b.steps() * a.steps()) by (nonlinear_arith);
}

/// A product by something positive grows with the other factor.
pub proof fn lemma_times_monotone(a: Num, b: Num, d: Num)
    requires
        a.le(b),
        d.finite(),
        Num(ZERO).lt(d),
    ensures
        a.times(d).le(b.times(d)),
{
    reveal(Num::le);
    reveal(Num::lt);
    reveal(Num::times);
    lemma_steps_zero(d);
    lemma_round_nothing();
    let u = crate::num::unit();
    vstd::arithmetic::power2::lemma_pow2_pos(1074);
    let ma = if a.infinite() {
        0x7ff0_0000_0000_0000
    } else {
        crate::rounding::round_magnitude(a.steps() * d.steps(), u)
    };
    let mb = if b.infinite() {
        0x7ff0_0000_0000_0000
    } else {
        crate::rounding::round_magnitude(b.steps() * d.steps(), u)
    };
    if a.finite() && b.finite() {
        crate::num::lemma_magnitude_order(a, b);
        crate::num::lemma_magnitude_order(b, a);
        lemma_steps_zero(a);
        lemma_steps_zero(b);
        if a.steps() <= b.steps() {
            assert(a.steps() * d.steps() <= b.steps() * d.steps()) by (nonlinear_arith)
                requires
                    a.steps() <= b.steps(),
            ;
            lemma_round_monotone(a.steps() * d.steps(), b.steps() * d.steps(), u);
        }
        if b.steps() <= a.steps() {
            assert(b.steps() * d.steps() <= a.steps() * d.steps()) by (nonlinear_arith)
                requires
                    b.steps() <= a.steps(),
            ;
            lemma_round_monotone(b.steps() * d.steps(), a.steps() * d.steps(), u);
        }
    } else if a.finite() {
        lemma_steps_zero(a);
    } else if b.finite() {
        lemma_steps_zero(b);
    }
    assert(a.steps() == 0 ==> a.steps() * d.steps() == 0) by (nonlinear_arith);
    assert(b.steps() == 0 ==> b.steps() * d.steps() == 0) by (nonlinear_arith);
    lemma_signed_monotone(a, b, ma, mb);
}

/// Rounding to a whole number keeps the order.
pub proof fn lemma_rounded_monotone(a: Num, b: Num)
    requires
        a.le(b),
    ensures
        a.rounded().le(b.rounded()),
{
    reveal(Num::le);
    reveal(Num::rounded);
    let u = crate::num::unit();
    vstd::arithmetic::power2::lemma_pow2_pos(1074);
    lemma_round_nothing();
    let wa = (2 * a.steps() + u) / (2 * u);
    let wb = (2 * b.steps() + u) / (2 * u);
    let ma = if a.infinite() {
        0x7ff0_0000_0000_0000
    } else {
        crate::rounding::round_magnitude(wa * u, 1)
    };
    let mb = if b.infinite() {
        0x7ff0_0000_0000_0000
    } else {
        crate::rounding::round_magnitude(wb * u, 1)
    };
    if a.finite() {
        lemma_steps_zero(a);
        assert(a.steps() == 0 ==> wa * u == 0) by (nonlinear_arith)
            requires
                u > 0,
                wa == (2 * a.steps() + u) / (2 * u),
        ;
    }
    if b.finite() {
        lemma_steps_zero(b);
        assert(b.steps() == 0 ==> wb * u == 0) by (nonlinear_arith)
            requires
                u > 0,
                wb == (2 * b.steps() + u) / (2 * u),
        ;
    }
    if a.finite() && b.finite() {
        crate::num::lemma_magnitude_order(a, b);
        crate::num::lemma_magnitude_order(b, a);
        if a.steps() <= b.steps() {
            vstd::arithmetic::div_mod::lemma_div_is_ordered(
                (2 * a.steps() + u) as int,
                (2 * b.steps() + u) as int,
                (2 * u) as int,
            );
            assert(wa * u <= wb * u) by (nonlinear_arith)
                requires
                    wa <= wb,
            ;
            lemma_round_monotone(wa * u, wb * u, 1);
        }
        if b.steps() <= a.steps() {
            vstd::arithmetic::div_mod::lemma_div_is_ordered(
                (2 * b.steps() + u) as int,
                (2 * a.steps() + u) as int,
                (2 * u) as int,
            );
            assert(wb * u <= wa * u) by (nonlinear_arith)
                requires
                    wb <= wa,
            ;
            lemma_round_monotone(wb * u, wa * u, 1);
        }
    }
    lemma_signed_monotone(a, b, ma, mb);
}

} // verus!
