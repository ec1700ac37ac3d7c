//! How far rounded arithmetic is from exact arithmetic.
//!
//! A rounded result differs from the exact one by at most its two to the 53rd
//! part, or by half a step where it is smaller than that.

use crate::num::{signed, unit, Num};
use crate::order::{
    lemma_nearest_range, lemma_round_cancel, lemma_round_monotone, lemma_round_short,
    lemma_scale_bounds, lemma_steps_zero,
};
use crate::rounding::{nearest_even, round_magnitude, scale};
use vstd::arithmetic::div_mod::lemma_fundamental_div_mod;
use vstd::arithmetic::power2::{lemma2_to64_rest, lemma_pow2_adds, lemma_pow2_pos, pow2};
use vstd::prelude::*;

verus! {

/// Results up to this many steps are finite.
#[verifier::opaque]
pub open spec fn reach() -> nat {
    pow2(1980)
}

/// The distance of two values.
pub open spec fn apart(a: int, b: int) -> int {
    if a >= b {
        a - b
    } else {
        b - a
    }
}

/// What one rounding can move a value by that is at most `b` steps large.
pub open spec fn grain(b: int) -> int {
    b / 0x20_0000_0000_0000 + 2
}

proof fn lemma_encoded(k: nat, m: nat)
    requires
        m <= 0x20_0000_0000_0000,
        k > 0 ==> m >= 0x10_0000_0000_0000,
        k * 0x10_0000_0000_0000 + m < 0x7ff0_0000_0000_0000,
    ensures
        ({
            let x = signed(false, k * 0x10_0000_0000_0000 + m);
            x.finite() && !x.negative() && x.steps() == m * pow2(k)
        }),
{
    let x = signed(false, k * 0x10_0000_0000_0000 + m);
    let p = pow2(k);
    assert(x.magnitude() == k * 0x10_0000_0000_0000 + m);
    if m == 0x20_0000_0000_0000 {
        assert(x.significand() == 0x10_0000_0000_0000);
        assert(x.exponent() == k + 1);
        vstd::arithmetic::power2::lemma_pow2_unfold(k + 1);
        assert(0x10_0000_0000_0000 * (2 * p) == 0x20_0000_0000_0000 * p) by (nonlinear_arith);
    } else {
        assert(x.significand() == m);
        assert(x.exponent() == k);
    }
}

proof fn lemma_nearest_error(n: nat, d: nat)
    requires
        d > 0,
    ensures
        2 * apart((nearest_even(n, d) * d) as int, n as int) <= d,
{
    lemma_fundamental_div_mod(n as int, d as int);
    let q = n / d;
    let r = n % d;
    assert(q * d == d * q) by (nonlinear_arith);
    assert((q + 1) * d == d * q + d) by (nonlinear_arith);
}

/// A rounded ratio is near the exact one.
pub proof fn lemma_round_error(n: nat, d: nat)
    requires
        d > 0,
        round_magnitude(n, d) < 0x7ff0_0000_0000_0000,
    ensures
        ({
            let x = signed(false, round_magnitude(n, d));
            &&& x.finite()
            &&& !x.negative()
            &&& x.magnitude() == round_magnitude(n, d)
            &&& apart((x.steps() * d) as int, n as int) * 0x20_0000_0000_0000 <= n + d
                * 0x10_0000_0000_0000
            &&& d == 1 ==> apart((x.steps() * d) as int, n as int) * 0x20_0000_0000_0000 <= n
        }),
{
    let t = n / d;
    let k = scale(t);
    let p = pow2(k);
    let m = nearest_even(n, d * p);
    lemma_pow2_pos(k);
    lemma_nearest_range(n, d);
    assert(d * p > 0) by (nonlinear_arith)
        requires
            d > 0,
            p > 0,
    ;
    lemma_nearest_error(n, d * p);
    lemma_encoded(k, m);
    let x = signed(false, round_magnitude(n, d));
    assert(x.steps() * d == m * (d * p)) by (nonlinear_arith)
        requires
            x.steps() == m * p,
    ;
    let gap = apart((x.steps() * d) as int, n as int);
    lemma_fundamental_div_mod(n as int, d as int);
    if k > 0 {
        lemma_scale_bounds(t);
        lemma2_to64_rest();
        lemma_pow2_adds(52, k);
        assert(d * p * 0x10_0000_0000_0000 <= n) by (nonlinear_arith)
            requires
                t >= 0x10_0000_0000_0000 * p,
                n == d * t + n % d,
                n % d >= 0,
                d > 0,
        ;
    } else {
        lemma2_to64_rest();
        vstd::arithmetic::power2::lemma2_to64();
        assert(p == 1);
        assert(d * p == d) by (nonlinear_arith)
            requires
                p == 1,
        ;
    }
}

/// A ratio within reach rounds to something finite.
pub proof fn lemma_within_reach(n: nat, d: nat)
    requires
        d > 0,
        n <= reach() * d,
    ensures
        round_magnitude(n, d) < 0x7ff0_0000_0000_0000,
{
    reveal(reach);
    lemma_round_monotone(n, reach() * d, d);
    lemma_round_cancel(reach(), d);
    lemma_round_short(1, 1980);
}

/// The rounded sum is near the exact one.
pub proof fn lemma_plus_error(a: Num, b: Num)
    requires
        a.finite(),
        b.finite(),
        apart(a.value() + b.value(), 0) <= reach(),
    ensures
        a.plus(b).finite(),
        apart(a.plus(b).value(), a.value() + b.value()) * 0x20_0000_0000_0000 <= apart(
            a.value() + b.value(),
            0,
        ),
{
    reveal(Num::plus);
    let sum = a.value() + b.value();
    let n = apart(sum, 0) as nat;
    lemma_within_reach(n, 1);
    lemma_round_error(n, 1);
    let r = round_magnitude(n, 1);
    let x = signed(false, r);
    if sum == 0 {
        lemma_steps_zero(signed(false, 0));
        lemma_steps_zero(signed(true, 0));
    } else if sum < 0 {
        let y = signed(true, r);
        assert(y.magnitude() == r && y.negative());
        assert(y.steps() == x.steps());
    }
}

/// The rounded difference is near the exact one.
pub proof fn lemma_minus_error(a: Num, b: Num)
    requires
        a.finite(),
        b.finite(),
        apart(a.value(), b.value()) <= reach(),
    ensures
        a.minus(b).finite(),
        apart(a.minus(b).value(), a.value() - b.value()) * 0x20_0000_0000_0000 <= apart(
            a.value(),
            b.value(),
        ),
{
    reveal(Num::minus);
    assert(b.opposite().value() == -b.value());
    lemma_plus_error(a, b.opposite());
}

/// The rounded product of numbers that are not negative is near the exact
/// one.
pub proof fn lemma_times_error(a: Num, b: Num)
    requires
        a.finite(),
        b.finite(),
        a.steps() * b.steps() <= reach() * unit(),
    ensures
        a.times(b).finite(),
        apart(a.times(b).value() * unit(), a.value() * b.value()) * 0x20_0000_0000_0000
            <= a.steps() * b.steps() + unit() * 0x10_0000_0000_0000,
{
    reveal(Num::times);
    let u = unit();
    lemma_pow2_pos(1074);
    let n = a.steps() * b.steps();
    lemma_within_reach(n, u);
    lemma_round_error(n, u);
    let r = round_magnitude(n, u);
    let x = signed(false, r);
    let y = a.times(b);
    assert(y.magnitude() == r);
    assert(y.steps() == x.steps());
    let (s, t) = (a.steps() as int, b.steps() as int);
    assert((-s) * t == -(s * t) && s * (-t) == -(s * t) && (-s) * (-t) == s * t) by (nonlinear_arith);
    let z = x.steps() as int;
    assert((-z) * u == -(z * u)) by (nonlinear_arith);
}

/// The rounded quotient by something positive is near the exact one.
pub proof fn lemma_over_error(a: Num, b: Num)
    requires
        a.finite(),
        b.finite(),
        b.value() > 0,
        a.steps() * unit() <= reach() * b.steps(),
    ensures
        a.over(b).finite(),
        apart(a.over(b).value() * b.value(), a.value() * unit()) * 0x20_0000_0000_0000 <= a.steps()
            * unit() + b.steps() * 0x10_0000_0000_0000,
{
    reveal(Num::over);
    let u = unit();
    lemma_pow2_pos(1074);
    lemma_steps_zero(b);
    let d = b.steps();
    let n = a.steps() * u;
    lemma_within_reach(n, d);
    lemma_round_error(n, d);
    let r = round_magnitude(n, d);
    let x = signed(false, r);
    let y = a.over(b);
    assert(y.magnitude() == r);
    assert(y.steps() == x.steps());
    let (s, z) = (a.steps() as int, x.steps() as int);
    assert((-z) * d == -(z * d) && (-s) * u == -(s * u)) by (nonlinear_arith);
}

/// A rounded ratio is no larger than a power of two that the exact one does
/// not exceed.
proof fn lemma_round_below(n: nat, d: nat, k: nat)
    requires
        d > 0,
        n <= pow2(k) * d,
        k <= 1980,
    ensures
        round_magnitude(n, d) < 0x7ff0_0000_0000_0000,
        signed(false, round_magnitude(n, d)).steps() <= pow2(k),
{
    lemma_round_monotone(n, pow2(k) * d, d);
    lemma_round_cancel(pow2(k), d);
    lemma_round_short(1, k);
    let (x, y) = (
        signed(false, round_magnitude(n, d)),
        signed(false, round_magnitude(1 * pow2(k), 1)),
    );
    crate::num::lemma_magnitude_order(y, x);
}

/// A product is no larger than the powers of two that bound its factors make
/// it.
pub proof fn lemma_times_below(a: Num, b: Num, m: nat, n: nat, k: nat)
    requires
        a.finite() && a.steps() <= pow2(m),
        b.finite() && b.steps() <= pow2(n),
        m + n == k + 1074,
        k <= 1980,
    ensures
        a.times(b).finite(),
        a.times(b).steps() <= pow2(k),
{
    reveal(Num::times);
    let u = unit();
    lemma_pow2_pos(1074);
    lemma_pow2_adds(m, n);
    lemma_pow2_adds(k, 1074);
    assert(a.steps() * b.steps() <= pow2(k) * u) by (nonlinear_arith)
        requires
            a.steps() <= pow2(m),
            b.steps() <= pow2(n),
            pow2(m) * pow2(n) == pow2(k) * u,
    ;
    lemma_round_below(a.steps() * b.steps(), u, k);
    let y = a.times(b);
    let r = round_magnitude(a.steps() * b.steps(), u);
    assert(y.magnitude() == r);
    assert(y.steps() == signed(false, r).steps());
}

/// A quotient is no larger than the powers of two that bound its parts make
/// it.
pub proof fn lemma_over_below(a: Num, b: Num, m: nat, n: nat, k: nat)
    requires
        a.finite() && a.steps() <= pow2(m),
        b.finite() && b.steps() >= pow2(n),
        m + 1074 == k + n,
        k <= 1980,
    ensures
        a.over(b).finite(),
        a.over(b).steps() <= pow2(k),
{
    reveal(Num::over);
    let u = unit();
    let d = b.steps();
    lemma_pow2_pos(n);
    lemma_pow2_pos(k);
    lemma_steps_zero(b);
    lemma_pow2_adds(m, 1074);
    lemma_pow2_adds(k, n);
    assert(a.steps() * u <= pow2(k) * d) by (nonlinear_arith)
        requires
            a.steps() <= pow2(m),
            d >= pow2(n),
            pow2(m) * u == pow2(k) * pow2(n),
            pow2(k) > 0,
    ;
    lemma_round_below(a.steps() * u, d, k);
    let y = a.over(b);
    let r = round_magnitude(a.steps() * u, d);
    assert(y.magnitude() == r);
    assert(y.steps() == signed(false, r).steps());
}

} // verus!
