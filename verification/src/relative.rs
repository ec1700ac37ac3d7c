//! Values that are equal but for a relative rounding error.

use crate::num::{unit, Num};
use crate::precision::{apart, lemma_over_error, lemma_plus_error, lemma_times_error, reach};
use vstd::prelude::*;

verus! {

/// `x` lies within `n` parts in two to the 50th power of the positive `y`.
pub open spec fn about(x: int, y: int, n: int) -> bool {
    0 < y && 0 <= n <= 0x10_0000 && apart(x, y) * 0x4_0000_0000_0000 <= n * y
}

/// A number far beyond any quantity, and far below the range.
pub open spec fn vast() -> int {
    (0x4_0000_0000_0000 * 0x4_0000_0000_0000 * (0x4_0000_0000_0000 * 0x4_0000_0000_0000)) as int
}

/// One in steps is vast, and so is the range above one.
pub proof fn lemma_vast()
    ensures
        unit() >= vast(),
        reach() >= vast() * unit(),
        vast() >= 0x1_0000_0000_0000_0000_0000_0000_0000,
{
    let a: int = 0x4_0000_0000_0000;
    assert(a * a * (a * a) >= 0x1_0000_0000_0000_0000_0000_0000_0000) by (nonlinear_arith)
        requires
            a == 0x4_0000_0000_0000,
    ;
    reveal(reach);
    vstd::arithmetic::power2::lemma2_to64();
    vstd::arithmetic::power2::lemma2_to64_rest();
    vstd::arithmetic::power2::lemma_pow2_adds(50, 50);
    vstd::arithmetic::power2::lemma_pow2_adds(100, 100);
    vstd::arithmetic::power2::lemma_pow2_adds(200, 1074);
    vstd::arithmetic::power2::lemma_pow2_strictly_increases(200, 1074);
    vstd::arithmetic::power2::lemma_pow2_strictly_increases(1274, 1980);
    assert(vstd::arithmetic::power2::pow2(100) == 0x4_0000_0000_0000 * 0x4_0000_0000_0000);
    assert(vstd::arithmetic::power2::pow2(200) == vast());
}

/// It is positive too, and the other one lies as near to it.
pub proof fn lemma_about_back(x: int, y: int, n: int)
    requires
        about(x, y, n),
        n < 0x10_0000,
    ensures
        x > 0,
        y <= 2 * x,
        x <= 2 * y,
        about(y, x, n + 1),
{
    assert(n * y <= 0x10_0000 * y) by (nonlinear_arith)
        requires
            n <= 0x10_0000,
            y > 0,
    ;
    let d = apart(x, y);
    assert(d * 0x4_0000_0000_0000 <= (n + 1) * x) by (nonlinear_arith)
        requires
            d * 0x4_0000_0000_0000 <= n * y,
            y <= x + d,
            0 <= n <= 0x10_0000,
            d * 0x4_0000_0000_0000 <= 0x10_0000 * y,
            y <= 2 * x,
            x > 0,
    ;
}

/// Errors add up.
pub proof fn lemma_about_chain(x: int, y: int, z: int, n: int, m: int)
    requires
        about(x, y, n),
        about(y, z, m),
        n + m < 0x10_0000,
    ensures
        about(x, z, n + m + 1),
{
    let (d, e) = (apart(x, y), apart(y, z));
    assert(n * y <= (n + 1) * z) by (nonlinear_arith)
        requires
            y <= z + e,
            e * 0x4_0000_0000_0000 <= m * z,
            0 <= n,
            0 <= m,
            n + m < 0x10_0000,
            z > 0,
    ;
    assert((n + 1) * z + m * z == (n + m + 1) * z) by (nonlinear_arith);
}

/// Terms that are near have a near sum.
pub proof fn lemma_about_sum(x: int, y: int, p: int, q: int, n: int)
    requires
        about(x, y, n),
        about(p, q, n),
    ensures
        about(x + p, y + q, n),
{
    assert(n * y + n * q == n * (y + q)) by (nonlinear_arith);
}

/// A common factor changes nothing.
pub proof fn lemma_about_scaled(x: int, y: int, k: int, n: int)
    requires
        about(x, y, n),
        k > 0,
    ensures
        about(x * k, y * k, n),
{
    let d = apart(x, y);
    assert(apart(x * k, y * k) == d * k) by (nonlinear_arith)
        requires
            d == apart(x, y),
            k > 0,
    ;
    assert(d * k * 0x4_0000_0000_0000 <= n * (y * k)) by (nonlinear_arith)
        requires
            d * 0x4_0000_0000_0000 <= n * y,
            k > 0,
    ;
    assert(y * k > 0) by (nonlinear_arith)
        requires
            y > 0,
            k > 0,
    ;
}

/// A rounded sum of positive numbers is near.
pub proof fn lemma_about_plus(a: Num, b: Num)
    requires
        a.finite() && b.finite(),
        0 < a.value() + b.value() <= reach(),
    ensures
        a.plus(b).finite(),
        about(a.plus(b).value(), a.value() + b.value(), 1),
{
    lemma_plus_error(a, b);
}

/// A rounded product of positive numbers that is not tiny is near.
pub proof fn lemma_about_times(a: Num, b: Num)
    requires
        a.finite() && b.finite(),
        a.value() > 0 && b.value() > 0,
        unit() * 0x10_0000_0000_0000 <= a.value() * b.value(),
        a.value() * b.value() <= reach() * unit(),
    ensures
        a.times(b).finite(),
        about(a.times(b).value() * unit(), a.value() * b.value(), 1),
{
    vstd::arithmetic::power2::lemma_pow2_pos(1074);
    lemma_times_error(a, b);
}

/// A rounded quotient of positive numbers that is not tiny is near.
pub proof fn lemma_about_over(a: Num, b: Num)
    requires
        a.finite() && b.finite(),
        a.value() > 0 && b.value() > 0,
        b.value() * 0x10_0000_0000_0000 <= a.value() * unit(),
        a.value() * unit() <= reach() * b.value(),
    ensures
        a.over(b).finite(),
        about(a.over(b).value() * b.value(), a.value() * unit(), 1),
{
    lemma_over_error(a, b);
}

} // verus!
