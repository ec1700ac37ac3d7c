//! How the rounded line between two points of a table lies to the exact one,
//! and so that a lookup returns the largest clock that fits.

use crate::lut::{
    belongs, between, clock_of, crossing, interpolated, largest_between, lemma_interpolated_between,
    lemma_one_place, lemma_watts, rising, scanned, watts_of, WHOLE_MHZ_EPSILON,
};
use crate::num::{lemma_order_is_numeric, of_int, unit, Num, ONE, ZERO};
use crate::order::{
    lemma_minus_from, lemma_minus_sign, lemma_of_int_exact, lemma_one, lemma_over_share,
    lemma_plus_against, lemma_steps_zero, lemma_times_share,
};
use crate::precision::{
    apart, grain, lemma_minus_error, lemma_over_error, lemma_plus_error, lemma_times_error, reach,
};
use crate::spending::lemma_scales;
use vstd::arithmetic::power2::{lemma2_to64_rest, lemma_pow2_adds, lemma_pow2_pos, pow2};
use vstd::prelude::*;

verus! {

/// Clocks up to here, in MHz, leave the epsilon above the rounding.
pub const CLOCK_LIMIT_MHZ: u32 = 0x4000_0000;

/// The watts of two points are at most `b` steps large, and that is within
/// reach; their clocks rise.
pub open spec fn bracket(lo: (u32, Num), hi: (u32, Num), b: nat) -> bool {
    &&& 16 * b <= reach()
    &&& lo.0 < hi.0
    &&& lo.1.finite() && lo.1.steps() <= b
    &&& hi.1.finite() && hi.1.steps() <= b
}

/// Facts of the line's parts, without the arithmetic of numbers.
proof fn lemma_line_parts(
    q: int,
    gap: int,
    d: int,
    part: int,
    rise: int,
    prod: int,
    u: int,
    b: int,
)
    requires
        0 <= q <= gap,
        0 < gap,
        u >= 0x20_0000_0000_0000,
        0 <= part <= u,
        apart(d, 0) <= 2 * b,
        apart(rise, 0) <= 3 * b,
        apart(rise, d) * 0x20_0000_0000_0000 <= apart(d, 0),
        apart(part * gap, q * u) * 0x20_0000_0000_0000 <= q * u + gap * 0x10_0000_0000_0000,
        apart(prod * u, part * rise) * 0x20_0000_0000_0000 <= part * apart(rise, 0) + u
            * 0x10_0000_0000_0000,
    ensures
        apart(prod * gap, q * d) * 0x20_0000_0000_0000 <= gap * (11 * b + 0x10_0000_0000_0000),
        apart(prod, 0) <= 4 * b,
{
    let k: int = 0x20_0000_0000_0000;
    let h: int = 0x10_0000_0000_0000;
    let r = apart(rise, 0);
    let gu = gap * u;
    // The product, against the exact product of its factors.
    let e1 = apart(prod * u, part * rise);
    assert(part * r <= u * (3 * b)) by (nonlinear_arith)
        requires
            0 <= part <= u,
            0 <= r <= 3 * b,
    ;
    assert(u * (3 * b) == 3 * (u * b)) by (nonlinear_arith);
    assert(e1 * k <= 3 * (u * b) + u * h);
    assert(apart(prod * u * gap, part * rise * gap) == e1 * gap) by (nonlinear_arith)
        requires
            e1 == apart(prod * u, part * rise),
            gap > 0,
    ;
    assert(e1 * gap * k <= (3 * (u * b) + u * h) * gap) by (nonlinear_arith)
        requires
            e1 * k <= 3 * (u * b) + u * h,
            gap > 0,
    ;
    assert((3 * (u * b) + u * h) * gap == 3 * (gu * b) + gu * h) by (nonlinear_arith)
        requires
            gu == gap * u,
    ;
    // The part, against the exact one.
    let e2 = apart(part * gap, q * u);
    assert(q * u <= gu) by (nonlinear_arith)
        requires
            q <= gap,
            u >= 0,
            gu == gap * u,
    ;
    assert(gap * h <= gu) by (nonlinear_arith)
        requires
            gap > 0,
            h <= u,
            gu == gap * u,
    ;
    assert(e2 * k <= 2 * gu);
    assert(apart(part * gap * rise, q * u * rise) == e2 * r) by (nonlinear_arith)
        requires
            e2 == apart(part * gap, q * u),
            r == apart(rise, 0),
    ;
    assert(e2 * r * k <= 6 * (gu * b)) by (nonlinear_arith)
        requires
            e2 * k <= 2 * gu,
            0 <= e2,
            0 <= r <= 3 * b,
            gu >= 0,
    ;
    // The rise, against the exact one.
    let e3 = apart(rise, d);
    assert(apart(q * u * rise, q * u * d) == q * u * e3) by (nonlinear_arith)
        requires
            e3 == apart(rise, d),
            q >= 0,
            u >= 0,
    ;
    assert(q * u * e3 * k <= 2 * (gu * b)) by (nonlinear_arith)
        requires
            0 <= q * u <= gu,
            0 <= e3,
            e3 * k <= 2 * b,
            b >= 0,
    ;
    assert(part * rise * gap == part * gap * rise) by (nonlinear_arith);
    assert(apart(prod * u * gap, q * u * d) * k <= 11 * (gu * b) + gu * h);
    let e = apart(prod * gap, q * d);
    assert(apart(prod * u * gap, q * u * d) == e * u) by (nonlinear_arith)
        requires
            e == apart(prod * gap, q * d),
            u >= 0,
    ;
    assert(e * k <= gap * (11 * b + h)) by (nonlinear_arith)
        requires
            e * u * k <= 11 * (gu * b) + gu * h,
            gu == gap * u,
            u > 0,
    ;
    let z = apart(prod, 0);
    assert(apart(prod * u, 0) == z * u) by (nonlinear_arith)
        requires
            z == apart(prod, 0),
            u > 0,
    ;
    assert(apart(part * rise, 0) == part * r) by (nonlinear_arith)
        requires
            r == apart(rise, 0),
            part >= 0,
    ;
    assert(z * u * k <= (3 * b * k + 3 * b + h) * u) by (nonlinear_arith)
        requires
            z * u <= part * r + e1,
            part * r <= u * (3 * b),
            e1 * k <= 3 * (u * b) + u * h,
            k > 0,
    ;
    assert(z * k <= 3 * b * k + 3 * b + h) by (nonlinear_arith)
        requires
            z * u * k <= (3 * b * k + 3 * b + h) * u,
            u > 0,
    ;
}

/// The rounded line is near the exact one.
proof fn lemma_between_error(lo: (u32, Num), hi: (u32, Num), mhz: u32, b: nat)
    requires
        bracket(lo, hi, b),
        lo.0 <= mhz <= hi.0,
    ensures
        ({
            let w = between(lo, hi, mhz);
            let gap = hi.0 - lo.0;
            let exact = lo.1.value() * gap + (mhz - lo.0) * (hi.1.value() - lo.1.value());
            &&& w.finite()
            &&& apart(w.value() * gap, exact) <= 16 * grain(b as int) * gap
        }),
{
    reveal(between);
    lemma_scales();
    lemma_one();
    lemma_pow2_pos(1074);
    lemma_steps_zero(Num(ZERO));
    let u = unit() as int;
    let (q, gap) = ((mhz - lo.0) as nat, (hi.0 - lo.0) as nat);
    let (n, m) = (of_int(q), of_int(gap));
    lemma_of_int_exact(q);
    lemma_of_int_exact(gap);
    assert(q * u <= gap * u && gap * u > 0) by (nonlinear_arith)
        requires
            q <= gap,
            gap > 0,
            u > 0,
    ;
    lemma_order_is_numeric(Num(ZERO), n);
    lemma_order_is_numeric(n, m);
    lemma_order_is_numeric(Num(ZERO), m);
    assert(0 <= q * u) by (nonlinear_arith)
        requires
            q >= 0,
            u > 0,
    ;
    lemma_over_share(n, m);
    assert(n.steps() * unit() <= reach() * m.steps()) by (nonlinear_arith)
        requires
            n.steps() <= m.steps(),
            unit() <= reach(),
    ;
    lemma_over_error(n, m);
    let part = n.over(m);
    lemma_order_is_numeric(Num(ZERO), part);
    lemma_order_is_numeric(part, Num(ONE));
    lemma_steps_zero(part);
    let p = part.value();
    let e = apart(p * gap, q * u);
    assert(apart(p * (gap * u), (q * u) * u) == e * u) by (nonlinear_arith)
        requires
            e == apart(p * gap, q * u),
            u > 0,
    ;
    assert(e * 0x20_0000_0000_0000 <= q * u + gap * 0x10_0000_0000_0000) by (nonlinear_arith)
        requires
            e * u * 0x20_0000_0000_0000 <= (q * u) * u + (gap * u) * 0x10_0000_0000_0000,
            u > 0,
    ;
    let rise = hi.1.minus(lo.1);
    lemma_minus_error(hi.1, lo.1);
    assert(part.steps() * rise.steps() <= reach() * unit()) by (nonlinear_arith)
        requires
            part.steps() <= unit(),
            rise.steps() <= reach(),
    ;
    lemma_times_error(part, rise);
    let prod = part.times(rise);
    let d = hi.1.value() - lo.1.value();
    lemma_line_parts(q as int, gap as int, d, p, rise.value(), prod.value(), u, b as int);
    lemma_plus_error(lo.1, prod);
    let w = lo.1.plus(prod);
    let f = apart(w.value(), lo.1.value() + prod.value());
    let (wv, av, pv) = (w.value(), lo.1.value(), prod.value());
    assert(apart(wv * gap, (av + pv) * gap) == f * gap) by (nonlinear_arith)
        requires
            f == apart(wv, av + pv),
            gap > 0,
    ;
    assert((av + pv) * gap == av * gap + pv * gap) by (nonlinear_arith);
    assert(f * gap * 0x20_0000_0000_0000 <= 5 * b * gap) by (nonlinear_arith)
        requires
            f * 0x20_0000_0000_0000 <= 5 * b,
            gap > 0,
    ;
    let exact = av * gap + q * d;
    let t = apart(wv * gap, exact);
    assert(gap * (11 * b + 0x10_0000_0000_0000) == 11 * b * gap + gap * 0x10_0000_0000_0000)
        by (nonlinear_arith);
    assert(t * 0x20_0000_0000_0000 <= 16 * b * gap + gap * 0x10_0000_0000_0000) by (nonlinear_arith)
        requires
            t <= f * gap + apart(pv * gap, q * d),
            f * gap * 0x20_0000_0000_0000 <= 5 * b * gap,
            apart(pv * gap, q * d) * 0x20_0000_0000_0000 <= 11 * b * gap + gap
                * 0x10_0000_0000_0000,
    ;
    let g = grain(b as int);
    assert(b <= g * 0x20_0000_0000_0000);
    assert(t <= 16 * g * gap) by (nonlinear_arith)
        requires
            t * 0x20_0000_0000_0000 <= 16 * b * gap + gap * 0x10_0000_0000_0000,
            b + 0x20_0000_0000_0000 <= g * 0x20_0000_0000_0000,
            gap > 0,
    ;
}

/// Facts of the crossing's parts, without the arithmetic of numbers.
proof fn lemma_crossing_parts(
    a: int,
    d: int,
    up: int,
    rise: int,
    part: int,
    prod: int,
    gap: int,
    u: int,
)
    requires
        0 <= a <= d,
        0 < d,
        0 <= up <= rise,
        0 < gap,
        u >= 0x20_0000_0000_0000,
        0 <= part <= u,
        apart(up, a) * 0x20_0000_0000_0000 <= a,
        apart(rise, d) * 0x20_0000_0000_0000 <= d,
        apart(part * rise, up * u) * 0x20_0000_0000_0000 <= up * u + rise * 0x10_0000_0000_0000,
        apart(prod, part * gap) * 0x20_0000_0000_0000 <= part * gap + 0x10_0000_0000_0000,
    ensures
        apart(prod * d, a * gap * u) * 0x20_0000_0000_0000 <= 7 * (d * gap * u),
{
    let k: int = 0x20_0000_0000_0000;
    let h: int = 0x10_0000_0000_0000;
    let du = d * u;
    assert(up <= 2 * d && rise <= 2 * d);
    let e1 = apart(rise, d);
    assert(apart(part * d, part * rise) == part * e1) by (nonlinear_arith)
        requires
            e1 == apart(rise, d),
            part >= 0,
    ;
    assert(part * e1 * k <= du) by (nonlinear_arith)
        requires
            e1 * k <= d,
            0 <= part <= u,
            0 <= e1,
            d > 0,
            du == d * u,
    ;
    assert(up * u <= 2 * du) by (nonlinear_arith)
        requires
            up <= 2 * d,
            u > 0,
            du == d * u,
    ;
    assert(d * (2 * h) <= du) by (nonlinear_arith)
        requires
            2 * h <= u,
            d > 0,
            du == d * u,
    ;
    let e3 = apart(up, a);
    assert(apart(up * u, a * u) == e3 * u) by (nonlinear_arith)
        requires
            e3 == apart(up, a),
            u > 0,
    ;
    assert(e3 * u * k <= du) by (nonlinear_arith)
        requires
            e3 * k <= d,
            u > 0,
            du == d * u,
    ;
    let e4 = apart(part * d, a * u);
    assert(e4 * k <= 5 * du);
    let e5 = apart(prod, part * gap);
    assert(apart(prod * d, part * gap * d) == e5 * d) by (nonlinear_arith)
        requires
            e5 == apart(prod, part * gap),
            d > 0,
    ;
    let dgu = d * gap * u;
    assert(e5 * d * k <= 2 * dgu) by (nonlinear_arith)
        requires
            e5 * k <= part * gap + h,
            0 <= part <= u,
            h <= u,
            gap >= 1,
            d > 0,
            dgu == d * gap * u,
    ;
    assert(apart(part * gap * d, a * gap * u) == e4 * gap) by (nonlinear_arith)
        requires
            e4 == apart(part * d, a * u),
            gap > 0,
    ;
    assert(e4 * gap * k <= 5 * dgu) by (nonlinear_arith)
        requires
            e4 * k <= 5 * du,
            du == d * u,
            dgu == d * gap * u,
            gap > 0,
    ;
}

/// The rounded crossing is near the exact one.
proof fn lemma_crossing_error(lo: (u32, Num), hi: (u32, Num), target: Num, b: nat)
    requires
        bracket(lo, hi, b),
        target.finite() && target.steps() <= b,
        lo.1.le(target),
        target.lt(hi.1),
    ensures
        ({
            let x = crossing(lo, hi, target);
            let u = unit() as int;
            let d = hi.1.value() - lo.1.value();
            &&& x.finite()
            &&& 0 <= x.value() <= hi.0 * u
            &&& apart(
                (x.value() - lo.0 * u) * d,
                (target.value() - lo.1.value()) * (hi.0 - lo.0) * u,
            ) * 0x20_0000_0000_0000 <= 8 * (d * hi.0 * u)
        }),
{
    reveal(crossing);
    lemma_scales();
    lemma_one();
    lemma_pow2_pos(1074);
    lemma_steps_zero(Num(ZERO));
    let u = unit() as int;
    let k: int = 0x20_0000_0000_0000;
    lemma_order_is_numeric(lo.1, target);
    lemma_order_is_numeric(target, hi.1);
    lemma_order_is_numeric(lo.1, hi.1);
    let up = target.minus(lo.1);
    let rise = hi.1.minus(lo.1);
    lemma_minus_error(target, lo.1);
    lemma_minus_error(hi.1, lo.1);
    lemma_minus_sign(lo.1, target);
    lemma_minus_sign(lo.1, hi.1);
    assert(target.le(hi.1)) by {
        reveal(Num::le);
        reveal(Num::lt);
    }
    lemma_minus_from(target, hi.1, lo.1);
    lemma_order_is_numeric(Num(ZERO), up);
    lemma_order_is_numeric(Num(ZERO), rise);
    lemma_order_is_numeric(up, rise);
    lemma_steps_zero(up);
    lemma_over_share(up, rise);
    assert(up.steps() * unit() <= reach() * rise.steps()) by (nonlinear_arith)
        requires
            up.steps() <= rise.steps(),
            unit() <= reach(),
    ;
    lemma_over_error(up, rise);
    let part = up.over(rise);
    lemma_order_is_numeric(Num(ZERO), part);
    lemma_order_is_numeric(part, Num(ONE));
    lemma_steps_zero(part);
    // The clocks are exact.
    let (m0, m1) = (of_int(lo.0 as nat), of_int(hi.0 as nat));
    let gap = (hi.0 - lo.0) as nat;
    let g = of_int(gap);
    lemma_of_int_exact(lo.0 as nat);
    lemma_of_int_exact(hi.0 as nat);
    lemma_of_int_exact(gap);
    assert(hi.0 * u - lo.0 * u == gap * u && 0 <= lo.0 * u && 0 < gap * u && hi.0 * u
        <= 0x1_0000_0000 * u) by (nonlinear_arith)
        requires
            gap == hi.0 - lo.0,
            gap > 0,
            lo.0 >= 0,
            hi.0 <= 0x1_0000_0000,
            u > 0,
    ;
    let span = m1.minus(m0);
    assert(span.finite() && span.value() == gap * u) by {
        lemma_minus_error(m1, m0);
        reveal(Num::minus);
        assert(m0.opposite().value() == -m0.value());
        crate::order::lemma_plus_exact(m1, m0.opposite(), g);
        lemma_order_is_numeric(span, g);
        reveal(Num::same);
    }
    lemma_order_is_numeric(Num(ZERO), span);
    lemma_times_share(part, span);
    let prod = part.times(span);
    lemma_order_is_numeric(Num(ZERO), prod);
    lemma_order_is_numeric(prod, span);
    assert(part.steps() * span.steps() <= reach() * unit()) by (nonlinear_arith)
        requires
            part.steps() <= unit(),
            span.steps() <= reach(),
    ;
    lemma_times_error(part, span);
    let (p, z) = (part.value(), prod.value());
    let e = apart(z, p * gap);
    assert(apart(z * u, p * (gap * u)) == e * u) by (nonlinear_arith)
        requires
            e == apart(z, p * gap),
            u > 0,
    ;
    assert(part.steps() * span.steps() == p * (gap * u));
    assert(e * k <= p * gap + 0x10_0000_0000_0000) by (nonlinear_arith)
        requires
            e * u * k <= p * (gap * u) + u * 0x10_0000_0000_0000,
            u > 0,
    ;
    let (a, d) = (target.value() - lo.1.value(), hi.1.value() - lo.1.value());
    lemma_crossing_parts(a, d, up.value(), rise.value(), p, z, gap as int, u);
    lemma_plus_error(m0, prod);
    lemma_plus_against(m0, prod, m1);
    lemma_plus_against(m0, prod, Num(ZERO));
    let x = m0.plus(prod);
    lemma_order_is_numeric(x, m1);
    lemma_order_is_numeric(Num(ZERO), x);
    let f = apart(x.value(), lo.0 * u + z);
    let v = x.value() - lo.0 * u;
    assert(f == apart(v, z));
    assert(apart(v * d, z * d) == f * d) by (nonlinear_arith)
        requires
            f == apart(v, z),
            d > 0,
    ;
    let dhu = d * hi.0 * u;
    assert(f * d * k <= dhu) by (nonlinear_arith)
        requires
            f * k <= hi.0 * u,
            d > 0,
            dhu == d * hi.0 * u,
    ;
    let rest = d * gap * u;
    assert(7 * rest + d * lo.0 * u <= 7 * dhu) by (nonlinear_arith)
        requires
            rest == d * gap * u,
            dhu == d * hi.0 * u,
            gap == hi.0 - lo.0,
            lo.0 >= 0,
            d > 0,
            u > 0,
    ;
    assert(d * lo.0 * u >= 0) by (nonlinear_arith)
        requires
            d > 0,
            lo.0 >= 0,
            u > 0,
    ;
}

/// The epsilon in steps, against the rounding of a clock.
proof fn lemma_epsilon(hi: u32)
    requires
        hi <= CLOCK_LIMIT_MHZ,
    ensures
        Num(WHOLE_MHZ_EPSILON).finite(),
        0 < Num(WHOLE_MHZ_EPSILON).value() <= unit(),
        8 * (hi * unit()) <= Num(WHOLE_MHZ_EPSILON).value() * 0x20_0000_0000_0000,
{
    let eps = Num(WHOLE_MHZ_EPSILON);
    let p = pow2(1002);
    lemma2_to64_rest();
    lemma_pow2_pos(1002);
    lemma_pow2_adds(1002, 72);
    lemma_pow2_adds(60, 12);
    vstd::arithmetic::power2::lemma2_to64();
    assert(eps.significand() == 0x10_c6f7_a0b5_ed8d);
    assert(eps.exponent() == 1002);
    assert(eps.value() == 0x10_c6f7_a0b5_ed8d * p);
    assert(unit() == p * pow2(72));
    assert(pow2(72) == 0x1000_0000_0000_0000 * 0x1000);
    assert(0 < 0x10_c6f7_a0b5_ed8d * p <= p * (0x1000_0000_0000_0000 * 0x1000)) by (nonlinear_arith)
        requires
            p > 0,
    ;
    assert(8 * (hi * (p * (0x1000_0000_0000_0000 * 0x1000))) <= 0x10_c6f7_a0b5_ed8d * p
        * 0x20_0000_0000_0000) by (nonlinear_arith)
        requires
            p > 0,
            0 <= hi <= 0x4000_0000,
    ;
}

/// A whole clock above the crossing by more than the epsilon draws more than
/// the budget on the exact line.
proof fn lemma_line_above(lo: (u32, Num), hi: (u32, Num), target: Num, clock: u32, mhz: u32, b: nat)
    requires
        bracket(lo, hi, b),
        hi.0 <= CLOCK_LIMIT_MHZ,
        target.finite() && target.steps() <= b,
        lo.1.le(target),
        target.lt(hi.1),
        largest_between(lo, hi, target, clock),
        clock < mhz <= hi.0,
    ensures
        (target.value() - lo.1.value()) * (hi.0 - lo.0) < (mhz - lo.0) * (hi.1.value()
            - lo.1.value()),
{
    lemma_crossing_error(lo, hi, target, b);
    lemma_epsilon(hi.0);
    lemma_pow2_pos(1074);
    lemma_order_is_numeric(lo.1, target);
    lemma_order_is_numeric(target, hi.1);
    let u = unit() as int;
    let k: int = 0x20_0000_0000_0000;
    let x = crossing(lo, hi, target);
    let eps = Num(WHOLE_MHZ_EPSILON);
    let next = of_int((clock + 1) as nat);
    lemma_of_int_exact((clock + 1) as nat);
    lemma_plus_against(x, eps, next);
    assert(x.value() + eps.value() < (clock + 1) * u) by {
        reveal(largest_between);
        reveal(Num::le);
        reveal(Num::lt);
    }
    let (a, d, gap, q) = (
        target.value() - lo.1.value(),
        hi.1.value() - lo.1.value(),
        hi.0 - lo.0,
        mhz - lo.0,
    );
    let (xv, ev) = (x.value(), eps.value());
    let v = xv - lo.0 * u;
    assert(v + ev < q * u) by (nonlinear_arith)
        requires
            xv + ev < (clock + 1) * u,
            clock + 1 <= mhz,
            v == xv - lo.0 * u,
            q == mhz - lo.0,
            u > 0,
    ;
    assert((v + ev) * d < q * u * d) by (nonlinear_arith)
        requires
            v + ev < q * u,
            d > 0,
    ;
    assert((v + ev) * d == v * d + ev * d) by (nonlinear_arith);
    assert(8 * (d * hi.0 * u) <= ev * d * k) by (nonlinear_arith)
        requires
            8 * (hi.0 * u) <= ev * k,
            d > 0,
    ;
    assert(a * gap * u < q * u * d);
    assert(a * gap < q * d) by (nonlinear_arith)
        requires
            a * gap * u < q * u * d,
            u > 0,
    ;
}

/// A clock that was interpolated fits on the exact line, but for the epsilon.
proof fn lemma_line_below(lo: (u32, Num), hi: (u32, Num), target: Num, clock: u32, b: nat)
    requires
        bracket(lo, hi, b),
        hi.0 <= CLOCK_LIMIT_MHZ,
        target.finite() && target.steps() <= b,
        lo.1.le(target),
        target.lt(hi.1),
        largest_between(lo, hi, target, clock),
        lo.0 <= clock <= hi.0,
    ensures
        ((clock - lo.0) * (hi.1.value() - lo.1.value()) - (target.value() - lo.1.value()) * (hi.0
            - lo.0)) * unit() <= 3 * Num(WHOLE_MHZ_EPSILON).value() * (hi.1.value()
            - lo.1.value()),
{
    lemma_crossing_error(lo, hi, target, b);
    lemma_epsilon(hi.0);
    lemma_scales();
    lemma_pow2_pos(1074);
    lemma_order_is_numeric(lo.1, target);
    lemma_order_is_numeric(target, hi.1);
    let u = unit() as int;
    let k: int = 0x20_0000_0000_0000;
    let x = crossing(lo, hi, target);
    let eps = Num(WHOLE_MHZ_EPSILON);
    let own = of_int(clock as nat);
    lemma_of_int_exact(clock as nat);
    let (xv, ev) = (x.value(), eps.value());
    assert(hi.0 * u <= 0x1_0000_0000 * u && u <= hi.0 * u) by (nonlinear_arith)
        requires
            1 <= hi.0 <= 0x1_0000_0000,
            u > 0,
    ;
    lemma_plus_error(x, eps);
    let next = x.plus(eps);
    lemma_order_is_numeric(own, next);
    assert(clock * u <= next.value()) by {
        reveal(largest_between);
    }
    // What rounding the sum can add is less than the epsilon.
    assert(clock * u <= xv + 2 * ev);
    let (a, d, gap, q) = (
        target.value() - lo.1.value(),
        hi.1.value() - lo.1.value(),
        hi.0 - lo.0,
        clock - lo.0,
    );
    let v = xv - lo.0 * u;
    assert(q * u <= v + 2 * ev) by (nonlinear_arith)
        requires
            clock * u <= xv + 2 * ev,
            v == xv - lo.0 * u,
            q == clock - lo.0,
    ;
    assert(q * u * d <= (v + 2 * ev) * d) by (nonlinear_arith)
        requires
            q * u <= v + 2 * ev,
            d > 0,
    ;
    assert((v + 2 * ev) * d == v * d + 2 * (ev * d)) by (nonlinear_arith);
    assert(8 * (d * hi.0 * u) <= ev * d * k) by (nonlinear_arith)
        requires
            8 * (hi.0 * u) <= ev * k,
            d > 0,
    ;
    assert(q * u * d - a * gap * u <= 3 * (ev * d));
    assert((q * d - a * gap) * u == q * u * d - a * gap * u) by (nonlinear_arith);
    assert(3 * ev * d == 3 * (ev * d)) by (nonlinear_arith);
}

/// A table's watts and the budget are at most `b` steps large, and that is
/// within reach; its clocks rise, up to the limit.
pub open spec fn in_range(points: Seq<(u32, Num)>, target: Num, b: nat) -> bool {
    &&& 16 * b <= reach()
    &&& rising(points)
    &&& points.len() > 0
    &&& points.last().0 <= CLOCK_LIMIT_MHZ
    &&& target.finite() && target.steps() <= b
    &&& forall|i: int|
        0 <= i < points.len() ==> (#[trigger] points[i]).1.finite() && points[i].1.steps() <= b
}

/// A measured clock's watts are read back.
proof fn lemma_measured_watts(points: Seq<(u32, Num)>, i: int)
    requires
        rising(points),
        0 <= i < points.len(),
    ensures
        watts_of(points, points[i].0) == Some(points[i].1),
{
    lemma_watts(points, i);
    if i > 0 {
        assert(points[0].0 < points[i].0);
    }
    if i < points.len() - 1 {
        assert(points[i].0 < points[points.len() - 1].0);
    }
}

/// A clock between two measured ones has the watts of the line.
proof fn lemma_line_watts(points: Seq<(u32, Num)>, i: int, mhz: u32)
    requires
        rising(points),
        0 < i < points.len(),
        points[i - 1].0 < mhz < points[i].0,
    ensures
        watts_of(points, mhz) == Some(between(points[i - 1], points[i], mhz)),
{
    assert(points[0].0 <= points[i - 1].0);
    assert(points[i].0 <= points[points.len() - 1].0);
    assert(belongs(points, mhz, i));
    lemma_one_place(points, mhz, i);
}

/// A clock draws more than the budget, but for rounding.
pub open spec fn exceeds(points: Seq<(u32, Num)>, target: Num, mhz: u32, b: nat) -> bool {
    &&& watts_of(points, mhz) is Some
    &&& watts_of(points, mhz)->0.finite()
    &&& watts_of(points, mhz)->0.value() > target.value() - 16 * grain(b as int)
}

proof fn lemma_line_exceeds(points: Seq<(u32, Num)>, target: Num, i: int, mhz: u32, b: nat)
    requires
        in_range(points, target, b),
        0 < i < points.len(),
        points[i - 1].0 < mhz < points[i].0,
        ({
            let (lo, hi) = (points[i - 1], points[i]);
            (target.value() - lo.1.value()) * (hi.0 - lo.0) < (mhz - lo.0) * (hi.1.value()
                - lo.1.value())
        }),
    ensures
        exceeds(points, target, mhz, b),
{
    let (lo, hi) = (points[i - 1], points[i]);
    assert(lo.0 < hi.0);
    lemma_line_watts(points, i, mhz);
    lemma_between_error(lo, hi, mhz, b);
    let w = between(lo, hi, mhz).value();
    let gap = hi.0 - lo.0;
    let (a, t) = (lo.1.value(), target.value());
    let g = 16 * grain(b as int);
    let far = (mhz - lo.0) * (hi.1.value() - a);
    assert(w > t - g) by (nonlinear_arith)
        requires
            (t - a) * gap < far,
            w * gap >= a * gap + far - g * gap,
            gap > 0,
    ;
}

proof fn lemma_no_larger(points: Seq<(u32, Num)>, target: Num, i: int, mhz: u32, b: nat)
    requires
        in_range(points, target, b),
        0 <= i < points.len(),
        scanned(points, i, target) < mhz <= points[i].0,
    ensures
        exceeds(points, target, mhz, b),
    decreases i,
{
    if i > 0 {
        let (lo, hi) = (points[i - 1], points[i]);
        assert(lo.0 < hi.0);
        assert(hi.0 <= points[points.len() - 1].0);
        lemma_order_is_numeric(hi.1, target);
        lemma_order_is_numeric(lo.1, target);
        lemma_order_is_numeric(target, hi.1);
        lemma_order_is_numeric(lo.1, hi.1);
        if mhz == hi.0 {
            lemma_measured_watts(points, i);
        } else if mhz > lo.0 {
            if lo.1.le(target) {
                lemma_minus_error(hi.1, lo.1);
                lemma_interpolated_between(lo, hi, target);
                lemma_line_above(lo, hi, target, interpolated(lo, hi, target), mhz, b);
            } else {
                let (x, y) = (lo.1.value() - target.value(), hi.1.value() - target.value());
                let (q, gap) = (mhz - lo.0, hi.0 - lo.0);
                assert((0 - x) * gap < q * (y - x)) by (nonlinear_arith)
                    requires
                        x > 0,
                        y > 0,
                        0 < q < gap,
                ;
            }
            lemma_line_exceeds(points, target, i, mhz, b);
        } else if lo.1.le(target) {
            lemma_minus_error(hi.1, lo.1);
            lemma_interpolated_between(lo, hi, target);
        } else {
            lemma_no_larger(points, target, i - 1, mhz, b);
        }
    }
}

/// A lookup wastes nothing, at any clock: no whole clock that the table covers
/// above the one returned has watts at or below the budget by more than
/// rounding.
pub proof fn lemma_no_larger_clock_fits(points: Seq<(u32, Num)>, target: Num, mhz: u32, b: nat)
    requires
        in_range(points, target, b),
        clock_of(points, target)->0 < mhz <= points.last().0,
    ensures
        exceeds(points, target, mhz, b),
{
    if !points.last().1.le(target) {
        lemma_no_larger(points, target, points.len() - 1, mhz, b);
    }
}

/// A clock fits the budget: exactly if it was measured; else but for rounding,
/// and for what the line between its neighbours draws over three times the
/// epsilon.
pub open spec fn fits(points: Seq<(u32, Num)>, target: Num, mhz: u32, b: nat) -> bool {
    &&& watts_of(points, mhz) is Some
    &&& {
        let w = watts_of(points, mhz)->0;
        w.le(target) || exists|i: int| #[trigger] fits_on(points, target, i, mhz, b)
    }
}

/// It does so on the line that ends at a point.
pub open spec fn fits_on(points: Seq<(u32, Num)>, target: Num, i: int, mhz: u32, b: nat) -> bool {
    let (lo, hi) = (points[i - 1], points[i]);
    let w = watts_of(points, mhz)->0;
    &&& 0 < i < points.len()
    &&& lo.0 < mhz <= hi.0
    &&& w.finite()
    &&& (w.value() - target.value() - 16 * grain(b as int)) * (hi.0 - lo.0) * unit() <= 3 * Num(
        WHOLE_MHZ_EPSILON,
    ).value() * (hi.1.value() - lo.1.value())
}

proof fn lemma_fits_between(points: Seq<(u32, Num)>, target: Num, i: int, mhz: u32, b: nat)
    requires
        in_range(points, target, b),
        0 < i < points.len(),
        points[i - 1].0 < mhz <= points[i].0,
        ({
            let (lo, hi) = (points[i - 1], points[i]);
            ((mhz - lo.0) * (hi.1.value() - lo.1.value()) - (target.value() - lo.1.value()) * (hi.0
                - lo.0)) * unit() <= 3 * Num(WHOLE_MHZ_EPSILON).value() * (hi.1.value()
                - lo.1.value())
        }),
    ensures
        fits_on(points, target, i, mhz, b),
{
    let (lo, hi) = (points[i - 1], points[i]);
    let (a, t, u) = (lo.1.value(), target.value(), unit() as int);
    let (q, gap, d) = (mhz - lo.0, hi.0 - lo.0, hi.1.value() - lo.1.value());
    let g = 16 * grain(b as int);
    lemma_pow2_pos(1074);
    if mhz == hi.0 {
        lemma_measured_watts(points, i);
        let w = hi.1.value();
        assert((w - t - g) * gap <= q * d - (t - a) * gap) by (nonlinear_arith)
            requires
                q == gap,
                d == w - a,
                g >= 0,
                gap > 0,
        ;
    } else {
        lemma_line_watts(points, i, mhz);
        lemma_between_error(lo, hi, mhz, b);
        let w = between(lo, hi, mhz).value();
        assert((w - t - g) * gap <= q * d - (t - a) * gap) by (nonlinear_arith)
            requires
                w * gap <= a * gap + q * d + g * gap,
        ;
    }
    let w = watts_of(points, mhz)->0.value();
    let (x, y) = ((w - t - g) * gap, q * d - (t - a) * gap);
    assert(x * u <= y * u) by (nonlinear_arith)
        requires
            x <= y,
            u > 0,
    ;
}

proof fn lemma_scanned_fits_budget(points: Seq<(u32, Num)>, target: Num, i: int, b: nat)
    requires
        in_range(points, target, b),
        0 <= i < points.len(),
    ensures
        ({
            let clock = scanned(points, i, target);
            ||| fits(points, target, clock, b)
            ||| clock == points[0].0 && forall|k: int|
                0 <= k <= i ==> target.lt((#[trigger] points[k]).1)
        }),
    decreases i,
{
    lemma_measured_watts(points, i);
    lemma_order_is_numeric(points[i].1, target);
    lemma_order_is_numeric(target, points[i].1);
    if i > 0 {
        let (lo, hi) = (points[i - 1], points[i]);
        assert(lo.0 < hi.0);
        assert(hi.0 <= points[points.len() - 1].0);
        lemma_order_is_numeric(lo.1, target);
        lemma_order_is_numeric(lo.1, hi.1);
        if hi.1.le(target) {
        } else if lo.1.le(target) {
            let clock = interpolated(lo, hi, target);
            lemma_minus_error(hi.1, lo.1);
            lemma_interpolated_between(lo, hi, target);
            lemma_measured_watts(points, i - 1);
            if clock == lo.0 {
            } else {
                lemma_line_below(lo, hi, target, clock, b);
                lemma_fits_between(points, target, i, clock, b);
            }
        } else {
            lemma_scanned_fits_budget(points, target, i - 1, b);
        }
    } else if !points[0].1.le(target) {
        assert(target.lt(points[0].1));
    }
}

/// A lookup returns a clock that fits the budget, exactly if it was measured
/// and but for the epsilon if it was not. If no clock that the table covers
/// draws as little as the budget, it returns the lowest.
pub proof fn lemma_clock_fits_but_for_the_epsilon(
    points: Seq<(u32, Num)>,
    target: Num,
    mhz: u32,
    b: nat,
)
    requires
        in_range(points, target, b),
        points[0].0 <= mhz <= points.last().0,
    ensures
        ({
            let clock = clock_of(points, target)->0;
            ||| fits(points, target, clock, b)
            ||| clock == points[0].0 && exceeds(points, target, mhz, b)
        }),
{
    let top = points.len() - 1;
    lemma_measured_watts(points, top);
    if !points.last().1.le(target) {
        lemma_scanned_fits_budget(points, target, top, b);
        let clock = scanned(points, top, target);
        if !fits(points, target, clock, b) {
            lemma_measured_watts(points, 0);
            lemma_order_is_numeric(target, points[0].1);
            if mhz > clock {
                lemma_no_larger_clock_fits(points, target, mhz, b);
            }
        }
    }
}

} // verus!
