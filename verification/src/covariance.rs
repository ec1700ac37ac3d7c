//! What the filter's covariance comes to after a measurement, told from what
//! it was before.

use crate::estimation::{lemma_add, lemma_noise, lemma_product, sound};
use crate::kalman::{identity, outer, Kalman, Mat2, Pair, Q_GAIN, TRACE_CAP, TRACE_RESCALE_TO};
use crate::num::{unit, Num, ONE, ZERO};
use crate::order::{lemma_one, lemma_steps_zero};
use crate::precision::{apart, lemma_over_error, reach};
use crate::spending::lemma_scales;
use crate::values::{lemma_compare, lemma_whole, lemma_zero};
use vstd::arithmetic::power2::{lemma2_to64, lemma2_to64_rest, lemma_pow2_pos};
use vstd::prelude::*;

verus! {

/// An entry of the covariance before the measurement: the process noise is on
/// the diagonal.
pub open spec fn before(k: Kalman, row: int, column: int) -> int {
    if row == 0 && column == 0 {
        k.p.m00.value() + 26 * unit()
    } else if row == 0 {
        k.p.m01.value()
    } else if column == 0 {
        k.p.m10.value()
    } else {
        k.p.m11.value() + Num(Q_GAIN).value()
    }
}

/// An entry of the covariance after it, exactly, in steps times one twice: what
/// was there, less the weight of its row times what the regressor sees of its
/// column.
pub open spec fn left_over(k: Kalman, w: Num, row: int, column: int) -> int {
    let u = unit() as int;
    let weight = if row == 0 {
        k.weights(w).a.value()
    } else {
        k.weights(w).b.value()
    };
    before(k, row, column) * (u * u) - weight * (before(k, 0, column) * u + before(k, 1, column)
        * w.value())
}

/// A factor of an entry: what is left of one, or of nothing, after a weight times
/// a part of the regressor.
proof fn lemma_factor(one: Num, n: int, g: Num, x: Num, m: int)
    requires
        one.finite() && one.value() == n * unit(),
        n == 0 || n == 1,
        g.finite() && g.steps() <= unit(),
        x.finite() && x.steps() <= m * unit(),
        m == 1 || m == 0x2000,
    ensures
        ({
            let f = one.minus(g.times(x));
            let u = unit() as int;
            &&& f.finite()
            &&& apart(f.value(), 0) <= 0x2010 * u
            &&& apart(f.value() * u, n * (u * u) - g.value() * x.value()) * 0x20_0000_0000_0000
                <= 0x8000 * (u * u)
        }),
{
    lemma_scales();
    lemma_pow2_pos(1074);
    let u = unit() as int;
    assert(1 * m == m);
    lemma_product(g, x, 1, m);
    let p = g.times(x);
    let o = p.opposite();
    assert(o.finite() && o.value() == -p.value());
    assert(apart(one.value(), 0) <= 1 * unit());
    assert((1 * m + 1) * unit() == (m + 1) * unit());
    lemma_add(one, o, 1, m + 1);
    reveal(Num::minus);
    let f = one.minus(p);
    lemma_factor_value(f.value(), p.value(), g.value() * x.value(), n, m, u);
}

#[verifier::rlimit(40)]
proof fn lemma_factor_value(f: int, p: int, gx: int, n: int, m: int, u: int)
    requires
        u >= 0x20_0000_0000_0000,
        n == 0 || n == 1,
        m == 1 || m == 0x2000,
        apart(f, n * u - p) * 0x20_0000_0000_0000 <= (1 + (m + 1)) * u,
        apart(f, 0) <= (1 + (m + 1) + 1) * u,
        apart(p * u, gx) * 0x20_0000_0000_0000 <= u * (1 * m * u + 0x10_0000_0000_0000),
    ensures
        apart(f, 0) <= 0x2010 * u,
        apart(f * u, n * (u * u) - gx) * 0x20_0000_0000_0000 <= 0x8000 * (u * u),
{
    let q: int = 0x20_0000_0000_0000;
    let uu = u * u;
    let d = apart(f, n * u - p);
    assert((1 + (m + 1)) * u <= 0x2002 * u && (1 + (m + 1) + 1) * u <= 0x2010 * u) by (nonlinear_arith)
        requires
            m <= 0x2000,
            u > 0,
    ;
    assert(apart(f * u, (n * u - p) * u) == d * u) by (nonlinear_arith)
        requires
            d == apart(f, n * u - p),
            u > 0,
    ;
    assert((n * u - p) * u == n * uu - p * u) by (nonlinear_arith)
        requires
            uu == u * u,
    ;
    assert(d * u * q <= 0x2002 * uu) by (nonlinear_arith)
        requires
            d * q <= 0x2002 * u,
            uu == u * u,
            u > 0,
    ;
    assert(u * (1 * m * u + 0x10_0000_0000_0000) <= 0x2001 * uu) by (nonlinear_arith)
        requires
            m <= 0x2000,
            uu == u * u,
            u >= 0x10_0000_0000_0000,
    ;
    assert(uu >= 0) by (nonlinear_arith)
        requires
            uu == u * u,
    ;
}

/// One product of an entry.
proof fn lemma_piece(f: Num, p: Num, e: int, b: int)
    requires
        f.finite() && apart(f.value(), 0) <= 0x2010 * unit(),
        p.finite() && apart(p.value(), 0) <= 0x20_0020 * unit(),
        apart(f.value() * unit(), e) * 0x20_0000_0000_0000 <= 0x8000 * (unit() * unit()),
        apart(p.value(), b) * 0x20_0000_0000_0000 <= 0x20_0020 * unit(),
    ensures
        f.times(p).finite(),
        apart(f.times(p).value(), 0) <= 0x4_0206_0202 * unit(),
        apart(f.times(p).value() * (unit() * unit()), e * b) * 0x20_0000_0000_0000
            <= 0x20_0000_0000 * (unit() * unit() * unit()),
{
    lemma_scales();
    lemma_pow2_pos(1074);
    lemma_steps_zero(f);
    lemma_steps_zero(p);
    let u = unit() as int;
    assert(0x2010 * 0x20_0020 == 0x4_0204_0200int) by (nonlinear_arith);
    lemma_product(f, p, 0x2010, 0x20_0020);
    assert((0x2010 * 0x20_0020 + 1) * unit() <= 0x4_0206_0202 * unit()) by (nonlinear_arith)
        requires
            unit() >= 0,
    ;
    lemma_piece_value(f.times(p).value(), f.value(), p.value(), e, b, u);
}

#[verifier::rlimit(40)]
proof fn lemma_piece_value(t: int, f: int, p: int, e: int, b: int, u: int)
    requires
        u >= 0x20_0000_0000_0000,
        apart(f, 0) <= 0x2010 * u,
        apart(p, 0) <= 0x20_0020 * u,
        apart(f * u, e) * 0x20_0000_0000_0000 <= 0x8000 * (u * u),
        apart(p, b) * 0x20_0000_0000_0000 <= 0x20_0020 * u,
        apart(t * u, f * p) * 0x20_0000_0000_0000 <= u * (0x2010 * 0x20_0020 * u
            + 0x10_0000_0000_0000),
    ensures
        apart(t * (u * u), e * b) * 0x20_0000_0000_0000 <= 0x20_0000_0000 * (u * u * u),
{
    let q: int = 0x20_0000_0000_0000;
    let uu = u * u;
    let uuu = uu * u;
    assert(uuu == u * u * u);
    assert(uu > 0 && uuu > 0) by (nonlinear_arith)
        requires
            uu == u * u,
            uuu == uu * u,
            u > 0,
    ;
    let d = apart(t * u, f * p);
    assert(u * (0x2010 * 0x20_0020 * u + 0x10_0000_0000_0000) <= 0x4_0206_0201 * uu)
        by (nonlinear_arith)
        requires
            uu == u * u,
            u >= 0x10_0000_0000_0000,
    ;
    assert(apart(t * u * u, f * p * u) == d * u && t * u * u == t * uu) by (nonlinear_arith)
        requires
            d == apart(t * u, f * p),
            uu == u * u,
            u > 0,
    ;
    assert(d * u * q <= 0x4_0206_0201 * uuu) by (nonlinear_arith)
        requires
            d * q <= 0x4_0206_0201 * uu,
            uuu == uu * u,
            u > 0,
    ;
    let (g, z) = (apart(f * u, e), apart(p, 0));
    let fu = f * u;
    assert(f * p * u == fu * p) by (nonlinear_arith)
        requires
            fu == f * u,
    ;
    assert(apart(fu * p, e * p) == g * z) by (nonlinear_arith)
        requires
            g == apart(fu, e),
            z == apart(p, 0),
    ;
    assert(g * z * q <= 0x11_0000_0000 * uuu) by (nonlinear_arith)
        requires
            g * q <= 0x8000 * uu,
            0 <= z <= 0x20_0020 * u,
            g >= 0,
            uuu == uu * u,
            uu > 0,
            u > 0,
    ;
    let (h, y) = (apart(p, b), apart(e, 0));
    assert(y <= 0x2011 * uu) by {
        assert(apart(fu, 0) <= 0x2010 * uu) by (nonlinear_arith)
            requires
                fu == f * u,
                apart(f, 0) <= 0x2010 * u,
                uu == u * u,
                u > 0,
        ;
    }
    assert(apart(e * p, e * b) == y * h) by (nonlinear_arith)
        requires
            h == apart(p, b),
            y == apart(e, 0),
    ;
    assert(y * h * q <= 0x4_1000_0000 * uuu) by (nonlinear_arith)
        requires
            h * q <= 0x20_0020 * u,
            0 <= y <= 0x2011 * uu,
            h >= 0,
            uuu == uu * u,
            uu > 0,
            u > 0,
    ;
}

/// One entry.
#[verifier::rlimit(40)]
proof fn lemma_entry(f1: Num, p1: Num, f0: Num, p0: Num, e1: int, b1: int, e0: int, b0: int)
    requires
        f1.finite() && apart(f1.value(), 0) <= 0x2010 * unit(),
        p1.finite() && apart(p1.value(), 0) <= 0x20_0020 * unit(),
        apart(f1.value() * unit(), e1) * 0x20_0000_0000_0000 <= 0x8000 * (unit() * unit()),
        apart(p1.value(), b1) * 0x20_0000_0000_0000 <= 0x20_0020 * unit(),
        f0.finite() && apart(f0.value(), 0) <= 0x2010 * unit(),
        p0.finite() && apart(p0.value(), 0) <= 0x20_0020 * unit(),
        apart(f0.value() * unit(), e0) * 0x20_0000_0000_0000 <= 0x8000 * (unit() * unit()),
        apart(p0.value(), b0) * 0x20_0000_0000_0000 <= 0x20_0020 * unit(),
    ensures
        ({
            let r = f1.times(p1).plus(f0.times(p0));
            &&& r.finite()
            &&& apart(r.value(), 0) <= 0x9_0000_0000 * unit()
            &&& apart(r.value() * (unit() * unit()), e1 * b1 + e0 * b0) * 0x1000 <= unit() * unit()
                * unit()
        }),
{
    lemma_piece(f1, p1, e1, b1);
    lemma_piece(f0, p0, e0, b0);
    lemma_pow2_pos(1074);
    let u = unit() as int;
    let (a, c) = (f1.times(p1), f0.times(p0));
    lemma_add(a, c, 0x4_0206_0202, 0x4_0206_0202);
    let r = a.plus(c).value();
    let uu = u * u;
    let uuu = u * u * u;
    let s = a.value() + c.value();
    let d = apart(r, s);
    let q: int = 0x20_0000_0000_0000;
    assert((0x4_0206_0202 + 0x4_0206_0202) * u <= 0x9_0000_0000 * u && (0x4_0206_0202
        + 0x4_0206_0202 + 1) * u <= 0x9_0000_0000 * u) by (nonlinear_arith)
        requires
            u > 0,
    ;
    assert(uu >= 0) by (nonlinear_arith)
        requires
            uu == u * u,
    ;
    assert(apart(r * uu, s * uu) == d * uu && s * uu == a.value() * uu + c.value() * uu)
        by (nonlinear_arith)
        requires
            d == apart(r, s),
            s == a.value() + c.value(),
            uu >= 0,
    ;
    assert(d * uu * q <= 0x9_0000_0000 * uuu) by (nonlinear_arith)
        requires
            d * q <= 0x9_0000_0000 * u,
            uu == u * u,
            uuu == u * u * u,
            u > 0,
    ;
    assert(uuu >= 0) by (nonlinear_arith)
        requires
            uuu == u * u * u,
            u > 0,
    ;
}

/// The covariance that a measurement leaves, while its trace is clearly below a
/// million: each entry is what was there with its process noise, less the weight
/// of its row times what the regressor sees of its column.
pub proof fn lemma_measurement_takes_its_share(k: Kalman, w: Num)
    requires
        sound(k, w),
        k.weights(w).a.finite() && k.weights(w).a.steps() <= unit(),
        k.weights(w).b.finite() && k.weights(w).b.steps() <= unit(),
        left_over(k, w, 0, 0) + left_over(k, w, 1, 1) <= 999_999 * (unit() * unit() * unit()),
    ensures
        ({
            let r = k.corrected(w);
            let uu = unit() * unit();
            let uuu = unit() * unit() * unit();
            &&& r.m00.finite() && apart(r.m00.value() * uu, left_over(k, w, 0, 0)) * 0x1000 <= uuu
            &&& r.m01.finite() && apart(r.m01.value() * uu, left_over(k, w, 0, 1)) * 0x1000 <= uuu
            &&& r.m10.finite() && apart(r.m10.value() * uu, left_over(k, w, 1, 0)) * 0x1000 <= uuu
            &&& r.m11.finite() && apart(r.m11.value() * uu, left_over(k, w, 1, 1)) * 0x1000 <= uuu
        }),
{
    lemma_uncapped(k, w);
    let x = Pair { a: Num(ONE), b: w };
    let next = identity().minus(outer(k.weights(w), x)).times(k.predicted());
    lemma_trace_is_small(next, left_over(k, w, 0, 0), left_over(k, w, 1, 1));
    reveal(Kalman::corrected);
}

#[verifier::rlimit(40)]
proof fn lemma_uncapped(k: Kalman, w: Num)
    requires
        sound(k, w),
        k.weights(w).a.finite() && k.weights(w).a.steps() <= unit(),
        k.weights(w).b.finite() && k.weights(w).b.steps() <= unit(),
    ensures
        ({
            let x = Pair { a: Num(ONE), b: w };
            let r = identity().minus(outer(k.weights(w), x)).times(k.predicted());
            let uu = unit() * unit();
            let uuu = unit() * unit() * unit();
            &&& r.m00.finite() && apart(r.m00.value() * uu, left_over(k, w, 0, 0)) * 0x1000 <= uuu
            &&& r.m01.finite() && apart(r.m01.value() * uu, left_over(k, w, 0, 1)) * 0x1000 <= uuu
            &&& r.m10.finite() && apart(r.m10.value() * uu, left_over(k, w, 1, 0)) * 0x1000 <= uuu
            &&& r.m11.finite() && apart(r.m11.value() * uu, left_over(k, w, 1, 1)) * 0x1000 <= uuu
            &&& apart(r.m00.value(), 0) <= 0x9_0000_0000 * unit()
            &&& apart(r.m01.value(), 0) <= 0x9_0000_0000 * unit()
            &&& apart(r.m10.value(), 0) <= 0x9_0000_0000 * unit()
            &&& apart(r.m11.value(), 0) <= 0x9_0000_0000 * unit()
        }),
{
    lemma_noise(k, w);
    lemma_zero();
    lemma_one();
    lemma_pow2_pos(1074);
    lemma_steps_zero(Num(ONE));
    let u = unit() as int;
    let uu = u * u;
    let g = k.weights(w);
    let x = Pair { a: Num(ONE), b: w };
    let m = identity().minus(outer(g, x));
    let pp = k.predicted();
    assert(0 * unit() == 0 && 1 * unit() == unit());
    lemma_factor(Num(ONE), 1, g.a, Num(ONE), 1);
    lemma_factor(Num(ZERO), 0, g.a, w, 0x2000);
    lemma_factor(Num(ZERO), 0, g.b, Num(ONE), 1);
    lemma_factor(Num(ONE), 1, g.b, w, 0x2000);
    let (ka, kb, wv) = (g.a.value(), g.b.value(), w.value());
    let (e00, e01) = (1 * uu - ka * u, 0 * uu - ka * wv);
    let (e10, e11) = (0 * uu - kb * u, 1 * uu - kb * wv);
    let (b00, b01) = (before(k, 0, 0), before(k, 0, 1));
    let (b10, b11) = (before(k, 1, 0), before(k, 1, 1));
    lemma_entry(m.m01, pp.m10, m.m00, pp.m00, e01, b10, e00, b00);
    lemma_entry(m.m01, pp.m11, m.m00, pp.m01, e01, b11, e00, b01);
    lemma_entry(m.m11, pp.m10, m.m10, pp.m00, e11, b10, e10, b00);
    lemma_entry(m.m11, pp.m11, m.m10, pp.m01, e11, b11, e10, b01);
    lemma_upper(ka, wv, b00, b10, u);
    lemma_upper(ka, wv, b01, b11, u);
    lemma_lower(kb, wv, b00, b10, u);
    lemma_lower(kb, wv, b01, b11, u);
}

proof fn lemma_upper(ka: int, w: int, b0: int, b1: int, u: int)
    ensures
        (0 * (u * u) - ka * w) * b1 + (1 * (u * u) - ka * u) * b0 == b0 * (u * u) - ka * (b0 * u + b1
            * w),
{
    lemma_spread_out(ka, w, b0, b1, u);
    let (uu, x, y) = (u * u, ka * w, ka * u);
    assert((0 * uu - x) * b1 == -(x * b1)) by (nonlinear_arith);
    assert((1 * uu - y) * b0 == b0 * uu - y * b0) by (nonlinear_arith);
}

proof fn lemma_spread_out(k: int, w: int, b0: int, b1: int, u: int)
    ensures
        k * (b0 * u + b1 * w) == (k * u) * b0 + (k * w) * b1,
{
    let (p, q) = (b0 * u, b1 * w);
    assert(k * (p + q) == k * p + k * q) by (nonlinear_arith);
    assert(k * p == (k * u) * b0) by (nonlinear_arith)
        requires
            p == b0 * u,
    ;
    assert(k * q == (k * w) * b1) by (nonlinear_arith)
        requires
            q == b1 * w,
    ;
}

proof fn lemma_lower(kb: int, w: int, b0: int, b1: int, u: int)
    ensures
        (1 * (u * u) - kb * w) * b1 + (0 * (u * u) - kb * u) * b0 == b1 * (u * u) - kb * (b0 * u + b1
            * w),
{
    lemma_spread_out(kb, w, b0, b1, u);
    let (uu, x, y) = (u * u, kb * w, kb * u);
    assert((1 * uu - x) * b1 == b1 * uu - x * b1) by (nonlinear_arith);
    assert((0 * uu - y) * b0 == -(y * b0)) by (nonlinear_arith);
}

#[verifier::rlimit(40)]
proof fn lemma_trace_is_small(r: Mat2, x: int, y: int)
    requires
        r.m00.finite() && apart(r.m00.value(), 0) <= 0x9_0000_0000 * unit(),
        r.m11.finite() && apart(r.m11.value(), 0) <= 0x9_0000_0000 * unit(),
        apart(r.m00.value() * (unit() * unit()), x) * 0x1000 <= unit() * unit() * unit(),
        apart(r.m11.value() * (unit() * unit()), y) * 0x1000 <= unit() * unit() * unit(),
        x + y <= 999_999 * (unit() * unit() * unit()),
    ensures
        !Num(TRACE_CAP).lt(r.trace()),
{
    lemma_zero();
    lemma_scales();
    lemma_pow2_pos(1074);
    lemma2_to64();
    lemma2_to64_rest();
    let u = unit() as int;
    let uu = u * u;
    let uuu = u * u * u;
    lemma_whole(Num(TRACE_CAP), 1_000_000, 33);
    lemma_add(Num(ZERO), r.m00, 0, 0x9_0000_0000);
    let t = Num(ZERO).plus(r.m00);
    assert((0 + 0x9_0000_0000 + 1) * u <= 0x9_0000_0001 * u && (0 + 0x9_0000_0000) * u
        <= 0x9_0000_0000 * u) by (nonlinear_arith)
        requires
            u > 0,
    ;
    lemma_add(t, r.m11, 0x9_0000_0001, 0x9_0000_0000);
    assert((0x9_0000_0001 + 0x9_0000_0000) * u <= 0x12_0000_0001 * u) by (nonlinear_arith)
        requires
            u > 0,
    ;
    let v = r.trace();
    lemma_compare(Num(TRACE_CAP), v);
    let sum = r.m00.value() + r.m11.value();
    assert(uu > 0 && uuu == u * uu) by (nonlinear_arith)
        requires
            uu == u * u,
            uuu == u * u * u,
            u > 0,
    ;
    assert(sum * uu == r.m00.value() * uu + r.m11.value() * uu) by (nonlinear_arith)
        requires
            sum == r.m00.value() + r.m11.value(),
    ;
    assert(2 * (sum * uu) <= 1_999_999 * (u * uu));
    assert(2 * sum <= 1_999_999 * u) by (nonlinear_arith)
        requires
            2 * (sum * uu) <= 1_999_999 * (u * uu),
            uu > 0,
    ;
    assert(apart(v.value(), sum) * 4 <= u);
}

/// An entry scaled down by a wanted trace over the present one.
proof fn lemma_scaled_entry(e: Num, t: Num)
    requires
        e.finite() && apart(e.value(), 0) <= 0x9_0000_0000 * unit(),
        t.finite() && 1_000_000 * unit() <= t.value() <= 0x20_0000_0000 * unit(),
    ensures
        ({
            let r = e.times(Num(TRACE_RESCALE_TO).over(t));
            &&& r.finite()
            &&& apart(r.value() * t.value(), 100_000 * unit() * e.value()) * 0x1_0000 <= 2
                * t.value() * unit() + apart(e.value(), 0) * unit()
        }),
{
    lemma_scales();
    crate::relative::lemma_vast();
    lemma_pow2_pos(1074);
    lemma2_to64();
    lemma2_to64_rest();
    lemma_steps_zero(e);
    lemma_steps_zero(t);
    let u = unit() as int;
    let goal = Num(TRACE_RESCALE_TO);
    lemma_whole(goal, 100_000, 36);
    lemma_steps_zero(goal);
    assert(goal.steps() * unit() <= reach() * t.steps()) by (nonlinear_arith)
        requires
            goal.steps() == 100_000 * u,
            u == unit(),
            t.steps() >= 1_000_000 * u,
            reach() >= u,
            u > 0,
    ;
    lemma_over_error(goal, t);
    let f = goal.over(t);
    lemma_steps_zero(f);
    assert(f.steps() <= 1 * u) by {
        lemma_share_is_small(f.value(), t.value(), u);
    }
    assert(0x9_0000_0000 * 1 == 0x9_0000_0000int);
    lemma_product(e, f, 0x9_0000_0000, 1);
    lemma_scaled_value(e.times(f).value(), e.value(), f.value(), t.value(), u);
}

proof fn lemma_share_is_small(f: int, t: int, u: int)
    requires
        u >= 0x1_0000_0000_0000_0000_0000_0000_0000,
        t >= 1_000_000 * u,
        apart(f * t, 100_000 * u * u) * 0x20_0000_0000_0000 <= 100_000 * u * u + t
            * 0x10_0000_0000_0000,
    ensures
        apart(f, 0) <= u,
{
    let uu = u * u;
    let g = f * t;
    assert(100_000 * u * u == 100_000 * uu) by (nonlinear_arith)
        requires
            uu == u * u,
    ;
    let tu = t * u;
    assert(tu >= 1_000_000 * uu && tu >= 0x1_0000_0000_0000_0000_0000_0000_0000 * t && uu > 0)
        by (nonlinear_arith)
        requires
            tu == t * u,
            uu == u * u,
            t >= 1_000_000 * u,
            u >= 0x1_0000_0000_0000_0000_0000_0000_0000,
    ;
    assert(apart(g, 0) <= tu);
    assert(apart(f, 0) <= u) by (nonlinear_arith)
        requires
            apart(g, 0) <= tu,
            g == f * t,
            tu == t * u,
            t > 0,
    ;
}

proof fn lemma_scaled_value(r: int, e: int, f: int, t: int, u: int)
    requires
        u >= 0x1_0000_0000_0000_0000_0000_0000_0000,
        1_000_000 * u <= t <= 0x20_0000_0000 * u,
        apart(f * t, 100_000 * u * u) * 0x20_0000_0000_0000 <= 100_000 * u * u + t
            * 0x10_0000_0000_0000,
        apart(r * u, e * f) * 0x20_0000_0000_0000 <= u * (0x9_0000_0000 * 1 * u
            + 0x10_0000_0000_0000),
    ensures
        apart(r * t, 100_000 * u * e) * 0x1_0000 <= 2 * t * u + apart(e, 0) * u,
{
    let q: int = 0x20_0000_0000_0000;
    let uu = u * u;
    let d = apart(r * u, e * f);
    assert(u * (0x9_0000_0000 * 1 * u + 0x10_0000_0000_0000) <= 0x9_0000_0001 * uu) by (nonlinear_arith)
        requires
            uu == u * u,
            u >= 0x10_0000_0000_0000,
    ;
    assert(d * 0x1_0000 <= uu) by {
        assert(uu >= 0) by (nonlinear_arith)
            requires
                uu == u * u,
        ;
    }
    let ru = r * u;
    assert(apart(ru * t, e * f * t) == d * t) by (nonlinear_arith)
        requires
            d == apart(ru, e * f),
            t > 0,
    ;
    let ft = f * t;
    let full = 100_000 * uu;
    let (g, z) = (apart(ft, full), apart(e, 0));
    assert(100_000 * u * u == full) by (nonlinear_arith)
        requires
            full == 100_000 * uu,
            uu == u * u,
    ;
    assert(t * 0x10_0000_0000_0000 <= uu) by (nonlinear_arith)
        requires
            t <= 0x20_0000_0000 * u,
            u >= 0x1_0000_0000_0000_0000_0000_0000_0000,
            uu == u * u,
    ;
    assert(g * q <= 100_001 * uu);
    assert(g * 0x1_0000 <= uu);
    assert(e * f * t == e * ft) by (nonlinear_arith)
        requires
            ft == f * t,
    ;
    assert(apart(e * ft, e * full) == z * g) by (nonlinear_arith)
        requires
            g == apart(ft, full),
            z == apart(e, 0),
    ;
    let (x, y) = (r * t, 100_000 * u * e);
    assert(ru * t == x * u && e * full == y * u) by (nonlinear_arith)
        requires
            ru == r * u,
            x == r * t,
            y == 100_000 * u * e,
            full == 100_000 * uu,
            uu == u * u,
    ;
    let n = apart(x, y);
    assert(apart(x * u, y * u) == n * u) by (nonlinear_arith)
        requires
            n == apart(x, y),
            u > 0,
    ;
    assert(n * u <= d * t + z * g);
    assert(d * t * 0x1_0000 <= uu * t && z * g * 0x1_0000 <= uu * z) by (nonlinear_arith)
        requires
            d * 0x1_0000 <= uu,
            g * 0x1_0000 <= uu,
            t > 0,
            z >= 0,
    ;
    assert(n * 0x1_0000 <= u * t + u * z) by (nonlinear_arith)
        requires
            n * u * 0x1_0000 <= uu * t + uu * z,
            uu == u * u,
            u > 0,
    ;
    assert(u * t <= 2 * t * u && u * z == z * u) by (nonlinear_arith)
        requires
            t > 0,
            u > 0,
    ;
}

/// The trace of a covariance that is clearly above a million.
proof fn lemma_trace_is_large(r: Mat2, x: int, y: int)
    requires
        r.m00.finite() && apart(r.m00.value(), 0) <= 0x9_0000_0000 * unit(),
        r.m11.finite() && apart(r.m11.value(), 0) <= 0x9_0000_0000 * unit(),
        apart(r.m00.value() * (unit() * unit()), x) * 0x1000 <= unit() * unit() * unit(),
        apart(r.m11.value() * (unit() * unit()), y) * 0x1000 <= unit() * unit() * unit(),
        x + y >= 1_000_001 * (unit() * unit() * unit()),
    ensures
        ({
            let t = r.trace();
            &&& t.finite() && Num(TRACE_CAP).lt(t)
            &&& 1_000_000 * unit() <= t.value() <= 0x20_0000_0000 * unit()
            &&& apart(t.value() * (unit() * unit()), x + y) * 16 <= unit() * unit() * unit()
        }),
{
    lemma_zero();
    lemma_scales();
    lemma_pow2_pos(1074);
    lemma2_to64();
    lemma2_to64_rest();
    let u = unit() as int;
    let uu = u * u;
    let uuu = u * u * u;
    lemma_whole(Num(TRACE_CAP), 1_000_000, 33);
    lemma_add(Num(ZERO), r.m00, 0, 0x9_0000_0000);
    let t = Num(ZERO).plus(r.m00);
    assert((0 + 0x9_0000_0000 + 1) * u <= 0x9_0000_0001 * u && (0 + 0x9_0000_0000) * u
        <= 0x9_0000_0000 * u) by (nonlinear_arith)
        requires
            u > 0,
    ;
    lemma_add(t, r.m11, 0x9_0000_0001, 0x9_0000_0000);
    assert((0x9_0000_0001 + 0x9_0000_0000) * u <= 0x12_0000_0001 * u && (0x9_0000_0001
        + 0x9_0000_0000 + 1) * u <= 0x20_0000_0000 * u) by (nonlinear_arith)
        requires
            u > 0,
    ;
    let v = r.trace().value();
    lemma_compare(Num(TRACE_CAP), r.trace());
    let sum = r.m00.value() + r.m11.value();
    assert(uu > 0 && uuu == u * uu && uuu > 0) by (nonlinear_arith)
        requires
            uu == u * u,
            uuu == u * u * u,
            u > 0,
    ;
    assert(sum * uu == r.m00.value() * uu + r.m11.value() * uu) by (nonlinear_arith)
        requires
            sum == r.m00.value() + r.m11.value(),
    ;
    assert(2 * (sum * uu) >= 2_000_001 * (u * uu));
    assert(2 * sum >= 2_000_001 * u) by (nonlinear_arith)
        requires
            2 * (sum * uu) >= 2_000_001 * (u * uu),
            uu > 0,
    ;
    let d = apart(v, sum);
    assert(d * 32 <= u);
    assert(apart(v * uu, sum * uu) == d * uu && d * uu * 32 <= u * uu) by (nonlinear_arith)
        requires
            d == apart(v, sum),
            d * 32 <= u,
            uu > 0,
    ;
}

/// An entry of a scaled covariance against what was left over.
proof fn lemma_scaled_left_over(r: int, e: int, t: int, left: int, u: int)
    requires
        u > 0,
        t >= 1_000_000 * u,
        apart(e, 0) <= 0x9_0000_0000 * u,
        apart(r * t, 100_000 * u * e) * 0x1_0000 <= 2 * t * u + apart(e, 0) * u,
        apart(e * (u * u), left) * 0x1000 <= u * u * u,
    ensures
        apart(r * t * (u * u), 100_000 * u * left) <= t * (u * u * u),
{
    let uu = u * u;
    let (tu, eu) = (t * u, apart(e, 0) * u);
    let x = r * t;
    let y = 100_000 * u * e;
    let n = apart(x, y);
    assert(eu <= 0x9_0000_0000 * uu && tu >= 1_000_000 * uu && uu > 0) by (nonlinear_arith)
        requires
            eu == apart(e, 0) * u,
            apart(e, 0) <= 0x9_0000_0000 * u,
            tu == t * u,
            t >= 1_000_000 * u,
            uu == u * u,
            u > 0,
    ;
    assert(2 * t * u == 2 * tu) by (nonlinear_arith)
        requires
            tu == t * u,
    ;
    assert(n * 8 <= 5 * tu);
    assert(apart(x * uu, y * uu) == n * uu && n * uu * 8 <= 5 * (tu * uu)) by (nonlinear_arith)
        requires
            n == apart(x, y),
            n * 8 <= 5 * tu,
            uu > 0,
    ;
    let euu = e * uu;
    let h = 100_000 * u;
    let d = apart(euu, left);
    assert(y * uu == h * euu) by (nonlinear_arith)
        requires
            y == 100_000 * u * e,
            euu == e * uu,
            h == 100_000 * u,
    ;
    assert(apart(h * euu, h * left) == h * d) by (nonlinear_arith)
        requires
            d == apart(euu, left),
            h > 0,
    ;
    let uuu = u * u * u;
    assert(uuu == u * uu) by (nonlinear_arith)
        requires
            uuu == u * u * u,
            uu == u * u,
    ;
    assert(uuu > 0) by (nonlinear_arith)
        requires
            uuu == u * uu,
            uu > 0,
            u > 0,
    ;
    assert(h * d * 0x1000 <= h * uuu) by (nonlinear_arith)
        requires
            d * 0x1000 <= uuu,
            h > 0,
    ;
    assert(h * uuu * 10 <= t * uuu) by (nonlinear_arith)
        requires
            h == 100_000 * u,
            t >= 1_000_000 * u,
            uuu > 0,
    {
        assert(h * 10 <= t);
    }
    assert(tu * uu == t * uuu) by (nonlinear_arith)
        requires
            tu == t * u,
            uuu == u * uu,
    ;
    assert(t * uuu > 0) by (nonlinear_arith)
        requires
            t > 0,
            uuu > 0,
    ;
}

/// `t` is the trace of what was left over, and each entry of the covariance
/// times it is a hundred thousand times what was left over, up to rounding.
pub open spec fn scaled_down(k: Kalman, w: Num, t: int) -> bool {
    let r = k.corrected(w);
    let u = unit() as int;
    let (uu, uuu) = (u * u, u * u * u);
    &&& apart(t * uu, left_over(k, w, 0, 0) + left_over(k, w, 1, 1)) * 16 <= uuu
    &&& apart(r.m00.value() * t * uu, 100_000 * u * left_over(k, w, 0, 0)) <= t * uuu
    &&& apart(r.m01.value() * t * uu, 100_000 * u * left_over(k, w, 0, 1)) <= t * uuu
    &&& apart(r.m10.value() * t * uu, 100_000 * u * left_over(k, w, 1, 0)) <= t * uuu
    &&& apart(r.m11.value() * t * uu, 100_000 * u * left_over(k, w, 1, 1)) <= t * uuu
}

/// A covariance whose trace is clearly above a million is scaled down as a
/// whole, so that its trace becomes a hundred thousand: each entry times the
/// trace is a hundred thousand times what was left over, up to rounding.
pub proof fn lemma_large_covariance_is_scaled_down(k: Kalman, w: Num)
    requires
        sound(k, w),
        k.weights(w).a.finite() && k.weights(w).a.steps() <= unit(),
        k.weights(w).b.finite() && k.weights(w).b.steps() <= unit(),
        left_over(k, w, 0, 0) + left_over(k, w, 1, 1) >= 1_000_001 * (unit() * unit() * unit()),
    ensures
        ({
            let r = k.corrected(w);
            &&& r.m00.finite() && r.m01.finite() && r.m10.finite() && r.m11.finite()
            &&& exists|t: int| scaled_down(k, w, t)
        }),
{
    lemma_uncapped(k, w);
    lemma_pow2_pos(1074);
    let x = Pair { a: Num(ONE), b: w };
    let next = identity().minus(outer(k.weights(w), x)).times(k.predicted());
    let u = unit() as int;
    lemma_trace_is_large(next, left_over(k, w, 0, 0), left_over(k, w, 1, 1));
    let tr = next.trace();
    let t = tr.value();
    let r = k.corrected(w);
    assert(r == next.scaled(Num(TRACE_RESCALE_TO).over(tr))) by {
        reveal(Kalman::corrected);
    }
    lemma_scaled_entry(next.m00, tr);
    lemma_scaled_entry(next.m01, tr);
    lemma_scaled_entry(next.m10, tr);
    lemma_scaled_entry(next.m11, tr);
    lemma_scaled_left_over(r.m00.value(), next.m00.value(), t, left_over(k, w, 0, 0), u);
    lemma_scaled_left_over(r.m01.value(), next.m01.value(), t, left_over(k, w, 0, 1), u);
    lemma_scaled_left_over(r.m10.value(), next.m10.value(), t, left_over(k, w, 1, 0), u);
    lemma_scaled_left_over(r.m11.value(), next.m11.value(), t, left_over(k, w, 1, 1), u);
    assert(scaled_down(k, w, t));
}

} // verus!
