//! What the filter makes of a measurement, told from its readings.

use crate::kalman::{
    sane_bias, sane_gain, Kalman, Pair, GAIN_MAX, GAIN_MIN, KF_PERIOD_S, MAX_BIAS_AUTHORITY_RPM, Q_BIAS, Q_GAIN, R,
};
use crate::num::{unit, Num, ONE, ZERO};
use crate::order::{lemma_one, lemma_steps_zero};
use crate::precision::{apart, lemma_over_error, lemma_plus_error, lemma_times_error, reach};
use crate::spending::{lemma_scales, lemma_within_value, pulled};
use crate::values::{lemma_compare, lemma_difference_side, lemma_whole, lemma_zero};
use vstd::arithmetic::power2::{lemma2_to64, lemma2_to64_rest, lemma_pow2_pos};
use vstd::prelude::*;

verus! {

proof fn lemma_constants()
    ensures
        Num(KF_PERIOD_S).finite() && Num(KF_PERIOD_S).value() == 20 * unit(),
        Num(MAX_BIAS_AUTHORITY_RPM).finite() && Num(MAX_BIAS_AUTHORITY_RPM).value() == 400 * unit(),
        Num(R).finite() && Num(R).value() == 10000 * unit(),
        Num(Q_BIAS).finite() && Num(Q_BIAS).value() == 26 * unit(),
{
    lemma2_to64();
    lemma2_to64_rest();
    lemma_whole(Num(KF_PERIOD_S), 20, 48);
    lemma_whole(Num(MAX_BIAS_AUTHORITY_RPM), 400, 44);
    lemma_whole(Num(R), 10000, 39);
    lemma_whole(Num(Q_BIAS), 26, 48);
}

/// An update is due twenty seconds after the last one that was taken, and not
/// before; the first one is due at once. `z` is any number of seconds below
/// twenty.
pub proof fn lemma_updates_keep_twenty_seconds(k: Kalman, t: Num, z: Num)
    requires
        t.finite() && z.finite() && z.value() < 20 * unit(),
        k.last_update_t is Some ==> k.last_update_t->0.finite(),
    ensures
        k.last_update_t is None ==> k.due(t),
        k.last_update_t is Some && t.value() - k.last_update_t->0.value() >= 20 * unit() ==> k.due(t),
        k.last_update_t is Some && t.value() - k.last_update_t->0.value() <= z.value() ==> !k.due(t),
{
    lemma_constants();
    if let Some(last) = k.last_update_t {
        lemma_difference_side(t, last, Num(KF_PERIOD_S));
        lemma_difference_side(t, last, z);
        lemma_compare(z, Num(KF_PERIOD_S));
    }
    reveal(Num::le);
    reveal(Num::lt);
}

/// A bias is held within 400 RPM on either side, and a gain within its range;
/// what is not finite starts from nothing, or from one.
pub proof fn lemma_starts_within_the_box(bias: Num, gain: Num)
    ensures
        bias.finite() ==> sane_bias(bias).value() == pulled(
            bias.value(),
            -400 * unit(),
            400 * unit() as int,
        ),
        !bias.finite() ==> sane_bias(bias).value() == 0,
        gain.finite() ==> sane_gain(gain).value() == pulled(
            gain.value(),
            Num(GAIN_MIN).value(),
            Num(GAIN_MAX).value(),
        ),
        !gain.finite() ==> sane_gain(gain).value() == unit(),
{
    lemma_constants();
    lemma_zero();
    lemma_one();
    lemma_steps_zero(Num(ONE));
    lemma_pow2_pos(1074);
    let limit = Num(MAX_BIAS_AUTHORITY_RPM);
    assert(limit.opposite().finite() && limit.opposite().value() == -400 * unit());
    if bias.finite() {
        lemma_within_value(bias, limit.opposite(), limit);
    }
    assert(Num(GAIN_MIN).le(Num(GAIN_MAX))) by {
        reveal(Num::le);
    }
    lemma_compare(Num(GAIN_MIN), Num(GAIN_MAX));
    if gain.finite() {
        lemma_within_value(gain, Num(GAIN_MIN), Num(GAIN_MAX));
    }
}

/// A product of numbers that are not too large.
pub proof fn lemma_product(a: Num, b: Num, m: int, n: int)
    requires
        a.finite() && a.steps() <= m * unit(),
        b.finite() && b.steps() <= n * unit(),
        0 <= m && 0 <= n && m * n <= 0x8_0000_0000_0000,
    ensures
        a.times(b).finite(),
        apart(a.times(b).value() * unit(), a.value() * b.value()) * 0x20_0000_0000_0000 <= unit() * (
        m * n * unit() + 0x10_0000_0000_0000),
        apart(a.times(b).value(), 0) <= (m * n + 1) * unit(),
{
    lemma_scales();
    lemma_pow2_pos(1074);
    lemma_steps_zero(a);
    lemma_steps_zero(b);
    let u = unit() as int;
    let (x, y) = (a.steps() as int, b.steps() as int);
    let (q, h) = (0x20_0000_0000_0000int, 0x10_0000_0000_0000int);
    let mn = m * n;
    let muu = mn * u;
    assert(x * y <= u * muu) by (nonlinear_arith)
        requires
            0 <= x <= m * u,
            0 <= y <= n * u,
            muu == m * n * u,
            u > 0,
            0 <= m,
            0 <= n,
    ;
    assert(muu <= 0x8_0000_0000_0000 * u) by (nonlinear_arith)
        requires
            muu == mn * u,
            mn <= 0x8_0000_0000_0000,
            u > 0,
    ;
    assert(u * muu <= reach() * u) by (nonlinear_arith)
        requires
            muu <= reach(),
            u > 0,
    ;
    lemma_times_error(a, b);
    let p = a.times(b).value();
    let ab = a.value() * b.value();
    assert(apart(ab, 0) == x * y) by (nonlinear_arith)
        requires
            x == apart(a.value(), 0),
            y == apart(b.value(), 0),
            ab == a.value() * b.value(),
    ;
    assert(u * (muu + h) == u * muu + u * h) by (nonlinear_arith);
    let w = apart(p, 0);
    assert(apart(p * u, 0) == w * u) by (nonlinear_arith)
        requires
            w == apart(p, 0),
            u > 0,
    ;
    assert(w * q <= muu * q + muu + h) by (nonlinear_arith)
        requires
            w * u * q <= u * muu * q + u * muu + u * h,
            u > 0,
    ;
    assert((mn + 1) * u == muu + u) by (nonlinear_arith)
        requires
            muu == mn * u,
    ;
}

/// What the filter can be computed on.
pub open spec fn sound(k: Kalman, w: Num) -> bool {
    &&& k.p.m00.finite() && k.p.m00.steps() <= 0x20_0000 * unit()
    &&& k.p.m01.finite() && k.p.m01.steps() <= 0x20_0000 * unit()
    &&& k.p.m10.finite() && k.p.m10.steps() <= 0x20_0000 * unit()
    &&& k.p.m11.finite() && k.p.m11.steps() <= 0x20_0000 * unit()
    &&& k.theta.a.finite() && k.theta.a.steps() <= 400 * unit()
    &&& k.theta.b.finite() && k.theta.b.steps() <= 2 * unit()
    &&& w.finite() && w.steps() <= 0x2000 * unit()
}

/// The innovation is the measurement less what the model predicts: the
/// baseline, the bias, and the gain times the regressor.
pub proof fn lemma_innovation_is_what_the_model_misses(
    k: Kalman,
    measured: Num,
    baseline: Num,
    w: Num,
)
    requires
        sound(k, w),
        measured.finite() && measured.steps() <= 0x10_0000 * unit(),
        baseline.finite() && baseline.steps() <= 0x10_0000 * unit(),
    ensures
        ({
            let u = unit() as int;
            let e = k.innovation(measured, baseline, w);
            &&& e.finite()
            &&& apart(
                e.value() * u,
                (measured.value() - baseline.value() - k.theta.a.value()) * u - k.theta.b.value()
                    * w.value(),
            ) * 0x1000_0000 <= u * u
            &&& apart(e.value(), 0) <= 0x40_0000 * u
        }),
{
    reveal(Kalman::innovation);
    lemma_scales();
    lemma_pow2_pos(1074);
    let u = unit() as int;
    let (bias, gain) = (k.theta.a, k.theta.b);
    assert(2 * 0x2000 <= 0x8_0000_0000_0000int);
    lemma_product(gain, w, 2, 0x2000);
    let g = gain.times(w);
    lemma_three_sums(measured, baseline, bias, g);
    let e = measured.minus(baseline.plus(bias).plus(g));
    let plain = measured.value() - baseline.value() - bias.value();
    lemma_missed(e.value(), plain, g.value(), gain.value() * w.value(), u);
}

proof fn lemma_three_sums(measured: Num, baseline: Num, bias: Num, g: Num)
    requires
        measured.finite() && measured.steps() <= 0x10_0000 * unit(),
        baseline.finite() && baseline.steps() <= 0x10_0000 * unit(),
        bias.finite() && bias.steps() <= 400 * unit(),
        g.finite() && apart(g.value(), 0) <= 0x4001 * unit(),
    ensures
        ({
            let e = measured.minus(baseline.plus(bias).plus(g));
            let exact = measured.value() - baseline.value() - bias.value() - g.value();
            &&& e.finite()
            &&& apart(e.value(), exact) * 0x20_0000_0000_0000 <= 0x80_0000 * unit()
            &&& apart(e.value(), 0) <= 0x40_0000 * unit()
        }),
{
    lemma_steps_zero(measured);
    lemma_steps_zero(baseline);
    lemma_steps_zero(bias);
    let u = unit() as int;
    lemma_pow2_pos(1074);
    lemma_add(baseline, bias, 0x10_0000, 400);
    let b = baseline.plus(bias);
    lemma_add(b, g, 0x10_0191, 0x4001);
    let m = b.plus(g);
    let o = m.opposite();
    assert(o.finite() && o.value() == -m.value());
    lemma_add(measured, o, 0x10_0000, 0x10_4193);
    reveal(Num::minus);
}

/// A sum of numbers that are not too large.
pub proof fn lemma_add(a: Num, c: Num, m: int, n: int)
    requires
        a.finite() && apart(a.value(), 0) <= m * unit(),
        c.finite() && apart(c.value(), 0) <= n * unit(),
        0 <= m && 0 <= n && m + n <= 0x8_0000_0000_0000,
    ensures
        a.plus(c).finite(),
        apart(a.plus(c).value(), a.value() + c.value()) * 0x20_0000_0000_0000 <= (m + n) * unit(),
        apart(a.plus(c).value(), 0) <= (m + n + 1) * unit(),
{
    lemma_scales();
    lemma_pow2_pos(1074);
    let u = unit() as int;
    let z = (m + n) * u;
    assert(z == m * u + n * u && (m + n + 1) * u == z + u) by (nonlinear_arith)
        requires
            z == (m + n) * u,
    ;
    assert(z <= 0x8_0000_0000_0000 * u) by (nonlinear_arith)
        requires
            z == (m + n) * u,
            m + n <= 0x8_0000_0000_0000,
            u > 0,
    ;
    lemma_plus_error(a, c);
}

proof fn lemma_missed(e: int, plain: int, g: int, gw: int, u: int)
    requires
        u >= 0x20_0000_0000_0000,
        apart(e, plain - g) * 0x20_0000_0000_0000 <= 0x80_0000 * u,
        apart(g * u, gw) * 0x20_0000_0000_0000 <= u * (2 * 0x2000 * u + 0x10_0000_0000_0000),
    ensures
        apart(e * u, plain * u - gw) * 0x1000_0000 <= u * u,
{
    let (q, h) = (0x20_0000_0000_0000int, 0x10_0000_0000_0000int);
    let d = apart(e, plain - g);
    assert(apart(e * u, (plain - g) * u) == d * u) by (nonlinear_arith)
        requires
            d == apart(e, plain - g),
            u > 0,
    ;
    assert((plain - g) * u == plain * u - g * u) by (nonlinear_arith);
    let uu = u * u;
    assert(d * u * q <= 0x80_0000 * uu) by (nonlinear_arith)
        requires
            d * q <= 0x80_0000 * u,
            uu == u * u,
            u > 0,
    ;
    assert(u * (2 * 0x2000 * u + h) <= 0x8000 * uu) by (nonlinear_arith)
        requires
            uu == u * u,
            h <= u,
            u > 0,
    ;
}

/// The covariance before the measurement, with its process noise, applied to
/// the regressor: what the bias gets of it, exactly, in steps times one.
pub open spec fn bias_part(k: Kalman, w: Num) -> int {
    (k.p.m00.value() + 26 * unit()) * unit() + k.p.m01.value() * w.value()
}

/// What the gain gets of it.
pub open spec fn gain_part(k: Kalman, w: Num) -> int {
    k.p.m10.value() * unit() + (k.p.m11.value() + Num(Q_GAIN).value()) * w.value()
}

/// The variance of the innovation, exactly: that of the prediction, and the
/// noise of the measurement.
pub open spec fn spread(k: Kalman, w: Num) -> int {
    let u = unit() as int;
    bias_part(k, w) * u + w.value() * gain_part(k, w) + 10000 * (u * u * u)
}

/// One row of the covariance applied to the regressor.
proof fn lemma_row(x: Num, y: Num, w: Num, x0: int, y0: int)
    requires
        x.finite() && apart(x.value(), 0) <= 0x20_0020 * unit(),
        y.finite() && apart(y.value(), 0) <= 0x20_0020 * unit(),
        w.finite() && w.steps() <= 0x2000 * unit(),
        apart(x.value(), x0) * 0x20_0000_0000_0000 <= 0x20_0020 * unit(),
        apart(y.value(), y0) * 0x20_0000_0000_0000 <= 0x20_0020 * unit(),
    ensures
        ({
            let r = x.times(w).plus(y.times(Num(ONE)));
            &&& r.finite()
            &&& apart(r.value(), 0) <= 0x5_0000_0000 * unit()
            &&& apart(r.value() * unit(), y0 * unit() + x0 * w.value()) * 0x1_0000 <= unit()
                * unit()
        }),
{
    lemma_scales();
    lemma_pow2_pos(1074);
    lemma_one();
    lemma_steps_zero(Num(ONE));
    lemma_steps_zero(x);
    lemma_steps_zero(y);
    lemma_steps_zero(w);
    let u = unit() as int;
    assert(0x20_0020 * 0x2000 == 0x4_0004_0000int);
    lemma_product(x, w, 0x20_0020, 0x2000);
    lemma_product(y, Num(ONE), 0x20_0020, 1);
    let (a, c) = (x.times(w), y.times(Num(ONE)));
    lemma_add(a, c, 0x4_0004_0001, 0x20_0021);
    lemma_row_value(
        a.plus(c).value(),
        a.value(),
        c.value(),
        x.value(),
        y.value(),
        w.value(),
        x0,
        y0,
        u,
    );
}

proof fn lemma_row_value(r: int, a: int, c: int, x: int, y: int, w: int, x0: int, y0: int, u: int)
    requires
        u >= 0x20_0000_0000_0000,
        apart(r, a + c) * 0x20_0000_0000_0000 <= 0x4_0024_0022 * u,
        apart(a * u, x * w) * 0x20_0000_0000_0000 <= u * (0x4_0004_0000 * u + 0x10_0000_0000_0000),
        apart(c * u, y * u) * 0x20_0000_0000_0000 <= u * (0x20_0020 * u + 0x10_0000_0000_0000),
        apart(w, 0) <= 0x2000 * u,
        apart(x, x0) * 0x20_0000_0000_0000 <= 0x20_0020 * u,
        apart(y, y0) * 0x20_0000_0000_0000 <= 0x20_0020 * u,
    ensures
        apart(r * u, y0 * u + x0 * w) * 0x1_0000 <= u * u,
{
    let q: int = 0x20_0000_0000_0000;
    let uu = u * u;
    let d = apart(r, a + c);
    assert(apart(r * u, (a + c) * u) == d * u && (a + c) * u == a * u + c * u) by (nonlinear_arith)
        requires
            d == apart(r, a + c),
            u > 0,
    ;
    assert(d * u * q <= 0x4_0024_0022 * uu) by (nonlinear_arith)
        requires
            d * q <= 0x4_0024_0022 * u,
            uu == u * u,
            u > 0,
    ;
    assert(u * (0x4_0004_0000 * u + 0x10_0000_0000_0000) <= 0x4_0004_0001 * uu) by (nonlinear_arith)
        requires
            uu == u * u,
            u >= 0x10_0000_0000_0000,
    ;
    assert(u * (0x20_0020 * u + 0x10_0000_0000_0000) <= 0x20_0021 * uu) by (nonlinear_arith)
        requires
            uu == u * u,
            u >= 0x10_0000_0000_0000,
    ;
    let (e, f, z) = (apart(x, x0), apart(y, y0), apart(w, 0));
    assert(apart(x * w, x0 * w) == e * z) by (nonlinear_arith)
        requires
            e == apart(x, x0),
            z == apart(w, 0),
    ;
    assert(e * z * q <= 0x4_0004_0000 * uu) by (nonlinear_arith)
        requires
            e * q <= 0x20_0020 * u,
            0 <= z <= 0x2000 * u,
            e >= 0,
            uu == u * u,
            u > 0,
    ;
    assert(apart(y * u, y0 * u) == f * u) by (nonlinear_arith)
        requires
            f == apart(y, y0),
            u > 0,
    ;
    assert(f * u * q <= 0x20_0020 * uu) by (nonlinear_arith)
        requires
            f * q <= 0x20_0020 * u,
            uu == u * u,
            u > 0,
    ;
    assert(uu >= 0) by (nonlinear_arith)
        requires
            uu == u * u,
            u > 0,
    ;
}

/// The covariance before a measurement is the one after the last, with the
/// process noise.
pub proof fn lemma_noise(k: Kalman, w: Num)
    requires
        sound(k, w),
    ensures
        ({
            let (pp, p, u) = (k.predicted(), k.p, unit());
            let q = 0x20_0000_0000_0000int;
            &&& pp.m00.finite() && apart(pp.m00.value(), 0) <= 0x20_0020 * u
            &&& pp.m01.finite() && apart(pp.m01.value(), 0) <= 0x20_0020 * u
            &&& pp.m10.finite() && apart(pp.m10.value(), 0) <= 0x20_0020 * u
            &&& pp.m11.finite() && apart(pp.m11.value(), 0) <= 0x20_0020 * u
            &&& apart(pp.m00.value(), p.m00.value() + 26 * u) * q <= 0x20_0020 * u
            &&& apart(pp.m01.value(), p.m01.value()) * q <= 0x20_0020 * u
            &&& apart(pp.m10.value(), p.m10.value()) * q <= 0x20_0020 * u
            &&& apart(pp.m11.value(), p.m11.value() + Num(Q_GAIN).value()) * q <= 0x20_0020 * u
        }),
{
    lemma_constants();
    lemma_zero();
    lemma_one();
    lemma_pow2_pos(1074);
    lemma_steps_zero(k.p.m00);
    lemma_steps_zero(k.p.m01);
    lemma_steps_zero(k.p.m10);
    lemma_steps_zero(k.p.m11);
    let small = Num(Q_GAIN);
    assert(small.finite() && apart(small.value(), 0) <= unit()) by {
        lemma_steps_zero(small);
        lemma_steps_zero(Num(ONE));
        assert(Num(ZERO).le(small) && small.le(Num(ONE))) by {
            reveal(Num::le);
        }
        lemma_compare(Num(ZERO), small);
        lemma_compare(small, Num(ONE));
    }
    lemma_add(k.p.m00, Num(Q_BIAS), 0x20_0000, 26);
    lemma_add(k.p.m01, Num(ZERO), 0x20_0000, 0);
    lemma_add(k.p.m10, Num(ZERO), 0x20_0000, 0);
    lemma_add(k.p.m11, small, 0x20_0000, 1);
    let pp = k.predicted();
    assert(pp.m11 == k.p.m11.plus(small));
    assert((0x20_0000 + 1) * unit() <= 0x20_0020 * unit()) by (nonlinear_arith)
        requires
            unit() >= 0,
    ;
}

/// Both rows.
proof fn lemma_parts(k: Kalman, w: Num)
    requires
        sound(k, w),
    ensures
        ({
            let px = k.predicted().times_pair(Pair { a: Num(ONE), b: w });
            let uu = unit() * unit();
            &&& px.a.finite() && px.b.finite()
            &&& apart(px.a.value(), 0) <= 0x5_0000_0000 * unit()
            &&& apart(px.b.value(), 0) <= 0x5_0000_0000 * unit()
            &&& apart(px.a.value() * unit(), bias_part(k, w)) * 0x1_0000 <= uu
            &&& apart(px.b.value() * unit(), gain_part(k, w)) * 0x1_0000 <= uu
        }),
{
    lemma_noise(k, w);
    lemma_one();
    lemma_pow2_pos(1074);
    let pp = k.predicted();
    lemma_row(pp.m01, pp.m00, w, k.p.m01.value(), k.p.m00.value() + 26 * unit());
    let exact = k.p.m11.value() + Num(Q_GAIN).value();
    lemma_row(pp.m11, pp.m10, w, exact, k.p.m10.value());
}

/// The variance that the weights are computed with.
proof fn lemma_spread_value(k: Kalman, w: Num)
    requires
        sound(k, w),
    ensures
        ({
            let x = Pair { a: Num(ONE), b: w };
            let px = k.predicted().times_pair(x);
            let s = x.a.times(px.a).plus(x.b.times(px.b)).plus(Num(R));
            let u = unit() as int;
            &&& s.finite()
            &&& apart(s.value(), 0) <= 0xb000_0000_0000 * u
            &&& apart(s.value() * (u * u), spread(k, w)) * 4 <= u * u * u
        }),
{
    lemma_parts(k, w);
    lemma_constants();
    lemma_scales();
    lemma_pow2_pos(1074);
    lemma_one();
    lemma_steps_zero(Num(ONE));
    lemma_steps_zero(w);
    let u = unit() as int;
    let px = k.predicted().times_pair(Pair { a: Num(ONE), b: w });
    lemma_steps_zero(px.a);
    lemma_steps_zero(px.b);
    lemma_product(Num(ONE), px.a, 1, 0x5_0000_0000);
    assert(0x2000 * 0x5_0000_0000 == 0xa000_0000_0000int);
    lemma_product(w, px.b, 0x2000, 0x5_0000_0000);
    let (a, c) = (Num(ONE).times(px.a), w.times(px.b));
    lemma_add(a, c, 0x5_0000_0001, 0xa000_0000_0001);
    let t = a.plus(c);
    lemma_add(t, Num(R), 0xa005_0000_0003, 10000);
    let s = t.plus(Num(R));
    assert(u * px.a.value() == px.a.value() * u) by (nonlinear_arith);
    lemma_spread_sum(
        s.value(),
        t.value(),
        a.value(),
        c.value(),
        px.a.value(),
        px.b.value(),
        w.value(),
        bias_part(k, w),
        gain_part(k, w),
        u,
    );
}

proof fn lemma_spread_sum(
    s: int,
    t: int,
    a: int,
    c: int,
    x: int,
    y: int,
    w: int,
    pa: int,
    pb: int,
    u: int,
)
    requires
        u >= 0x20_0000_0000_0000,
        apart(s, t + 10000 * u) * 0x20_0000_0000_0000 <= 0xa005_0000_2713 * u,
        apart(t, a + c) * 0x20_0000_0000_0000 <= 0xa005_0000_0002 * u,
        apart(a * u, x * u) * 0x20_0000_0000_0000 <= u * (0x5_0000_0000 * u + 0x10_0000_0000_0000),
        apart(c * u, w * y) * 0x20_0000_0000_0000 <= u * (0xa000_0000_0000 * u
            + 0x10_0000_0000_0000),
        apart(w, 0) <= 0x2000 * u,
        apart(x * u, pa) * 0x1_0000 <= u * u,
        apart(y * u, pb) * 0x1_0000 <= u * u,
    ensures
        apart(s * (u * u), pa * u + w * pb + 10000 * (u * u * u)) * 4 <= u * u * u,
{
    let q: int = 0x20_0000_0000_0000;
    let uu = u * u;
    let uuu = uu * u;
    let d = apart(s, a + c + 10000 * u);
    assert(d * q <= 0x1_400b_0000_2715 * u);
    // In steps times one.
    assert(apart(s * u, (a + c + 10000 * u) * u) == d * u) by (nonlinear_arith)
        requires
            d == apart(s, a + c + 10000 * u),
            u > 0,
    ;
    assert((a + c + 10000 * u) * u == a * u + c * u + 10000 * uu) by (nonlinear_arith)
        requires
            uu == u * u,
    ;
    assert(d * u * q <= 0x1_400b_0000_2715 * uu) by (nonlinear_arith)
        requires
            d * q <= 0x1_400b_0000_2715 * u,
            uu == u * u,
            u > 0,
    ;
    assert(u * (0x5_0000_0000 * u + 0x10_0000_0000_0000) <= 0x5_0000_0001 * uu) by (nonlinear_arith)
        requires
            uu == u * u,
            u >= 0x10_0000_0000_0000,
    ;
    assert(u * (0xa000_0000_0000 * u + 0x10_0000_0000_0000) <= 0xa000_0000_0001 * uu)
        by (nonlinear_arith)
        requires
            uu == u * u,
            u >= 0x10_0000_0000_0000,
    ;
    let near = x * u + w * y + 10000 * uu;
    let e = apart(s * u, near);
    assert(e * q <= 0x2_0000_0000_0000 * uu) by {
        assert(uu >= 0) by (nonlinear_arith)
            requires
                uu == u * u,
                u > 0,
        ;
    }
    assert(e * 16 <= uu);
    // In steps times one, twice.
    assert(apart(s * u * u, near * u) == e * u) by (nonlinear_arith)
        requires
            e == apart(s * u, near),
            u > 0,
    ;
    assert(s * u * u == s * uu) by (nonlinear_arith)
        requires
            uu == u * u,
    ;
    assert(near * u == x * u * u + w * (y * u) + 10000 * uuu) by (nonlinear_arith)
        requires
            near == x * u + w * y + 10000 * uu,
            uuu == uu * u,
    ;
    assert(e * u * 16 <= uuu) by (nonlinear_arith)
        requires
            e * 16 <= uu,
            uuu == uu * u,
            u > 0,
    ;
    let (f, g, z) = (apart(x * u, pa), apart(y * u, pb), apart(w, 0));
    assert(apart(x * u * u, pa * u) == f * u) by (nonlinear_arith)
        requires
            f == apart(x * u, pa),
            u > 0,
    ;
    assert(f * u * 0x1_0000 <= uuu) by (nonlinear_arith)
        requires
            f * 0x1_0000 <= uu,
            uuu == uu * u,
            u > 0,
    ;
    let yu = y * u;
    assert(apart(w * yu, w * pb) == z * g) by (nonlinear_arith)
        requires
            g == apart(yu, pb),
            z == apart(w, 0),
    ;
    assert(z * g * 8 <= uuu) by (nonlinear_arith)
        requires
            g * 0x1_0000 <= uu,
            0 <= z <= 0x2000 * u,
            g >= 0,
            uuu == uu * u,
            u > 0,
    ;
    assert(uuu == u * u * u);
    assert(uuu >= 0) by (nonlinear_arith)
        requires
            uuu == u * u * u,
            u > 0,
    ;
}

/// Each weight times the variance of the innovation is what the bias, or the
/// gain, gets of the covariance, up to rounding.
pub proof fn lemma_weights_share_out_the_innovation(k: Kalman, w: Num)
    requires
        sound(k, w),
        spread(k, w) >= unit() * unit() * unit(),
    ensures
        ({
            let r = k.weights(w);
            let u = unit() as int;
            let uu = u * u;
            &&& r.a.finite() && r.b.finite()
            &&& apart(r.a.value() * spread(k, w), bias_part(k, w) * uu) <= (r.a.steps() + u) * (uu * u)
            &&& apart(r.b.value() * spread(k, w), gain_part(k, w) * uu) <= (r.b.steps() + u) * (uu * u)
        }),
{
    reveal(Kalman::weights);
    lemma_parts(k, w);
    lemma_spread_value(k, w);
    let x = Pair { a: Num(ONE), b: w };
    let px = k.predicted().times_pair(x);
    let s = x.a.times(px.a).plus(x.b.times(px.b)).plus(Num(R));
    lemma_weight(px.a, s, bias_part(k, w), spread(k, w));
    lemma_weight(px.b, s, gain_part(k, w), spread(k, w));
}

proof fn lemma_weight(x: Num, s: Num, part: int, full: int)
    requires
        x.finite() && apart(x.value(), 0) <= 0x5_0000_0000 * unit(),
        s.finite() && apart(s.value(), 0) <= 0xb000_0000_0000 * unit(),
        apart(x.value() * unit(), part) * 0x1_0000 <= unit() * unit(),
        apart(s.value() * (unit() * unit()), full) * 4 <= unit() * unit() * unit(),
        full >= unit() * unit() * unit(),
    ensures
        ({
            let r = x.over(s);
            let u = unit() as int;
            let uu = u * u;
            &&& r.finite()
            &&& apart(r.value() * full, part * uu) <= (r.steps() + u) * (uu * u)
        }),
{
    lemma_scales();
    lemma_pow2_pos(1074);
    lemma_steps_zero(x);
    lemma_steps_zero(s);
    let u = unit() as int;
    let (uu, sv, xs) = (u * u, s.value(), x.steps() as int);
    let uuu = uu * u;
    assert(uuu == u * u * u);
    assert(uu > 0 && uuu > 0) by (nonlinear_arith)
        requires
            uu == u * u,
            uuu == uu * u,
            u > 0,
    ;
    assert(4 * (sv * uu) >= 3 * (u * uu)) by {
        assert(u * uu == uuu) by (nonlinear_arith)
            requires
                uuu == uu * u,
        ;
    }
    assert(4 * sv >= 3 * u) by (nonlinear_arith)
        requires
            4 * (sv * uu) >= 3 * (u * uu),
            uu > 0,
    ;
    assert(xs * u <= reach() * s.steps()) by (nonlinear_arith)
        requires
            0 <= xs <= 0x5_0000_0000 * u,
            reach() >= 0x20_0000_0000_0000 * u,
            4 * s.steps() >= 3 * u,
            u > 0,
    ;
    lemma_over_error(x, s);
    let r = x.over(s);
    lemma_steps_zero(r);
    crate::relative::lemma_vast();
    lemma_weight_value(r.value(), x.value(), sv, part, full, u);
}

proof fn lemma_weight_value(r: int, x: int, s: int, part: int, full: int, u: int)
    requires
        u >= 0x1_0000_0000_0000_0000_0000_0000_0000,
        s > 0,
        s <= 0xb000_0000_0000 * u,
        apart(x, 0) <= 0x5_0000_0000 * u,
        apart(r * s, x * u) * 0x20_0000_0000_0000 <= apart(x, 0) * u + s * 0x10_0000_0000_0000,
        apart(x * u, part) * 0x1_0000 <= u * u,
        apart(s * (u * u), full) * 4 <= u * u * u,
    ensures
        apart(r * full, part * (u * u)) <= (apart(r, 0) + u) * (u * u * u),
{
    let q: int = 0x20_0000_0000_0000;
    let uu = u * u;
    let uuu = uu * u;
    let rs = apart(r, 0);
    let suu = s * uu;
    let d = apart(suu, full);
    assert(uu >= 0) by (nonlinear_arith)
        requires
            uu == u * u,
            u > 0,
    ;
    assert(uuu == u * u * u);
    assert(apart(r * suu, r * full) == rs * d) by (nonlinear_arith)
        requires
            d == apart(suu, full),
            rs == apart(r, 0),
    ;
    assert(rs * d * 4 <= rs * uuu) by (nonlinear_arith)
        requires
            d * 4 <= uuu,
            rs >= 0,
    ;
    let e = apart(r * s, x * u);
    let z = apart(x, 0);
    assert(z * u <= 0x5_0000_0000 * uu) by (nonlinear_arith)
        requires
            z <= 0x5_0000_0000 * u,
            uu == u * u,
            u > 0,
    ;
    assert(s * 0x10_0000_0000_0000 <= uu) by (nonlinear_arith)
        requires
            s <= 0xb000_0000_0000 * u,
            u >= 0x1_0000_0000_0000_0000_0000_0000_0000,
            uu == u * u,
    ;
    assert(e * q <= 0x5_0000_0001 * uu);
    assert(e * 0x2_0000 <= uu);
    let quad = uu * uu;
    assert(apart(r * s * uu, x * u * uu) == e * uu) by (nonlinear_arith)
        requires
            e == apart(r * s, x * u),
            uu >= 0,
    ;
    assert(r * s * uu == r * suu) by (nonlinear_arith)
        requires
            suu == s * uu,
    ;
    let f = apart(x * u, part);
    assert(apart(x * u * uu, part * uu) == f * uu) by (nonlinear_arith)
        requires
            f == apart(x * u, part),
            uu >= 0,
    ;
    assert(e * uu * 0x2_0000 <= quad && f * uu * 0x1_0000 <= quad && quad >= 0) by (nonlinear_arith)
        requires
            e * 0x2_0000 <= uu,
            f * 0x1_0000 <= uu,
            quad == uu * uu,
            uu >= 0,
    ;
    assert((rs + u) * uuu == rs * uuu + quad) by (nonlinear_arith)
        requires
            uuu == uu * u,
            quad == uu * uu,
            uu == u * u,
    ;
    assert(rs * uuu >= 0) by (nonlinear_arith)
        requires
            rs >= 0,
            uuu == uu * u,
            uu == u * u,
            u > 0,
    ;
}

/// A taken update moves the bias and the gain by their weights times the
/// innovation, up to rounding. The bias is then held within 400 RPM on either
/// side; a gain out of its range has the update refused.
pub proof fn lemma_update_moves_by_the_weights(
    k: Kalman,
    t: Num,
    measured: Num,
    baseline: Num,
    w: Num,
)
    requires
        k.wf(),
        sound(k, w),
        measured.finite() && measured.steps() <= 0x10_0000 * unit(),
        baseline.finite() && baseline.steps() <= 0x10_0000 * unit(),
        t.finite() && k.due(t),
        k.weights(w).a.finite() && k.weights(w).a.steps() <= 0x1_0000 * unit(),
        k.weights(w).b.finite() && k.weights(w).b.steps() <= 0x1_0000 * unit(),
    ensures
        ({
            let r = k.updated(t, measured, baseline, w);
            let c = k.candidate(measured, baseline, w);
            let e = k.innovation(measured, baseline, w).value();
            let (u, uu) = (unit() as int, unit() * unit());
            let (least, most) = (Num(GAIN_MIN).value(), Num(GAIN_MAX).value());
            &&& c.a.finite() && c.b.finite()
            &&& apart(c.a.value() * u, k.theta.a.value() * u + k.weights(w).a.value() * e) * 0x1000
                <= uu
            &&& apart(c.b.value() * u, k.theta.b.value() * u + k.weights(w).b.value() * e) * 0x1000
                <= uu
            &&& least <= c.b.value() <= most ==> {
                &&& r.theta.a.value() == pulled(c.a.value(), -400 * u, 400 * u)
                &&& r.theta.b == c.b
                &&& r.last_update_t == Some(t)
            }
            &&& !(least <= c.b.value() <= most) ==> r == k
        }),
{
    reveal(Kalman::candidate);
    lemma_constants();
    lemma_pow2_pos(1074);
    lemma_innovation_is_what_the_model_misses(k, measured, baseline, w);
    let e = k.innovation(measured, baseline, w);
    let g = k.weights(w);
    let c = k.candidate(measured, baseline, w);
    lemma_moved(k.theta.a, g.a, e);
    lemma_moved(k.theta.b, g.b, e);
    lemma_compare(c.b, Num(GAIN_MIN));
    lemma_compare(Num(GAIN_MAX), c.b);
    let limit = Num(MAX_BIAS_AUTHORITY_RPM);
    assert(limit.opposite().finite() && limit.opposite().value() == -400 * unit());
    lemma_within_value(c.a, limit.opposite(), limit);
}

proof fn lemma_moved(x: Num, g: Num, e: Num)
    requires
        x.finite() && x.steps() <= 400 * unit(),
        g.finite() && g.steps() <= 0x1_0000 * unit(),
        e.finite() && apart(e.value(), 0) <= 0x40_0000 * unit(),
    ensures
        x.plus(g.times(e)).finite(),
        apart(x.plus(g.times(e)).value() * unit(), x.value() * unit() + g.value() * e.value())
            * 0x1000 <= unit() * unit(),
{
    lemma_scales();
    lemma_pow2_pos(1074);
    lemma_steps_zero(x);
    lemma_steps_zero(e);
    assert(0x1_0000 * 0x40_0000 == 0x40_0000_0000int);
    lemma_product(g, e, 0x1_0000, 0x40_0000);
    let p = g.times(e);
    lemma_add(x, p, 400, 0x40_0000_0001);
    let u = unit() as int;
    let uu = u * u;
    let q: int = 0x20_0000_0000_0000;
    let (r, s) = (x.plus(p).value(), x.value() + p.value());
    let d = apart(r, s);
    assert(d * q <= 0x40_0000_0191 * u) by (nonlinear_arith)
        requires
            d * q <= (400 + 0x40_0000_0001) * u,
    ;
    assert(apart(r * u, s * u) == d * u && s * u == x.value() * u + p.value() * u) by (nonlinear_arith)
        requires
            d == apart(r, s),
            s == x.value() + p.value(),
            u > 0,
    ;
    assert(d * u * q <= 0x40_0000_0191 * uu) by (nonlinear_arith)
        requires
            d * q <= 0x40_0000_0191 * u,
            uu == u * u,
            u > 0,
    ;
    assert(u * (0x1_0000 * 0x40_0000 * u + 0x10_0000_0000_0000) <= 0x40_0000_0001 * uu)
        by (nonlinear_arith)
        requires
            uu == u * u,
            u >= 0x10_0000_0000_0000,
    ;
    assert(uu >= 0) by (nonlinear_arith)
        requires
            uu == u * u,
            u > 0,
    ;
}

} // verus!
