//! How a tick moves the candidates, told from its readings.

use crate::device_loop::tuning::ordinary;
use crate::device_loop::{
    bounds_of, error_of, selection, usable_dt, ActuatorState, LoopState, Plant, Selected, ThermalMode,
    TickInput, MAX_PI_ELAPSED_S, PI_PERIOD_S,
};
use crate::num::{lemma_order_is_numeric, unit, Num, ZERO};
use crate::order::lemma_steps_zero;
use crate::precision::{
    apart, grain, lemma_minus_error, lemma_plus_error, lemma_times_error, reach,
};
use crate::relative::{
    about, lemma_about_back, lemma_about_chain, lemma_about_over, lemma_about_times,
    lemma_vast, vast,
};
use crate::spending::{lemma_lesser_value, lemma_scales, lemma_within_value, low, pulled};
use vstd::arithmetic::power2::{lemma2_to64, lemma2_to64_rest, lemma_pow2_adds, lemma_pow2_pos, pow2};
use vstd::prelude::*;

verus! {

proof fn lemma_times_clock()
    ensures
        Num(MAX_PI_ELAPSED_S).finite() && Num(MAX_PI_ELAPSED_S).value() == 7 * unit(),
        Num(PI_PERIOD_S).finite() && Num(PI_PERIOD_S).value() == 5 * unit(),
{
    lemma2_to64();
    lemma2_to64_rest();
    lemma_pow2_adds(50, 1024);
    let p = pow2(1024);
    assert(Num(MAX_PI_ELAPSED_S).significand() == 0x1c_0000_0000_0000);
    assert(Num(MAX_PI_ELAPSED_S).exponent() == 1024);
    assert(0x1c_0000_0000_0000 * p == 7 * (0x4_0000_0000_0000 * p)) by (nonlinear_arith);
    assert(Num(PI_PERIOD_S).significand() == 0x14_0000_0000_0000);
    assert(Num(PI_PERIOD_S).exponent() == 1024);
    assert(0x14_0000_0000_0000 * p == 5 * (0x4_0000_0000_0000 * p)) by (nonlinear_arith);
}

/// What a PI step can be computed on: ordinary gains, finite errors and a
/// candidate within finite bounds, with all terms of the step at most `b`
/// steps large.
#[verifier::opaque]
pub open spec fn computable(s: LoopState, error: Num, b: nat) -> bool {
    let (kc, ti) = (s.gains.kc.value(), s.gains.ti_s.value());
    &&& 64 * b <= reach()
    &&& ordinary(s.gains.kc) && ordinary(s.gains.ti_s)
    &&& error.finite() && s.e_prev.finite()
    &&& s.floor.finite() && s.max.finite() && s.thermal.finite()
    &&& s.floor.value() <= s.thermal.value() <= s.max.value()
    &&& s.floor.steps() <= b && s.max.steps() <= b
    &&& apart(error.value(), s.e_prev.value()) <= reach()
    &&& kc * apart(error.value(), s.e_prev.value()) <= b * unit()
    &&& kc * 7 * error.steps() <= b * ti
    &&& s.elapsed_s.finite() && 5 * unit() <= s.elapsed_s.value()
}

/// The time that a PI step integrates over, at most seven seconds.
pub open spec fn integrated_time(s: LoopState) -> int {
    low(s.elapsed_s.value(), 7 * unit() as int)
}

/// The candidate that a PI step leads to, exactly, before the bounds, in steps
/// times the integral time: the candidate, the gain times the change of the
/// error, and the gain times the time over the integral time times the error.
/// A candidate at a bound is not integrated further against it.
pub open spec fn exact_step(s: LoopState, error: Num) -> int {
    let (kc, ti, u) = (s.gains.kc.value(), s.gains.ti_s.value(), unit() as int);
    let (e, t) = (error.value(), s.thermal.value());
    let pressed = (t <= s.floor.value() && e < 0) || (t >= s.max.value() && e > 0);
    t * ti * u + kc * (e - s.e_prev.value()) * ti + if pressed {
        0
    } else {
        kc * integrated_time(s) * e
    }
}

proof fn lemma_proportional(s: LoopState, error: Num, b: nat)
    requires
        computable(s, error, b),
    ensures
        ({
            let p = s.gains.kc.times(error.minus(s.e_prev));
            &&& p.finite()
            &&& apart(p.value(), 0) <= 3 * b
            &&& apart(
                p.value() * unit(),
                s.gains.kc.value() * (error.value() - s.e_prev.value()),
            ) * 0x20_0000_0000_0000 <= unit() * (3 * b + 0x10_0000_0000_0000)
        }),
{
    reveal(computable);
    lemma_scales();
    lemma_pow2_pos(1074);
    let u = unit() as int;
    let k: int = 0x20_0000_0000_0000;
    let h: int = 0x10_0000_0000_0000;
    let kc = s.gains.kc.value();
    let c = error.value() - s.e_prev.value();
    lemma_minus_error(error, s.e_prev);
    let d = error.minus(s.e_prev);
    let dv = d.value();
    let z = apart(c, 0);
    assert(z == apart(error.value(), s.e_prev.value()));
    assert(kc > 0);
    assert(kc * apart(dv, c) * k <= kc * z) by (nonlinear_arith)
        requires
            apart(dv, c) * k <= z,
            kc > 0,
    ;
    assert(apart(kc * dv, kc * c) == kc * apart(dv, c)) by (nonlinear_arith)
        requires
            kc > 0,
    ;
    let y = apart(dv, 0);
    assert(kc * y <= kc * z + kc * apart(dv, c)) by (nonlinear_arith)
        requires
            y <= z + apart(dv, c),
            kc > 0,
    ;
    assert(d.steps() == y) by {
        lemma_steps_zero(d);
    }
    assert(s.gains.kc.steps() == kc);
    let bu = b * u;
    assert(kc * y <= 2 * bu);
    assert(2 * bu <= reach() * u) by (nonlinear_arith)
        requires
            bu == b * u,
            2 * b <= reach(),
            u > 0,
    ;
    lemma_times_error(s.gains.kc, d);
    let p = s.gains.kc.times(d).value();
    assert(apart(p * u, kc * dv) * k <= 2 * bu + u * h);
    assert(apart(p * u, kc * c) * k <= 3 * bu + u * h);
    assert(u * (3 * b + h) == 3 * bu + u * h) by (nonlinear_arith)
        requires
            bu == b * u,
    ;
    let w = apart(p, 0);
    assert(apart(p * u, 0) == w * u) by (nonlinear_arith)
        requires
            w == apart(p, 0),
            u > 0,
    ;
    assert(apart(kc * c, 0) == kc * z) by (nonlinear_arith)
        requires
            z == apart(c, 0),
            kc > 0,
    ;
    assert(w * u * k <= (b * k + 3 * b + h) * u) by (nonlinear_arith)
        requires
            w * u * k <= bu * k + 3 * bu + u * h,
            bu == b * u,
    ;
    assert(w * k <= b * k + 3 * b + h) by (nonlinear_arith)
        requires
            w * u * k <= (b * k + 3 * b + h) * u,
            u > 0,
    ;
}

/// The integral gain of a step is near the exact one.
proof fn lemma_integral_gain(kc: Num, ti: Num, el: Num)
    requires
        ordinary(kc) && ordinary(ti),
        el.finite(),
        5 * unit() <= el.value() <= 7 * unit(),
    ensures
        ({
            let r = kc.times(el).over(ti);
            &&& r.finite()
            &&& r.value() > 0
            &&& about(r.value() * ti.value(), kc.value() * el.value(), 4)
        }),
{
    lemma_scales();
    lemma_vast();
    lemma_pow2_pos(1074);
    let u = unit() as int;
    let (k, t, e) = (kc.value(), ti.value(), el.value());
    let small: int = 0x100_0000_0000;
    let h: int = 0x10_0000_0000_0000;
    let uu = u * u;
    assert(5 * uu <= (k * e) * small && k * e <= 7 * (small * uu)) by (nonlinear_arith)
        requires
            u <= k * small,
            k <= small * u,
            5 * u <= e <= 7 * u,
            u > 0,
            small > 0,
            uu == u * u,
    ;
    assert(k > 0 && t > 0);
    assert(u * h <= k * e) by (nonlinear_arith)
        requires
            5 * uu <= (k * e) * small,
            small == 0x100_0000_0000,
            h == 0x10_0000_0000_0000,
            uu == u * u,
            u >= 0x1_0000_0000_0000_0000_0000_0000_0000,
    ;
    let v = vast();
    assert(k * e <= reach() * u) by (nonlinear_arith)
        requires
            k * e <= 7 * (small * uu),
            small == 0x100_0000_0000,
            uu == u * u,
            v * u <= reach(),
            v >= 0x1_0000_0000_0000_0000_0000_0000_0000,
            u > 0,
    ;
    lemma_about_times(kc, el);
    let q = kc.times(el);
    let m = q.value();
    lemma_about_back(m * u, k * e, 1);
    assert(m > 0) by (nonlinear_arith)
        requires
            m * u > 0,
            u > 0,
    ;
    let r: int = 0x4_0000_0000_0000;
    assert(2 * small * small * h <= r * r * (r * r)) by (nonlinear_arith)
        requires
            small == 0x100_0000_0000,
            h == 0x10_0000_0000_0000,
            r == 0x4_0000_0000_0000,
    ;
    assert(t * h * (2 * small) <= uu) by (nonlinear_arith)
        requires
            t <= small * u,
            2 * small * small * h <= u,
            u > 0,
            h > 0,
            small > 0,
            uu == u * u,
    ;
    assert(uu <= (m * u) * (2 * small)) by (nonlinear_arith)
        requires
            5 * uu <= (k * e) * small,
            k * e <= 2 * (m * u),
            small > 0,
            uu >= 0,
    ;
    assert(t * h <= m * u) by (nonlinear_arith)
        requires
            t * h * (2 * small) <= (m * u) * (2 * small),
            small > 0,
    ;
    assert(m * u <= 14 * (small * uu));
    assert(m * u <= reach() * t) by (nonlinear_arith)
        requires
            m * u <= 14 * (small * uu),
            u <= t * small,
            uu == u * u,
            small == 0x100_0000_0000,
            v * u <= reach(),
            v >= 0x1_0000_0000_0000_0000_0000_0000_0000,
            u > 0,
            t > 0,
    ;
    lemma_about_over(q, ti);
    let r = q.over(ti).value();
    lemma_about_chain(r * t, m * u, k * e, 1, 1);
    lemma_about_back(r * t, k * e, 3);
    assert(r > 0) by (nonlinear_arith)
        requires
            r * t > 0,
            t > 0,
    ;
    crate::device_loop::tuning::lemma_about_more(r * t, k * e, 3, 4);
}

/// The integral term of a step is near the exact one.
proof fn lemma_integral(s: LoopState, error: Num, b: nat)
    requires
        computable(s, error, b),
    ensures
        ({
            let el = s.elapsed_s.lesser(Num(MAX_PI_ELAPSED_S));
            let i = s.gains.kc.times(el).over(s.gains.ti_s).times(error);
            let ti = s.gains.ti_s.value();
            let tu = ti * unit();
            &&& i.finite()
            &&& apart(i.value(), 0) <= 3 * b
            &&& error.value() > 0 ==> i.value() >= 0
            &&& error.value() < 0 ==> i.value() <= 0
            &&& error.value() == 0 ==> i.value() == 0
            &&& apart(i.value() * tu, s.gains.kc.value() * integrated_time(s) * error.value())
                * 0x20_0000_0000_0000 <= tu * (36 * b + 0x10_0000_0000_0000)
        }),
{
    reveal(computable);
    lemma_times_clock();
    lemma_scales();
    lemma_pow2_pos(1074);
    let u = unit() as int;
    let k: int = 0x20_0000_0000_0000;
    let h: int = 0x10_0000_0000_0000;
    let el = s.elapsed_s.lesser(Num(MAX_PI_ELAPSED_S));
    lemma_lesser_value(s.elapsed_s, Num(MAX_PI_ELAPSED_S));
    let (kc, ti, e, t) = (
        s.gains.kc.value(),
        s.gains.ti_s.value(),
        error.value(),
        el.value(),
    );
    lemma_integral_gain(s.gains.kc, s.gains.ti_s, el);
    let r = s.gains.kc.times(el).over(s.gains.ti_s);
    let rv = r.value();
    let ke = kc * t;
    lemma_about_back(rv * ti, ke, 4);
    let z = apart(e, 0);
    assert(error.steps() == z) by {
        lemma_steps_zero(error);
    }
    assert(ti > 0 && kc > 0);
    // The exact term, in steps times the integral time.
    let bt = b * ti;
    let tu = ti * u;
    assert(tu > 0) by (nonlinear_arith)
        requires
            ti > 0,
            u > 0,
            tu == ti * u,
    ;
    assert(ke * z <= bt * u) by (nonlinear_arith)
        requires
            ke == kc * t,
            t <= 7 * u,
            kc * 7 * z <= bt,
            kc > 0,
            z >= 0,
            u > 0,
    ;
    assert(rv * ti * z <= 2 * (bt * u)) by (nonlinear_arith)
        requires
            rv * ti <= 2 * ke,
            ke * z <= bt * u,
            z >= 0,
    ;
    assert(rv * z <= 2 * (b * u)) by (nonlinear_arith)
        requires
            rv * ti * z <= 2 * (bt * u),
            bt == b * ti,
            ti > 0,
    ;
    let bu = b * u;
    assert(2 * bu <= reach() * u) by (nonlinear_arith)
        requires
            bu == b * u,
            2 * b <= reach(),
            u > 0,
    ;
    assert(r.steps() == rv) by {
        lemma_steps_zero(r);
    }
    lemma_times_error(r, error);
    let i = r.times(error);
    let iv = i.value();
    assert(apart(iv * u, rv * e) * k <= 2 * bu + u * h);
    // Its size.
    let w = apart(iv, 0);
    assert(apart(iv * u, 0) == w * u) by (nonlinear_arith)
        requires
            w == apart(iv, 0),
            u > 0,
    ;
    assert(apart(rv * e, 0) == rv * z) by (nonlinear_arith)
        requires
            z == apart(e, 0),
            rv > 0,
    ;
    assert(w * u * k <= (2 * b * k + 2 * b + h) * u) by (nonlinear_arith)
        requires
            w * u * k <= 2 * bu * k + 2 * bu + u * h,
            bu == b * u,
    ;
    assert(w * k <= 2 * b * k + 2 * b + h) by (nonlinear_arith)
        requires
            w * u * k <= (2 * b * k + 2 * b + h) * u,
            u > 0,
    ;
    // Its sign.
    assert(e > 0 ==> iv >= 0) by {
        reveal(Num::times);
    }
    assert(e < 0 ==> iv <= 0) by {
        reveal(Num::times);
    }
    if e == 0 {
        lemma_steps_zero(error);
        crate::budget::lemma_times_nothing(r, error);
        lemma_steps_zero(i);
    }
    // Against the exact term.
    let d1 = apart(iv * u, rv * e);
    assert(apart(iv * tu, rv * e * ti) == d1 * ti) by (nonlinear_arith)
        requires
            d1 == apart(iv * u, rv * e),
            tu == ti * u,
            ti > 0,
    ;
    assert(d1 * ti * k <= tu * (2 * b + h)) by (nonlinear_arith)
        requires
            d1 * k <= 2 * bu + u * h,
            bu == b * u,
            tu == ti * u,
            ti > 0,
    ;
    let d2 = apart(rv * ti, ke);
    assert(apart(rv * e * ti, ke * e) == d2 * z) by (nonlinear_arith)
        requires
            d2 == apart(rv * ti, ke),
            z == apart(e, 0),
    ;
    assert(d2 * z * k <= 32 * (bt * u)) by (nonlinear_arith)
        requires
            d2 * 0x4_0000_0000_0000 <= 4 * ke,
            k == 8 * 0x4_0000_0000_0000,
            ke * z <= bt * u,
            z >= 0,
    ;
    assert(bt * u == tu * b) by (nonlinear_arith)
        requires
            bt == b * ti,
            tu == ti * u,
    ;
    assert(tu * (2 * b + h) + 32 * (tu * b) <= tu * (36 * b + h)) by (nonlinear_arith)
        requires
            tu > 0,
            b >= 0,
    ;
}

/// What is pulled between the same bounds comes no farther apart.
pub proof fn lemma_pulled_near(x: int, y: int, lo: int, hi: int, e: int)
    requires
        lo <= hi,
        apart(x, y) <= e,
    ensures
        apart(pulled(x, lo, hi), pulled(y, lo, hi)) <= e,
{
}

proof fn lemma_computable_bounds(s: LoopState, error: Num, b: nat)
    requires
        computable(s, error, b),
    ensures
        64 * b <= reach(),
        s.floor.finite() && s.max.finite() && s.thermal.finite(),
        s.floor.value() <= s.thermal.value() <= s.max.value(),
        s.floor.steps() <= b && s.max.steps() <= b,
        s.gains.ti_s.value() > 0,
{
    reveal(computable);
    lemma_pow2_pos(1074);
}

proof fn lemma_three_terms(t: Num, p: Num, j: Num, lo: Num, hi: Num, b: nat)
    requires
        64 * b <= reach(),
        lo.finite() && hi.finite() && t.finite() && p.finite() && j.finite(),
        lo.value() <= t.value() <= hi.value(),
        lo.steps() <= b && hi.steps() <= b,
        apart(p.value(), 0) <= 3 * b,
        apart(j.value(), 0) <= 3 * b,
    ensures
        ({
            let v = t.plus(p).plus(j);
            &&& v.finite()
            &&& apart(v.value(), t.value() + p.value() + j.value()) * 0x20_0000_0000_0000 <= 13 * b
            &&& v.within(lo, hi).finite()
            &&& v.within(lo, hi).value() == pulled(v.value(), lo.value(), hi.value())
        }),
{
    lemma_plus_error(t, p);
    lemma_plus_error(t.plus(p), j);
    lemma_within_value(t.plus(p).plus(j), lo, hi);
}

/// A PI step leads to the candidate that the error, its change and the time
/// since the step before ask for, within the bounds, up to rounding.
pub proof fn lemma_pi_step_is_exact(s: LoopState, error: Num, b: nat)
    requires
        computable(s, error, b),
    ensures
        ({
            let t = s.integrated(error);
            let tu = s.gains.ti_s.value() * unit();
            &&& t.thermal.finite()
            &&& apart(
                t.thermal.value() * tu,
                pulled(exact_step(s, error), s.floor.value() * tu, s.max.value() * tu),
            ) <= 64 * grain(b as int) * tu
            &&& t.e_prev == error
            &&& t.elapsed_s.value() == 0
        }),
{
    crate::values::lemma_zero();
    lemma_pow2_pos(1074);
    let u = unit() as int;
    let (kc, ti, e) = (s.gains.kc.value(), s.gains.ti_s.value(), error.value());
    let el = s.elapsed_s.lesser(Num(MAX_PI_ELAPSED_S));
    let p = s.gains.kc.times(error.minus(s.e_prev));
    let i = s.gains.kc.times(el).over(s.gains.ti_s).times(error);
    lemma_computable_bounds(s, error, b);
    lemma_proportional(s, error, b);
    lemma_integral(s, error, b);
    lemma_order_is_numeric(s.thermal, s.floor);
    lemma_order_is_numeric(s.max, s.thermal);
    lemma_order_is_numeric(i, Num(ZERO));
    lemma_order_is_numeric(Num(ZERO), i);
    let farther = (s.thermal.le(s.floor) && i.lt(Num(ZERO))) || (s.max.le(s.thermal) && Num(
        ZERO,
    ).lt(i));
    let j = if farther {
        Num(ZERO)
    } else {
        i
    };
    let t = s.thermal.value();
    let pressed = (t <= s.floor.value() && e < 0) || (t >= s.max.value() && e > 0);
    assert(pressed ==> j.value() == 0);
    assert(!pressed ==> j == i);
    lemma_three_terms(s.thermal, p, j, s.floor, s.max, b);
    let v = s.thermal.plus(p).plus(j);
    let (pv, jv, vv) = (p.value(), j.value(), v.value());
    lemma_step_parts(
        t,
        pv,
        jv,
        vv,
        kc * (e - s.e_prev.value()),
        if pressed {
            0
        } else {
            kc * integrated_time(s) * e
        },
        ti,
        u,
        b as int,
    );
    lemma_scaled_bounds(
        vv,
        exact_step(s, error),
        s.floor.value(),
        s.max.value(),
        ti * u,
        64 * grain(b as int),
    );
    assert(s.integrated(error).thermal == v.within(s.floor, s.max)) by {
        reveal(LoopState::integrated);
    }
    assert(s.integrated(error).e_prev == error && s.integrated(error).elapsed_s == Num(ZERO)) by {
        reveal(LoopState::integrated);
    }
}

proof fn lemma_scaled_bounds(v: int, x: int, lo: int, hi: int, tu: int, n: int)
    requires
        lo <= hi,
        tu > 0,
        apart(v * tu, x) <= n * tu,
    ensures
        apart(pulled(v, lo, hi) * tu, pulled(x, lo * tu, hi * tu)) <= n * tu,
{
    assert(lo * tu <= hi * tu) by (nonlinear_arith)
        requires
            lo <= hi,
            tu > 0,
    ;
    assert(v < lo ==> v * tu < lo * tu) by (nonlinear_arith)
        requires
            tu > 0,
    ;
    assert(v >= lo ==> v * tu >= lo * tu) by (nonlinear_arith)
        requires
            tu > 0,
    ;
    assert(v > hi ==> v * tu > hi * tu) by (nonlinear_arith)
        requires
            tu > 0,
    ;
    assert(v <= hi ==> v * tu <= hi * tu) by (nonlinear_arith)
        requires
            tu > 0,
    ;
    assert(pulled(v, lo, hi) * tu == pulled(v * tu, lo * tu, hi * tu));
    lemma_pulled_near(v * tu, x, lo * tu, hi * tu, n * tu);
}

proof fn lemma_step_parts(
    t: int,
    pv: int,
    jv: int,
    vv: int,
    c: int,
    j: int,
    ti: int,
    u: int,
    b: int,
)
    requires
        ti > 0,
        u > 0,
        b >= 0,
        apart(vv, t + pv + jv) * 0x20_0000_0000_0000 <= 13 * b,
        apart(pv * u, c) * 0x20_0000_0000_0000 <= u * (3 * b + 0x10_0000_0000_0000),
        jv == 0 && j == 0 || apart(jv * (ti * u), j) * 0x20_0000_0000_0000 <= (ti * u) * (36 * b
            + 0x10_0000_0000_0000),
    ensures
        apart(vv * (ti * u), t * ti * u + c * ti + j) <= 64 * grain(b) * (ti * u),
        ti * u > 0,
{
    let k: int = 0x20_0000_0000_0000;
    let h: int = 0x10_0000_0000_0000;
    let tu = ti * u;
    assert(tu > 0) by (nonlinear_arith)
        requires
            ti > 0,
            u > 0,
            tu == ti * u,
    ;
    let d1 = apart(vv, t + pv + jv);
    assert(apart(vv * tu, (t + pv + jv) * tu) == d1 * tu) by (nonlinear_arith)
        requires
            d1 == apart(vv, t + pv + jv),
            tu > 0,
    ;
    assert((t + pv + jv) * tu == t * ti * u + pv * u * ti + jv * tu) by (nonlinear_arith)
        requires
            tu == ti * u,
    ;
    assert(d1 * tu * k <= tu * (13 * b)) by (nonlinear_arith)
        requires
            d1 * k <= 13 * b,
            tu > 0,
    ;
    let d2 = apart(pv * u, c);
    assert(apart(pv * u * ti, c * ti) == d2 * ti) by (nonlinear_arith)
        requires
            d2 == apart(pv * u, c),
            ti > 0,
    ;
    assert(d2 * ti * k <= tu * (3 * b + h)) by (nonlinear_arith)
        requires
            d2 * k <= u * (3 * b + h),
            tu == ti * u,
            ti > 0,
    ;
    let d3 = apart(jv * tu, j);
    assert(jv == 0 ==> jv * tu == 0) by (nonlinear_arith);
    assert(tu * (36 * b + h) >= 0) by (nonlinear_arith)
        requires
            tu > 0,
            b >= 0,
            h > 0,
    ;
    let x = t * ti * u + c * ti + j;
    let d = apart(vv * tu, x);
    assert(d <= d1 * tu + d2 * ti + d3);
    assert(tu * (13 * b) + tu * (3 * b + h) + tu * (36 * b + h) == tu * (52 * b + k))
        by (nonlinear_arith)
        requires
            k == 2 * h,
    ;
    assert(d * k <= tu * (52 * b + k));
    let n = grain(b);
    assert(b + k <= n * k);
    assert(d <= 64 * n * tu) by (nonlinear_arith)
        requires
            d * k <= tu * (52 * b + k),
            b + k <= n * k,
            b >= 0,
            tu > 0,
            k > 0,
    ;
}

/// A tick in the middle of an engagement that regulates: nothing is resumed,
/// missing, mismatched or due to start over, and the bounds are as they were.
pub open spec fn regulating(s: LoopState, i: TickInput) -> bool {
    &&& i.mode == ThermalMode::Regulate && s.last_mode == Some(ThermalMode::Regulate)
    &&& !i.resumed
    &&& i.group_c is Some && s.group_entered && !s.group_missing && !s.group_reset_pending
    &&& i.actuator == ActuatorState::Verified && !s.mismatch_latched
    &&& s.bounds_initialised && s.floor == i.floor && s.max == i.max
    &&& i.floor.finite() && i.max.finite() && i.floor.value() <= i.max.value()
    &&& s.thermal.finite() && i.floor.value() <= s.thermal.value() <= i.max.value()
    &&& !s.hot_entry_trim_pending && !s.control_entry_pending
    &&& error_of(i).finite()
    &&& error_of(i).value() >= 0 || !s.hot_episode_armed || s.previous_selected != Some(
        Selected::Shadow,
    )
}

/// What a regulating tick computes.
pub proof fn lemma_regulating_tick(s: LoopState, p: Plant, recent: Seq<(Num, Num)>, i: TickInput)
    requires
        regulating(s, i),
        i.dt_s.finite() && 0 <= i.dt_s.value() <= 2 * unit(),
        i.delta_tstar.finite(),
    ensures
        ({
            let (t, d) = s.ticked(p, recent, i);
            let m = LoopState {
                e_prev: s.e_prev.plus(i.delta_tstar),
                elapsed_s: s.elapsed_s.plus(i.dt_s),
                ..s
            };
            &&& d.thermal == t.thermal
            &&& Num(PI_PERIOD_S).le(m.elapsed_s) ==> t.thermal == m.integrated(
                error_of(i),
            ).thermal && t.e_prev == error_of(i) && t.elapsed_s == Num(ZERO)
            &&& !Num(PI_PERIOD_S).le(m.elapsed_s) ==> t.thermal == s.thermal && t.e_prev
                == m.e_prev && t.elapsed_s == m.elapsed_s
            &&& settled_request(s) ==> {
                &&& t.shadow == s.shadowed(p, i).shadow
                &&& d.shadow == t.shadow
                &&& d.cap == s.slewed(
                    p,
                    selection(t.thermal, t.shadow, s.floor, s.max).0,
                    selection(t.thermal, t.shadow, s.floor, s.max).1,
                    i.dt_s,
                    false,
                )
                &&& t.requested == Some(d.cap)
            }
        }),
{
    crate::values::lemma_zero();
    let error = error_of(i);
    lemma_order_is_numeric(error, Num(ZERO));
    lemma_order_is_numeric(i.floor, i.max);
    lemma_order_is_numeric(i.max, i.floor);
    lemma_order_is_numeric(i.max, i.max);
    lemma_order_is_numeric(s.thermal, i.floor);
    lemma_order_is_numeric(i.max, s.thermal);
    assert(bounds_of(i.floor, i.max) == (i.floor, i.max)) by {
        reveal(Num::lesser);
    }
    assert(usable_dt(i.dt_s) == i.dt_s) by {
        reveal(Num::lesser);
        lemma_order_is_numeric(Num(ZERO), i.dt_s);
        crate::device_loop::tuning::lemma_small_numbers();
        lemma_order_is_numeric(Num(crate::num::TWO), i.dt_s);
    }
    let c = s.clocked(i);
    let b = c.bounded(i);
    assert(c.held(s.thermal) == s.thermal) by {
        reveal(Num::within);
    }
    if settled_request(s) {
        lemma_order_is_numeric(s.shadow, i.floor);
        lemma_order_is_numeric(i.max, s.shadow);
        lemma_order_is_numeric(s.requested->0, i.floor);
        lemma_order_is_numeric(i.max, s.requested->0);
        assert(c.held(s.shadow) == s.shadow && c.held(s.requested->0) == s.requested->0) by {
            reveal(Num::within);
        }
        assert(b.shadow == s.shadow && b.requested == s.requested) by {
            reveal(LoopState::bounded);
            reveal(LoopState::clamped);
        }
        assert(!c.floor_changes(i) && !c.max_lowers_request(i)) by {
            reveal(LoopState::floor_changes);
            reveal(LoopState::max_lowers_request);
            lemma_order_is_numeric(i.floor, i.floor);
        }
    }
    assert(b == LoopState {
        shadow: b.shadow,
        requested: b.requested,
        pending_immediate: b.pending_immediate,
        ..c
    }) by {
        reveal(LoopState::bounded);
        reveal(LoopState::clamped);
        reveal(Num::within);
    }
    let n = b.noted(i);
    assert(n == LoopState { hot_entry_trim_pending: false, mismatch_latched: false, ..b }) by {
        reveal(LoopState::noted);
    }
    let ended = c.mismatch_ends(i);
    assert(!ended) by {
        reveal(LoopState::mismatch_ends);
    }
    let g = n.regained(p, i, ended);
    assert(g == LoopState { group_seen: true, ..n }) by {
        reveal(LoopState::regained);
    }
    let history = s.history_after(recent, i);
    let at_once = c.floor_changes(i) || c.max_lowers_request(i);
    lemma_ordinary_thermal(g, p, history, i, at_once);
    reveal(LoopState::integrated);
    reveal(LoopState::advanced);
    if settled_request(s) {
        assert(g.shadowed(p, i).shadow == s.shadowed(p, i).shadow) by {
            lemma_shadow_reads(g, s, p, i);
        }
        let t = s.ticked(p, recent, i).0;
        let (target, selected) = selection(t.thermal, t.shadow, s.floor, s.max);
        assert(g.slewed(p, target, selected, i.dt_s, false) == s.slewed(
            p,
            target,
            selected,
            i.dt_s,
            false,
        )) by {
            reveal(LoopState::slewed);
        }
    }
}

/// What the shadow candidate is computed from.
pub proof fn lemma_shadow_reads(a: LoopState, b: LoopState, p: Plant, i: TickInput)
    requires
        a.shadow == b.shadow,
        a.floor == b.floor,
        a.max == b.max,
        a.draw_missing == b.draw_missing,
        a.draw_missing_s == b.draw_missing_s,
        a.last_applied == b.last_applied,
        a.requested == b.requested,
    ensures
        a.shadowed(p, i).shadow == b.shadowed(p, i).shadow,
{
    reveal(LoopState::shadowed);
    reveal(LoopState::shadow_toward);
    reveal(LoopState::shadow_goal);
}

/// The shadow candidate and the cap last decided lie within the bounds.
pub open spec fn settled_request(s: LoopState) -> bool {
    &&& s.shadow.finite() && s.floor.value() <= s.shadow.value() <= s.max.value()
    &&& s.requested is Some && s.requested->0.finite() && s.floor.value()
        <= s.requested->0.value() <= s.max.value()
}

proof fn lemma_ordinary_thermal(
    g: LoopState,
    p: Plant,
    history: Seq<(Num, Num)>,
    i: TickInput,
    at_once: bool,
)
    requires
        i.mode == ThermalMode::Regulate && g.last_mode == Some(ThermalMode::Regulate),
        !g.hot_entry_trim_pending && !g.control_entry_pending,
        !error_of(i).lt(Num(ZERO)) || !g.hot_episode_armed || g.previous_selected != Some(
            Selected::Shadow,
        ),
        usable_dt(i.dt_s) == i.dt_s,
        i.delta_tstar.finite(),
    ensures
        ({
            let (t, d) = g.control_tick(p, history, i, false, at_once);
            let m = LoopState {
                e_prev: g.e_prev.plus(i.delta_tstar),
                elapsed_s: g.elapsed_s.plus(i.dt_s),
                ..g
            };
            &&& d.thermal == t.thermal
            &&& Num(PI_PERIOD_S).le(m.elapsed_s) ==> t.thermal == m.integrated(
                error_of(i),
            ).thermal && t.e_prev == error_of(i) && t.elapsed_s == Num(ZERO)
            &&& !Num(PI_PERIOD_S).le(m.elapsed_s) ==> t.thermal == g.thermal && t.e_prev
                == m.e_prev && t.elapsed_s == m.elapsed_s
            &&& t.shadow == g.shadowed(p, i).shadow
            &&& d.shadow == t.shadow
            &&& d.cap == g.slewed(
                p,
                selection(t.thermal, t.shadow, g.floor, g.max).0,
                selection(t.thermal, t.shadow, g.floor, g.max).1,
                i.dt_s,
                at_once,
            )
            &&& t.requested == Some(d.cap)
        }),
{
    reveal(LoopState::control_tick);
    let s = g.trim_settled(false);
    assert(s == g) by {
        reveal(LoopState::trim_settled);
    }
    assert(!g.trim_due(history, false));
    assert(!g.hands_over(i, false)) by {
        reveal(LoopState::hands_over);
    }
    assert(!g.enters_hot(i)) by {
        reveal(LoopState::enters_hot);
    }
    let r = g.rearmed(i);
    assert(r == LoopState {
        hot_episode_armed: r.hot_episode_armed,
        hot_rearm_s: r.hot_rearm_s,
        ..g
    }) by {
        reveal(LoopState::rearmed);
    }
    let h = r.shadowed(p, i);
    assert(h == LoopState {
        draw_missing: h.draw_missing,
        draw_missing_s: h.draw_missing_s,
        shadow: h.shadow,
        ..r
    }) by {
        reveal(LoopState::shadowed);
    }
    lemma_shadow_reads(r, g, p, i);
    let m = h.regulated(i, false);
    let (target, selected) = selection(m.thermal, m.shadow, m.floor, m.max);
    assert(m.slewed(p, target, selected, i.dt_s, at_once) == g.slewed(
        p,
        target,
        selected,
        i.dt_s,
        at_once,
    )) by {
        reveal(LoopState::slewed);
        reveal(LoopState::regulated);
        reveal(LoopState::integrated);
    }
    reveal(LoopState::ordinary_tick);
    reveal(LoopState::regulated);
    reveal(LoopState::integrated);
    reveal(LoopState::decided);
    reveal(LoopState::controlled);
    reveal(LoopState::requesting);
}

/// A regulating tick moves the thermal candidate by a PI step once five
/// seconds have passed since the step before, and leaves it alone until then.
/// The step goes to where the error, its change, less that of the target, and
/// the time ask for, up to rounding: with a steady error that is too hot it
/// falls, with one that is too cold it rises, for every error.
pub proof fn lemma_regulation_follows_the_error(
    s: LoopState,
    p: Plant,
    recent: Seq<(Num, Num)>,
    i: TickInput,
    b: nat,
)
    requires
        regulating(s, i),
        i.dt_s.finite() && 0 <= i.dt_s.value() <= 2 * unit(),
        i.delta_tstar.finite(),
        s.elapsed_s.finite() && 0 <= s.elapsed_s.value() <= 8 * unit(),
        ({
            let m = LoopState {
                e_prev: s.e_prev.plus(i.delta_tstar),
                elapsed_s: s.elapsed_s.plus(i.dt_s),
                ..s
            };
            m.elapsed_s.value() >= 5 * unit() ==> computable(m, error_of(i), b)
        }),
    ensures
        ({
            let (t, d) = s.ticked(p, recent, i);
            let m = LoopState {
                e_prev: s.e_prev.plus(i.delta_tstar),
                elapsed_s: s.elapsed_s.plus(i.dt_s),
                ..s
            };
            let tu = s.gains.ti_s.value() * unit();
            &&& d.thermal == t.thermal
            &&& s.elapsed_s.value() + i.dt_s.value() >= 5 * unit() ==> {
                &&& t.thermal.finite()
                &&& apart(
                    t.thermal.value() * tu,
                    pulled(exact_step(m, error_of(i)), i.floor.value() * tu, i.max.value() * tu),
                ) <= 64 * grain(b as int) * tu
                &&& t.e_prev == error_of(i)
                &&& t.elapsed_s == Num(ZERO)
            }
            &&& m.elapsed_s.value() < 5 * unit() ==> {
                &&& t.thermal == s.thermal
                &&& t.e_prev == m.e_prev
                &&& t.elapsed_s == m.elapsed_s
            }
        }),
{
    lemma_times_clock();
    lemma_scales();
    let m = LoopState {
        e_prev: s.e_prev.plus(i.delta_tstar),
        elapsed_s: s.elapsed_s.plus(i.dt_s),
        ..s
    };
    lemma_plus_error(s.elapsed_s, i.dt_s);
    lemma_regulating_tick(s, p, recent, i);
    lemma_order_is_numeric(Num(PI_PERIOD_S), m.elapsed_s);
    crate::values::lemma_sum_side(s.elapsed_s, i.dt_s, Num(PI_PERIOD_S));
    if m.elapsed_s.value() >= 5 * unit() {
        lemma_pi_step_is_exact(m, error_of(i), b);
    }
}

/// A steady error that is too hot lowers the thermal candidate at a PI step,
/// and one that is too cold raises it, unless it is at the bound already or the
/// step is lost in rounding.
pub proof fn lemma_steady_error_moves_the_candidate(s: LoopState, error: Num, b: nat)
    requires
        computable(s, error, b),
        error.value() == s.e_prev.value(),
        64 * grain(b as int) * (s.gains.ti_s.value() * unit()) < s.gains.kc.value()
            * integrated_time(s) * apart(error.value(), 0),
    ensures
        ({
            let after = s.integrated(error).thermal.value();
            let room = 64 * grain(b as int);
            &&& error.value() < 0 && s.floor.value() + room < s.thermal.value() ==> after
                < s.thermal.value()
            &&& error.value() > 0 && s.thermal.value() + room < s.max.value() ==> after
                > s.thermal.value()
        }),
{
    lemma_pi_step_is_exact(s, error, b);
    lemma_computable_bounds(s, error, b);
    lemma_pow2_pos(1074);
    let (kc, ti, u, e) = (
        s.gains.kc.value(),
        s.gains.ti_s.value(),
        unit() as int,
        error.value(),
    );
    let tu = ti * u;
    assert(tu > 0) by (nonlinear_arith)
        requires
            ti > 0,
            u > 0,
            tu == ti * u,
    ;
    let (t, lo, hi, a) = (
        s.thermal.value(),
        s.floor.value(),
        s.max.value(),
        s.integrated(error).thermal.value(),
    );
    let n = 64 * grain(b as int);
    let c = s.e_prev.value();
    let x = exact_step(s, error);
    let k = kc * integrated_time(s);
    assert(kc * (e - c) * ti == 0) by (nonlinear_arith)
        requires
            e == c,
    ;
    assert(t * ti * u == t * tu) by (nonlinear_arith)
        requires
            tu == ti * u,
    ;
    if e < 0 && lo + n < t {
        assert(k * apart(e, 0) == -(k * e)) by (nonlinear_arith)
            requires
                e < 0,
                apart(e, 0) == -e,
        ;
        assert(lo * tu + n * tu < t * tu) by (nonlinear_arith)
            requires
                lo + n < t,
                tu > 0,
        ;
        assert(a < t) by (nonlinear_arith)
            requires
                a * tu < t * tu,
                tu > 0,
        ;
    }
    if e > 0 && t + n < hi {
        assert(t * tu + n * tu < hi * tu) by (nonlinear_arith)
            requires
                t + n < hi,
                tu > 0,
        ;
        assert(a > t) by (nonlinear_arith)
            requires
                a * tu > t * tu,
                tu > 0,
        ;
    }
}

/// A rate times a time, in steps times one, near the exact product.
pub proof fn lemma_way(rate: Num, dt: Num, b: nat)
    requires
        rate.finite() && rate.value() >= 0,
        dt.finite() && 0 <= dt.value() <= 2 * unit(),
        rate.steps() <= b,
        64 * b <= reach(),
    ensures
        rate.times(dt).finite(),
        0 <= rate.times(dt).value() <= 3 * b,
        apart(rate.times(dt).value() * unit(), rate.value() * dt.value()) * 0x20_0000_0000_0000
            <= unit() * (2 * b + 0x10_0000_0000_0000),
{
    lemma_pow2_pos(1074);
    let u = unit() as int;
    let k: int = 0x20_0000_0000_0000;
    let h: int = 0x10_0000_0000_0000;
    lemma_steps_zero(rate);
    lemma_steps_zero(dt);
    let (r, d) = (rate.value(), dt.value());
    let bu = b * u;
    assert(0 <= r * d <= 2 * bu) by (nonlinear_arith)
        requires
            0 <= r <= b,
            0 <= d <= 2 * u,
            bu == b * u,
            b >= 0,
            u > 0,
    ;
    assert(2 * bu <= reach() * u) by (nonlinear_arith)
        requires
            bu == b * u,
            2 * b <= reach(),
            u > 0,
    ;
    lemma_times_error(rate, dt);
    let w = rate.times(dt).value();
    assert(u * (2 * b + h) == 2 * bu + u * h) by (nonlinear_arith)
        requires
            bu == b * u,
    ;
    assert(w * u * k <= (2 * b * k + 2 * b + h) * u) by (nonlinear_arith)
        requires
            w * u * k <= 2 * bu * k + 2 * bu + u * h,
            bu == b * u,
    ;
    assert(w * k <= 2 * b * k + 2 * b + h) by (nonlinear_arith)
        requires
            w * u * k <= (2 * b * k + 2 * b + h) * u,
            u > 0,
    ;
    assert(w >= 0) by {
        reveal(Num::times);
        if rate.negative() || dt.negative() {
            assert(rate.steps() * dt.steps() == 0) by (nonlinear_arith)
                requires
                    rate.steps() == 0 || dt.steps() == 0,
            ;
            crate::order::lemma_round_nothing();
            lemma_steps_zero(rate.times(dt));
        }
    }
}

/// What the terms of a PI step over five seconds can be computed on: ordinary
/// gains and finite errors, with both terms at most `b` steps large.
pub open spec fn weighable(kc: Num, ti: Num, error: Num, before: Num, b: nat) -> bool {
    &&& 64 * b <= reach()
    &&& ordinary(kc) && ordinary(ti)
    &&& error.finite() && before.finite()
    &&& apart(error.value(), before.value()) <= reach()
    &&& kc.value() * apart(error.value(), before.value()) <= b * unit()
    &&& kc.value() * 7 * error.steps() <= b * ti.value()
}

/// The terms of a PI step over five seconds: the gain times the change of the
/// error, and the gain times the time over the integral time times the error.
pub proof fn lemma_pi_terms(kc: Num, ti: Num, error: Num, before: Num, b: nat)
    requires
        weighable(kc, ti, error, before, b),
    ensures
        ({
            let (u, k) = (unit() as int, 0x20_0000_0000_0000int);
            let tu = ti.value() * u;
            let p = kc.times(error.minus(before));
            let i = kc.times(Num(PI_PERIOD_S)).over(ti).times(error);
            &&& p.finite() && i.finite()
            &&& apart(p.value(), 0) <= 3 * b
            &&& apart(i.value(), 0) <= 3 * b
            &&& apart(p.value() * u, kc.value() * (error.value() - before.value())) * k <= u * (3 * b
                + 0x10_0000_0000_0000)
            &&& apart(i.value() * tu, kc.value() * (5 * u) * error.value()) * k <= tu * (36 * b
                + 0x10_0000_0000_0000)
        }),
{
    crate::values::lemma_zero();
    lemma_times_clock();
    lemma_pow2_pos(1074);
    lemma_steps_zero(Num(ZERO));
    let any: LoopState = arbitrary();
    let s = LoopState {
        gains: crate::device_loop::Gains { kc, ti_s: ti },
        e_prev: before,
        floor: Num(ZERO),
        max: Num(ZERO),
        thermal: Num(ZERO),
        elapsed_s: Num(PI_PERIOD_S),
        ..any
    };
    assert(computable(s, error, b)) by {
        reveal(computable);
    }
    lemma_proportional(s, error, b);
    lemma_integral(s, error, b);
    let el = s.elapsed_s.lesser(Num(MAX_PI_ELAPSED_S));
    assert(el == Num(PI_PERIOD_S)) by {
        reveal(Num::lesser);
        lemma_order_is_numeric(Num(MAX_PI_ELAPSED_S), Num(PI_PERIOD_S));
    }
}

} // verus!
