//! What a tick of the budget integrator comes to, told from its errors.

use crate::budget::{
    pinned, slope_scale, Budget, ErrorKind, Freeze, LoopError, PI_PERIOD_S, RPM_GAIN_SCALE_FLOOR,
};
use crate::device_loop::motion::{lemma_pi_terms, weighable};
use crate::device_loop::tuning::ordinary;
use crate::num::{lemma_order_is_numeric, unit, Num, ONE, ZERO};
use crate::order::{lemma_one, lemma_steps_zero};
use crate::precision::{apart, grain, lemma_minus_error, lemma_plus_error, reach};
use crate::relative::{about, lemma_about_times, lemma_vast};
use crate::spending::{lemma_lesser_value, lemma_within_value, low, pulled};
use vstd::arithmetic::power2::{lemma2_to64, lemma2_to64_rest, lemma_pow2_adds, lemma_pow2_pos, pow2};
use vstd::prelude::*;

verus! {

/// Each error has its gain and integral time: a temperature's as they are set,
/// a fan speed's gain scaled by the schedule.
pub proof fn lemma_each_error_has_its_gains(b: Budget)
    ensures
        b.leg(ErrorKind::Temp).0 == b.gains.kc_w_per_c,
        b.leg(ErrorKind::Temp).1 == b.gains.ti_s,
        b.leg(ErrorKind::Rpm).1 == b.gains.ti_rpm_s,
        ordinary(b.gains.kc_w_per_rpm) && ordinary(b.rpm_gain_scale) ==> about(
            b.leg(ErrorKind::Rpm).0.value() * unit(),
            b.gains.kc_w_per_rpm.value() * b.rpm_gain_scale.value(),
            1,
        ),
{
    if ordinary(b.gains.kc_w_per_rpm) && ordinary(b.rpm_gain_scale) {
        lemma_ordinary_product(b.gains.kc_w_per_rpm, b.rpm_gain_scale);
        lemma_about_times(b.gains.kc_w_per_rpm, b.rpm_gain_scale);
    }
}

proof fn lemma_ordinary_product(a: Num, c: Num)
    requires
        ordinary(a) && ordinary(c),
    ensures
        a.value() > 0 && c.value() > 0,
        unit() * 0x10_0000_0000_0000 <= a.value() * c.value(),
        a.value() * c.value() <= reach() * unit(),
{
    lemma_vast();
    lemma_pow2_pos(1074);
    let (x, y, u, v) = (a.value(), c.value(), unit() as int, crate::relative::vast());
    let n: int = 0x100_0000_0000;
    assert(x > 0 && y > 0);
    assert(u * u <= x * y * (n * n)) by (nonlinear_arith)
        requires
            0 < u <= x * n,
            u <= y * n,
    ;
    assert(u * 0x10_0000_0000_0000 <= x * y) by (nonlinear_arith)
        requires
            u * u <= x * y * (n * n),
            n == 0x100_0000_0000,
            u >= v,
            v == 0x4_0000_0000_0000 * 0x4_0000_0000_0000 * (0x4_0000_0000_0000 * 0x4_0000_0000_0000),
            u > 0,
    ;
    assert(x * y <= n * n * (u * u)) by (nonlinear_arith)
        requires
            0 < x <= n * u,
            0 < y <= n * u,
            n > 0,
            u > 0,
    ;
    assert(n * n * (u * u) <= reach() * u) by (nonlinear_arith)
        requires
            n == 0x100_0000_0000,
            reach() >= v * u,
            v >= 0x1_0000_0000_0000_0000_0000_0000_0000,
            u > 0,
    ;
}

/// The error that the proportional term starts from: this one, where the kind
/// of error changes or a freeze ends, else the one before.
pub open spec fn starts_from(b: Budget, err: LoopError, freeze: Option<Freeze>) -> Num {
    if (b.last_kind is Some && b.last_kind != Some(err.about())) || (b.last_freeze is Some && freeze
        is None) {
        err.amount()
    } else {
        b.e_prev
    }
}

/// What the error asks for, exactly, in steps times the integral time: the gain
/// times the change of the error, and the gain times five seconds over the
/// integral time times the error. Nothing, where more is asked for than the
/// devices can use.
#[verifier::opaque]
pub open spec fn asked(b: Budget, err: LoopError, freeze: Option<Freeze>) -> int {
    let (kc, ti) = (b.leg(err.about()).0.value(), b.leg(err.about()).1.value());
    let e = err.amount().value();
    let du = kc * (e - starts_from(b, err, freeze).value()) * ti + kc * (5 * unit()) * e;
    if freeze == Some(Freeze::DemandLimited) {
        low(du, 0)
    } else {
        du
    }
}

/// What a tick of the integrator can be computed on: terms at most `m` steps
/// large.
#[verifier::opaque]
pub open spec fn integrable(b: Budget, err: LoopError, freeze: Option<Freeze>, m: nat) -> bool {
    let (kc, ti) = b.leg(err.about());
    &&& 256 * m <= reach()
    &&& weighable(kc, ti, err.amount(), starts_from(b, err, freeze), m)
    &&& b.lo.finite() && b.hi.finite() && b.u.finite() && b.v.finite()
    &&& b.lo.value() <= b.u.value() <= b.hi.value()
    &&& b.lo.steps() <= m && b.hi.steps() <= m && b.v.steps() <= m
    &&& 14 * unit() * apart(b.u.value(), b.v.value()) <= m * ti.value()
}

proof fn lemma_stretched(x: int, y: int, c: int)
    requires
        c >= 0,
    ensures
        apart(x * c, y * c) == apart(x, y) * c,
{
    assert(apart(x * c, y * c) == apart(x, y) * c) by (nonlinear_arith)
        requires
            c >= 0,
    ;
}

/// The increment of an error.
proof fn lemma_increment_value(b: Budget, err: LoopError, freeze: Option<Freeze>, m: nat)
    requires
        integrable(b, err, freeze, m),
    ensures
        ({
            let n = b.noted(err, freeze);
            let g = n.gated(err, freeze);
            let tu = b.leg(err.about()).1.value() * unit();
            &&& g.finite()
            &&& apart(g.value(), 0) <= 7 * m
            &&& tu > 0
            &&& apart(g.value() * tu, asked(b, err, freeze)) * 0x20_0000_0000_0000 <= tu * (45 * m
                + 0x20_0000_0000_0000)
        }),
{
    reveal(integrable);
    reveal(asked);
    let n = b.noted(err, freeze);
    let (kc, ti) = b.leg(err.about());
    assert(n.leg(err.about()) == (kc, ti));
    assert(n.e_prev == starts_from(b, err, freeze));
    let (u, k, h) = (unit() as int, 0x20_0000_0000_0000int, 0x10_0000_0000_0000int);
    lemma_pow2_pos(1074);
    let e = err.amount();
    assert(crate::budget::PI_PERIOD_S == crate::device_loop::PI_PERIOD_S);
    lemma_pi_terms(kc, ti, e, n.e_prev, m);
    let p = kc.times(e.minus(n.e_prev));
    let i = kc.times(Num(PI_PERIOD_S)).over(ti).times(e);
    lemma_plus_error(p, i);
    let du = p.plus(i);
    let (pv, iv, dv, tv) = (p.value(), i.value(), du.value(), ti.value());
    let tu = tv * u;
    assert(tv > 0);
    assert(tu > 0) by (nonlinear_arith)
        requires
            tu == tv * u,
            tv > 0,
            u > 0,
    ;
    let (x, y) = (kc.value() * (e.value() - n.e_prev.value()), kc.value() * (5 * u) * e.value());
    lemma_stretched(pv * u, x, tv);
    assert(pv * u * tv == pv * tu) by (nonlinear_arith)
        requires
            tu == tv * u,
    ;
    assert(apart(pv * tu, x * tv) * k <= tu * (3 * m + h)) by (nonlinear_arith)
        requires
            apart(pv * tu, x * tv) == apart(pv * u, x) * tv,
            apart(pv * u, x) * k <= u * (3 * m + h),
            tv > 0,
            tu == tv * u,
    ;
    lemma_stretched(dv, pv + iv, tu);
    assert((pv + iv) * tu == pv * tu + iv * tu) by (nonlinear_arith);
    assert(apart(dv * tu, (pv + iv) * tu) * k <= tu * (6 * m)) by (nonlinear_arith)
        requires
            apart(dv * tu, (pv + iv) * tu) == apart(dv, pv + iv) * tu,
            apart(dv, pv + iv) * k <= 6 * m,
            tu > 0,
    ;
    assert(tu * (3 * m + h) + tu * (36 * m + h) + tu * (6 * m) == tu * (45 * m + k)) by (nonlinear_arith)
        requires
            k == 2 * h,
    ;
    let exact = x * tv + y;
    assert(apart(dv * tu, exact) * k <= tu * (45 * m + k));
    crate::values::lemma_zero();
    lemma_order_is_numeric(Num(ZERO), du);
    if freeze == Some(Freeze::DemandLimited) {
        assert(dv * tu > 0 <==> dv > 0) by (nonlinear_arith)
            requires
                tu > 0,
        ;
        assert(0 * tu == 0);
        lemma_lower_of_nothing(dv * tu, exact);
    }
}

proof fn lemma_lower_of_nothing(x: int, y: int)
    ensures
        apart(low(x, 0), low(y, 0)) <= apart(x, y),
{
}

/// The pull of the accumulator toward the budget.
proof fn lemma_back_value(b: Budget, err: LoopError, freeze: Option<Freeze>, m: nat)
    requires
        integrable(b, err, freeze, m),
    ensures
        ({
            let ti = b.leg(err.about()).1;
            let back = Num(PI_PERIOD_S).over(ti).times(b.u.minus(b.v));
            let u = unit() as int;
            let tu = ti.value() * u;
            &&& back.finite()
            &&& apart(back.value(), 0) <= 3 * m
            &&& apart(back.value() * tu, 5 * (u * u) * (b.u.value() - b.v.value()))
                * 0x20_0000_0000_0000 <= tu * (37 * m + 0x10_0000_0000_0000)
        }),
{
    reveal(integrable);
    let ti = b.leg(err.about()).1;
    let (u, k, h) = (unit() as int, 0x20_0000_0000_0000int, 0x10_0000_0000_0000int);
    lemma_pow2_pos(1074);
    lemma_one();
    crate::spending::lemma_scales();
    let diff = b.u.minus(b.v);
    lemma_steps_zero(b.v);
    lemma_steps_zero(b.u);
    lemma_steps_zero(b.lo);
    lemma_steps_zero(b.hi);
    lemma_minus_error(b.u, b.v);
    lemma_steps_zero(diff);
    let z = apart(b.u.value(), b.v.value());
    let dv = diff.value();
    assert(diff.steps() <= 2 * z);
    let tv = ti.value();
    let mt = m * tv;
    assert(u * 7 * diff.steps() <= mt) by (nonlinear_arith)
        requires
            14 * u * z <= mt,
            diff.steps() <= 2 * z,
            u > 0,
    ;
    assert(ordinary(Num(ONE)));
    assert(u * apart(dv, dv) == 0);
    assert(m * u >= 0) by (nonlinear_arith)
        requires
            m >= 0,
            u > 0,
    ;
    assert(crate::budget::PI_PERIOD_S == crate::device_loop::PI_PERIOD_S);
    lemma_pi_terms(Num(ONE), ti, diff, diff, m);
    lemma_once(Num(PI_PERIOD_S));
    let back = Num(PI_PERIOD_S).over(ti).times(diff);
    let tu = tv * u;
    let exact = b.u.value() - b.v.value();
    let uu = 5 * (u * u);
    assert(u * (5 * u) * dv == dv * uu) by (nonlinear_arith)
        requires
            uu == 5 * (u * u),
    ;
    assert(uu * exact == exact * uu) by (nonlinear_arith);
    assert(uu >= 0) by (nonlinear_arith)
        requires
            uu == 5 * (u * u),
            u > 0,
    ;
    lemma_stretched(dv, exact, uu);
    assert(apart(dv, exact) * uu * k <= z * uu) by (nonlinear_arith)
        requires
            apart(dv, exact) * k <= z,
            uu >= 0,
    ;
    assert(z * uu <= mt * u) by (nonlinear_arith)
        requires
            uu == 5 * (u * u),
            14 * u * z <= mt,
            u > 0,
            z >= 0,
    ;
    assert(mt * u == tu * m) by (nonlinear_arith)
        requires
            mt == m * tv,
            tu == tv * u,
    ;
    assert(tu * (36 * m + h) + tu * m == tu * (37 * m + h)) by (nonlinear_arith);
}

/// One times a number is the number.
proof fn lemma_once(x: Num)
    requires
        x.finite() && !x.negative(),
    ensures
        Num(ONE).times(x) == x,
{
    reveal(Num::times);
    lemma_one();
    lemma_pow2_pos(1074);
    crate::order::lemma_round_cancel(x.steps(), unit());
    crate::order::lemma_round_exact(x);
    assert(unit() * x.steps() == x.steps() * unit()) by (nonlinear_arith);
}

/// A tick that may act moves the accumulator by what the error asks for, and
/// toward the budget by five seconds over the integral time of their distance,
/// up to rounding. The budget is the accumulator within the bounds, and the
/// dwell counts the seconds for which it has been held at one.
pub proof fn lemma_tick_follows_the_error(b: Budget, err: LoopError, freeze: Option<Freeze>, m: nat)
    requires
        integrable(b, err, freeze, m),
        b.dwell_room(),
        freeze is None || freeze == Some(Freeze::DemandLimited),
    ensures
        ({
            let r = b.stepped(err, freeze);
            let u = unit() as int;
            let tu = b.leg(err.about()).1.value() * u;
            &&& r.v.finite() && r.u.finite()
            &&& apart(
                r.v.value() * tu,
                b.v.value() * tu + asked(b, err, freeze) + 5 * (u * u) * (b.u.value()
                    - b.v.value()),
            ) <= 128 * grain(m as int) * tu
            &&& r.u.value() == pulled(r.v.value(), b.lo.value(), b.hi.value())
            &&& r.e_prev == err.amount()
            &&& r.lower_bound_dwell == if r.v.value() <= b.lo.value() {
                b.lower_bound_dwell + 5
            } else {
                0
            }
            &&& r.upper_bound_dwell == if r.v.value() >= b.hi.value() {
                b.upper_bound_dwell + 5
            } else {
                0
            }
        }),
{
    lemma_increment_value(b, err, freeze, m);
    lemma_back_value(b, err, freeze, m);
    let n = b.noted(err, freeze);
    let u = unit() as int;
    let ti = b.leg(err.about()).1;
    assert(n.leg(err.about()).1 == ti);
    let tu = ti.value() * u;
    let g = n.gated(err, freeze);
    let back = Num(PI_PERIOD_S).over(ti).times(b.u.minus(b.v));
    let v = b.v.plus(g).plus(back);
    assert(v == n.accumulated(err, freeze));
    lemma_sum_of_three(b, err, freeze, m, g, back);
    lemma_total(
        v.value(),
        b.v.value(),
        g.value(),
        back.value(),
        asked(b, err, freeze),
        5 * (u * u) * (b.u.value() - b.v.value()),
        tu,
        m as int,
        grain(m as int),
    );
}

/// The new accumulator from its three terms.
proof fn lemma_sum_of_three(
    b: Budget,
    err: LoopError,
    freeze: Option<Freeze>,
    m: nat,
    g: Num,
    back: Num,
)
    requires
        integrable(b, err, freeze, m),
        g.finite() && apart(g.value(), 0) <= 7 * m,
        back.finite() && apart(back.value(), 0) <= 3 * m,
    ensures
        ({
            let v = b.v.plus(g).plus(back);
            let r = v.within(b.lo, b.hi);
            &&& v.finite()
            &&& apart(v.value(), b.v.value() + g.value() + back.value()) * 0x20_0000_0000_0000 <= 22
                * m
            &&& r.finite() && r.value() == pulled(v.value(), b.lo.value(), b.hi.value())
            &&& v.le(b.lo) == (v.value() <= b.lo.value())
            &&& b.hi.le(v) == (v.value() >= b.hi.value())
            &&& m + 0x20_0000_0000_0000 <= grain(m as int) * 0x20_0000_0000_0000
        }),
{
    reveal(integrable);
    lemma_steps_zero(b.v);
    lemma_plus_error(b.v, g);
    let s = b.v.plus(g);
    lemma_plus_error(s, back);
    let v = s.plus(back);
    lemma_within_value(v, b.lo, b.hi);
    lemma_order_is_numeric(v, b.lo);
    lemma_order_is_numeric(b.hi, v);
}

proof fn lemma_total(
    v: int,
    before: int,
    g: int,
    back: int,
    wanted: int,
    pull: int,
    tu: int,
    m: int,
    gr: int,
)
    requires
        m >= 0,
        tu > 0,
        m + 0x20_0000_0000_0000 <= gr * 0x20_0000_0000_0000,
        apart(v, before + g + back) * 0x20_0000_0000_0000 <= 22 * m,
        apart(g * tu, wanted) * 0x20_0000_0000_0000 <= tu * (45 * m + 0x20_0000_0000_0000),
        apart(back * tu, pull) * 0x20_0000_0000_0000 <= tu * (37 * m + 0x10_0000_0000_0000),
    ensures
        apart(v * tu, before * tu + wanted + pull) <= 128 * gr * tu,
{
    let k: int = 0x20_0000_0000_0000;
    let sum = before + g + back;
    lemma_stretched(v, sum, tu);
    assert(sum * tu == before * tu + g * tu + back * tu) by (nonlinear_arith)
        requires
            sum == before + g + back,
    ;
    assert(apart(v * tu, sum * tu) * k <= tu * (22 * m)) by (nonlinear_arith)
        requires
            apart(v * tu, sum * tu) == apart(v, sum) * tu,
            apart(v, sum) * k <= 22 * m,
            tu > 0,
    ;
    assert(tu * (45 * m + k) + tu * (37 * m + 0x10_0000_0000_0000) + tu * (22 * m) <= 128 * gr * tu * k)
        by (nonlinear_arith)
        requires
            m + k <= gr * k,
            k == 0x20_0000_0000_0000,
            tu > 0,
            m >= 0,
    ;
    let total = 128 * gr * tu;
    assert(apart(v * tu, before * tu + wanted + pull) * k <= total * k);
}

proof fn lemma_quarter()
    ensures
        Num(RPM_GAIN_SCALE_FLOOR).finite() && 4 * Num(RPM_GAIN_SCALE_FLOOR).value() == unit(),
{
    lemma2_to64();
    lemma2_to64_rest();
    lemma_pow2_adds(54, 1020);
    let p = pow2(1020);
    assert(Num(RPM_GAIN_SCALE_FLOOR).significand() == 0x10_0000_0000_0000);
    assert(Num(RPM_GAIN_SCALE_FLOOR).exponent() == 1020);
    assert(4 * (0x10_0000_0000_0000 * p) == 0x40_0000_0000_0000 * p) by (nonlinear_arith);
}

proof fn lemma_reciprocal(q: int, d: int, quarter: int, u: int)
    requires
        4 * quarter == u,
        u > 0,
        d >= u,
        about(q * d, u * u, 1),
    ensures
        about(pulled(q, quarter, u) * pulled(d, u, 4 * u), u * u, 1),
{
    let n: int = 0x4_0000_0000_0000;
    let (x, y) = (pulled(q, quarter, u), pulled(d, u, 4 * u));
    let uu = u * u;
    assert(x * y * n <= uu * n + uu) by (nonlinear_arith)
        requires
            q * d * n <= uu * n + uu,
            uu == u * u,
            4 * quarter == u,
            x == pulled(q, quarter, u),
            y == pulled(d, u, 4 * u),
            d >= u,
            u > 0,
            n > 0,
    {
        assert(quarter * (4 * u) == uu) by (nonlinear_arith)
            requires
                4 * quarter == u,
                uu == u * u,
        ;
        if q <= quarter {
            assert(quarter * y <= quarter * (4 * u)) by (nonlinear_arith)
                requires
                    y <= 4 * u,
                    quarter >= 0,
            ;
        } else {
            assert(x * y <= q * d) by (nonlinear_arith)
                requires
                    0 < x <= q,
                    0 < y <= d,
            ;
        }
    }
    assert(x * y * n >= uu * n - uu) by {
        if x == u {
            assert(u * y >= uu) by (nonlinear_arith)
                requires
                    y >= u,
                    u > 0,
                    uu == u * u,
            ;
        } else if y == 4 * u {
            assert(x * y >= quarter * (4 * u)) by (nonlinear_arith)
                requires
                    x >= quarter,
                    y == 4 * u,
                    u > 0,
            ;
            assert(quarter * (4 * u) == uu) by (nonlinear_arith)
                requires
                    4 * quarter == u,
                    uu == u * u,
            ;
        } else {
            assert(x * y >= q * d) by (nonlinear_arith)
                requires
                    x >= q,
                    y == d,
                    d > 0,
            ;
        }
    }
    assert(uu > 0) by (nonlinear_arith)
        requires
            u > 0,
            uu == u * u,
    ;
}

/// The schedule of the fan-speed gain: one over the slope, where the slope
/// counts as at least the reference and at most four times that, and a quarter
/// while there is no slope.
pub proof fn lemma_schedule_is_one_over_the_slope(slope: Num)
    requires
        slope.finite() && slope.steps() <= reach(),
    ensures
        slope_scale(None).value() * 4 == unit(),
        about(
            slope_scale(Some(slope)).value() * pulled(
                slope.value(),
                unit() as int,
                4 * unit() as int,
            ),
            (unit() * unit()) as int,
            1,
        ),
{
    lemma_one();
    lemma_pow2_pos(1074);
    lemma_quarter();
    let u = unit() as int;
    lemma_steps_zero(Num(ONE));
    lemma_lesser_value(slope, Num(ONE));
    let d = slope.greater(Num(ONE));
    lemma_vast();
    lemma_steps_zero(d);
    lemma_steps_zero(slope);
    let dv = d.value();
    assert(dv * 0x10_0000_0000_0000 <= u * u) by {
        reveal(reach);
        lemma2_to64_rest();
        lemma_pow2_adds(1980, 52);
        lemma_pow2_adds(1074, 1074);
        vstd::arithmetic::power2::lemma_pow2_strictly_increases(2032, 2148);
        vstd::arithmetic::power2::lemma_pow2_strictly_increases(1074, 1980);
        assert(dv * 0x10_0000_0000_0000 <= pow2(1980) * 0x10_0000_0000_0000);
    }
    assert(u <= reach()) by {
        reveal(reach);
        vstd::arithmetic::power2::lemma_pow2_strictly_increases(1074, 1980);
    }
    assert(u * u <= reach() * dv) by (nonlinear_arith)
        requires
            u <= reach(),
            u <= dv,
            u > 0,
    ;
    crate::precision::lemma_over_error(Num(ONE), d);
    let q = Num(ONE).over(d);
    lemma_within_value(q, Num(RPM_GAIN_SCALE_FLOOR), Num(ONE));
    assert(u * u > 0) by (nonlinear_arith)
        requires
            u > 0,
    ;
    lemma_reciprocal(q.value(), dv, Num(RPM_GAIN_SCALE_FLOOR).value(), u);
}

/// The demand is limited as soon as one axis draws all that its cap allows.
pub proof fn lemma_one_axis_limits_the_demand(axes: Seq<(Num, Num)>)
    requires
        forall|i: int| 0 <= i < axes.len() ==> (#[trigger] axes[i]).0.finite() && axes[i].1.finite(),
    ensures
        pinned(axes) <==> exists|i: int|
            0 <= i < axes.len() && (#[trigger] axes[i]).0.value() >= axes[i].1.value(),
{
    assert forall|i: int| 0 <= i < axes.len() implies (#[trigger] axes[i]).1.le(axes[i].0) == (
    axes[i].0.value() >= axes[i].1.value()) by {
        lemma_order_is_numeric(axes[i].1, axes[i].0);
    }
}

} // verus!
