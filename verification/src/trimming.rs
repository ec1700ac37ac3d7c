//! What clock the watts-to-clock loop comes to, told from its measurement.

use crate::gpu_pid::{GpuPid, DEADBAND_W, KI, KP, MAX_CLOCK_MHZ, OUTPUT_LIMIT, RATE_LIMIT_MHZ};
use crate::grid::lemma_rounded_value;
use crate::num::{of_int, unit, Num, ONE, ZERO};
use crate::order::{lemma_of_int_exact, lemma_one, lemma_steps_zero};
use crate::pid::bounded;
use crate::precision::{apart, lemma_minus_error, lemma_plus_error, lemma_times_error, reach};
use crate::spending::{high, lemma_lesser_value, lemma_scales, lemma_within_value, pulled};
use crate::values::{lemma_compare, lemma_gap_side, lemma_whole, lemma_whole_number, lemma_zero};
use vstd::arithmetic::power2::{lemma2_to64, lemma2_to64_rest, lemma_pow2_pos};
use vstd::prelude::*;

verus! {

proof fn lemma_gains()
    ensures
        Num(KP).finite() && Num(KP).value() == 5 * unit(),
        Num(KI).finite() && Num(KI).value() == 15 * unit(),
        Num(OUTPUT_LIMIT).finite() && Num(OUTPUT_LIMIT).value() == 400 * unit(),
{
    lemma2_to64();
    lemma2_to64_rest();
    lemma_whole(Num(KP), 5, 50);
    lemma_whole(Num(KI), 15, 49);
    lemma_whole(Num(OUTPUT_LIMIT), 400, 44);
}

/// A bounded term is the term pulled within its limit on either side of zero.
pub proof fn lemma_bounded_is_pulled(x: Num, limit: Num)
    requires
        x.finite() && limit.finite() && !limit.negative(),
    ensures
        bounded(x, limit).finite(),
        bounded(x, limit).value() == pulled(x.value(), -limit.value(), limit.value()),
{
    lemma_steps_zero(x);
    lemma_steps_zero(limit);
    let a = x.size();
    assert(a.finite() && !a.negative() && a.value() == x.steps()) by {
        assert(x.opposite().value() == -x.value());
    }
    lemma_lesser_value(limit, a);
    let s = limit.lesser(a);
    assert(s.finite() && !s.negative()) by {
        reveal(Num::lesser);
    }
    lemma_one();
    let d = x.direction();
    assert(d.steps() == unit() && d.finite()) by {
        assert(d.magnitude() == Num(ONE).magnitude());
        assert(d.significand() == Num(ONE).significand());
        assert(d.exponent() == Num(ONE).exponent());
    }
    let r = s.times(d);
    assert(r.magnitude() == s.magnitude() && (r.magnitude() != 0 ==> r.negative() == d.negative()))
        by {
        reveal(Num::times);
        lemma_pow2_pos(1074);
        crate::order::lemma_round_cancel(s.steps(), unit());
        crate::order::lemma_round_exact(s);
    }
    lemma_steps_zero(r);
    assert(r.steps() == s.steps());
    assert(d.negative() == x.negative());
}

/// A measurement that the loop can be computed on.
pub open spec fn measurable(g: GpuPid, measured: Num) -> bool {
    &&& measured.finite() && measured.steps() <= 0x10_0000 * unit()
    &&& g.pid.setpoint.finite() && g.pid.setpoint.steps() <= 0x10_0000 * unit()
    &&& g.pid.integral_term.finite() && g.pid.integral_term.steps() <= 400 * unit()
    &&& g.frozen_i.finite() && g.frozen_i.steps() <= 400 * unit()
    &&& g.pid.prev_measurement is Some ==> g.pid.prev_measurement->0.finite()
        && g.pid.prev_measurement->0.steps() <= 0x10_0000 * unit()
}

/// A small part of one.
pub open spec fn speck() -> int {
    (unit() / 0x200_0000) as int
}

/// The error times a gain.
proof fn lemma_error_times(a: Num, c: Num, k: Num, n: nat)
    requires
        a.finite() && a.steps() <= 0x10_0000 * unit(),
        c.finite() && c.steps() <= 0x10_0000 * unit(),
        k.finite() && k.value() == n * unit(),
        n <= 16,
    ensures
        a.minus(c).times(k).finite(),
        apart(a.minus(c).times(k).value(), n * (a.value() - c.value())) <= speck(),
        apart(a.minus(c).times(k).value(), 0) <= 0x400_0000 * unit(),
{
    lemma_scales();
    lemma_pow2_pos(1074);
    lemma_steps_zero(a);
    lemma_steps_zero(c);
    lemma_steps_zero(k);
    let u = unit() as int;
    let (q, h) = (0x20_0000_0000_0000int, 0x10_0000_0000_0000int);
    lemma_minus_error(a, c);
    let e = a.minus(c);
    lemma_steps_zero(e);
    let (ev, exact) = (e.value(), a.value() - c.value());
    let z = e.steps() as int;
    assert(z <= 0x40_0000 * u);
    let nu = n * u;
    assert(k.steps() == nu) by {
        assert(nu >= 0) by (nonlinear_arith)
            requires
                nu == n * u,
                u > 0,
                n >= 0,
        ;
    }
    let zn = z * n;
    assert(0 <= zn <= 16 * z) by (nonlinear_arith)
        requires
            zn == z * n,
            0 <= n <= 16,
            z >= 0,
    ;
    assert(e.steps() * k.steps() == zn * u) by (nonlinear_arith)
        requires
            e.steps() == z,
            k.steps() == nu,
            nu == n * u,
            zn == z * n,
    ;
    assert(zn * u <= reach() * u) by (nonlinear_arith)
        requires
            zn <= reach(),
            u > 0,
    ;
    lemma_times_error(e, k);
    let r = e.times(k).value();
    assert(ev * k.value() == ev * n * u) by (nonlinear_arith)
        requires
            k.value() == n * u,
    ;
    let d = apart(r, ev * n);
    assert(apart(r * u, ev * n * u) == d * u) by (nonlinear_arith)
        requires
            d == apart(r, ev * n),
            u > 0,
    ;
    assert(d * q <= zn + h) by (nonlinear_arith)
        requires
            d * u * q <= zn * u + u * h,
            u > 0,
    ;
    assert(apart(ev * n, n * exact) == apart(ev, exact) * n) by (nonlinear_arith)
        requires
            n >= 0,
    ;
    assert(apart(ev, exact) * n <= 16 * apart(ev, exact)) by (nonlinear_arith)
        requires
            0 <= n <= 16,
            apart(ev, exact) >= 0,
    ;
    assert(apart(ev * n, 0) == zn) by (nonlinear_arith)
        requires
            z == apart(ev, 0),
            zn == z * n,
            n >= 0,
    ;
}

/// What the terms of the loop add up to, exactly: five MHz for each watt of the
/// error, within 400 either way; and the integral, which gains fifteen for each
/// watt, within 400 either way, or stays what it was behind a limit.
pub open spec fn exact_correction(g: GpuPid, measured: Num) -> int {
    let u = unit() as int;
    let e = g.pid.setpoint.value() - measured.value();
    pulled(5 * e, -400 * u, 400 * u) + if g.saturated {
        g.frozen_i.value()
    } else {
        pulled(g.pid.integral_term.value() + 15 * e, -400 * u, 400 * u)
    }
}

proof fn lemma_pulled_apart(x: int, y: int, lo: int, hi: int)
    requires
        lo <= hi,
    ensures
        apart(pulled(x, lo, hi), pulled(y, lo, hi)) <= apart(x, y),
{
}

/// The proportional term, computed in either way.
proof fn lemma_proportional_value(set: Num, measured: Num)
    requires
        measured.finite() && measured.steps() <= 0x10_0000 * unit(),
        set.finite() && set.steps() <= 0x10_0000 * unit(),
    ensures
        ({
            let ep = set.minus(measured).times(Num(KP));
            let limit = Num(OUTPUT_LIMIT);
            let (a, c) = (bounded(ep, limit), ep.within(limit.opposite(), limit));
            let u = unit() as int;
            &&& a.finite() && c.finite() && a.value() == c.value()
            &&& apart(a.value(), 0) <= 400 * u
            &&& apart(a.value(), pulled(5 * (set.value() - measured.value()), -400 * u, 400 * u))
                <= speck()
        }),
{
    lemma_gains();
    lemma_pow2_pos(1074);
    let u = unit() as int;
    let limit = Num(OUTPUT_LIMIT);
    lemma_error_times(set, measured, Num(KP), 5);
    let ep = set.minus(measured).times(Num(KP));
    lemma_bounded_is_pulled(ep, limit);
    let lo = limit.opposite();
    assert(lo.finite() && lo.value() == -400 * u);
    lemma_within_value(ep, lo, limit);
    lemma_pulled_apart(ep.value(), 5 * (set.value() - measured.value()), -400 * u, 400 * u);
}

/// The integral term.
proof fn lemma_integral_value(set: Num, measured: Num, t: Num)
    requires
        measured.finite() && measured.steps() <= 0x10_0000 * unit(),
        set.finite() && set.steps() <= 0x10_0000 * unit(),
        t.finite() && t.steps() <= 400 * unit(),
    ensures
        ({
            let i = bounded(t.plus(set.minus(measured).times(Num(KI))), Num(OUTPUT_LIMIT));
            let u = unit() as int;
            &&& i.finite()
            &&& apart(i.value(), 0) <= 400 * u
            &&& apart(
                i.value(),
                pulled(t.value() + 15 * (set.value() - measured.value()), -400 * u, 400 * u),
            ) <= 3 * speck()
        }),
{
    lemma_gains();
    lemma_scales();
    lemma_pow2_pos(1074);
    let u = unit() as int;
    lemma_error_times(set, measured, Num(KI), 15);
    let ei = set.minus(measured).times(Num(KI));
    lemma_steps_zero(t);
    lemma_plus_error(t, ei);
    let sum = t.plus(ei);
    let exact = t.value() + 15 * (set.value() - measured.value());
    assert(apart(sum.value(), t.value() + ei.value()) <= speck());
    lemma_bounded_is_pulled(sum, Num(OUTPUT_LIMIT));
    lemma_pulled_apart(sum.value(), exact, -400 * u, 400 * u);
}

proof fn lemma_two_terms(p: Num, i: Num)
    requires
        p.finite() && i.finite(),
        apart(p.value(), 0) <= 900 * unit(),
        apart(i.value(), 0) <= 400 * unit(),
    ensures
        p.plus(i).finite(),
        apart(p.plus(i).value(), p.value() + i.value()) <= speck(),
{
    lemma_scales();
    lemma_pow2_pos(1074);
    lemma_plus_error(p, i);
}

proof fn lemma_correction_value(g: GpuPid, measured: Num)
    requires
        g.wf(),
        measurable(g, measured),
    ensures
        g.correction(measured).finite(),
        apart(g.correction(measured).value(), exact_correction(g, measured)) <= 8 * speck(),
{
    reveal(GpuPid::correction);
    lemma_pow2_pos(1074);
    crate::spending::lemma_scales();
    let set = g.pid.setpoint;
    lemma_proportional_value(set, measured);
    if g.saturated {
        lemma_steps_zero(g.frozen_i);
        let limit = Num(OUTPUT_LIMIT);
        lemma_two_terms(
            set.minus(measured).times(Num(KP)).within(limit.opposite(), limit),
            g.frozen_i,
        );
    } else {
        lemma_integral_value(set, measured, g.pid.integral_term);
        let (p, i, d) = (
            g.pid.proportional(measured),
            g.pid.integral(measured),
            g.pid.derivative(measured),
        );
        lemma_no_derivative(g, measured);
        lemma_two_terms(p, i);
        lemma_two_terms(p.plus(i), d);
    }
}

/// What the loop has integrated after an update gains fifteen MHz for each watt
/// of the error, within 400 either way; behind a limit it stays what it was.
pub proof fn lemma_integral_gains_by_the_error(
    g: GpuPid,
    measured: Num,
    feedforward: u32,
    floor: u32,
)
    requires
        g.wf(),
        measurable(g, measured),
    ensures
        ({
            let r = g.moved(measured, feedforward, floor);
            let u = unit() as int;
            &&& g.saturated ==> r.pid == g.pid && r.frozen_i == g.frozen_i
            &&& !g.saturated ==> r.frozen_i == r.pid.integral_term && r.frozen_i.finite() && apart(
                r.frozen_i.value(),
                pulled(
                    g.pid.integral_term.value() + 15 * (g.pid.setpoint.value() - measured.value()),
                    -400 * u,
                    400 * u,
                ),
            ) <= 3 * speck()
        }),
{
    lemma_integral_value(g.pid.setpoint, measured, g.pid.integral_term);
}

proof fn lemma_no_derivative(g: GpuPid, measured: Num)
    requires
        g.wf(),
        measurable(g, measured),
    ensures
        g.pid.derivative(measured).finite() && g.pid.derivative(measured).value() == 0,
{
    lemma_zero();
    lemma_scales();
    let change = match g.pid.prev_measurement {
        Some(prev) => measured.minus(prev),
        None => Num(ZERO),
    };
    if let Some(prev) = g.pid.prev_measurement {
        lemma_steps_zero(prev);
        lemma_steps_zero(measured);
        lemma_minus_error(measured, prev);
    }
    let o = change.opposite();
    crate::budget::lemma_times_nothing(o, Num(ZERO));
    let x = o.times(Num(ZERO));
    assert(x.finite());
    lemma_bounded_is_pulled(x, Num(ZERO));
}

/// The clock of an update is the calibrated one, moved by what the terms add up
/// to but by at most 400 MHz, held between the floor and the largest clock and
/// then within 105 MHz of the clock before, but never below the floor; to the
/// nearest whole MHz.
pub proof fn lemma_clock_follows_the_error(g: GpuPid, measured: Num, feedforward: u32, floor: u32)
    requires
        g.wf(),
        measurable(g, measured),
        feedforward <= 0x10_0000,
        floor <= MAX_CLOCK_MHZ,
    ensures
        ({
            let u = unit() as int;
            let wanted = feedforward * u + pulled(
                exact_correction(g, measured),
                -400 * u,
                400 * u,
            );
            let goal = pulled(wanted, floor * u, 3090 * u);
            let clock = g.clock(measured, feedforward, floor) * u;
            &&& g.last_clock is None ==> 2 * apart(clock, goal) <= u + 32 * speck()
            &&& g.last_clock matches Some(last) ==> 2 * apart(
                clock,
                high(pulled(goal, (last - 105) * u, (last + 105) * u), floor * u),
            ) <= u + 32 * speck()
        }),
{
    let u = unit() as int;
    lemma_pow2_pos(1074);
    let exact = pulled(exact_correction(g, measured), -400 * u, 400 * u);
    let wanted = feedforward * u + exact;
    lemma_wanted_value(g, measured, feedforward);
    let w = g.wanted(measured, feedforward);
    let n = choose|n: int| w.value() == #[trigger] (n * unit());
    lemma_of_int_exact(floor as nat);
    lemma_of_int_exact(MAX_CLOCK_MHZ as nat);
    let m = pulled(n, floor as int, 3090);
    lemma_pulled_multiple(n, floor as int, 3090, u);
    lemma_within_value(w, of_int(floor as nat), of_int(MAX_CLOCK_MHZ as nat));
    let a = g.allowed(measured, feedforward, floor);
    assert(a.value() == m * u);
    lemma_whole_number(a, m);
    lemma_pulled_apart(w.value(), wanted, floor * u, 3090 * u);
    let goal = pulled(wanted, floor * u, 3090 * u);
    assert(2 * apart(m * u, goal) <= u + 32 * speck());
    if let Some(last) = g.last_clock {
        lemma_rate_value(m, goal, last, floor, u);
    }
}

proof fn lemma_rate_value(m: int, goal: int, last: u32, floor: u32, u: int)
    requires
        u > 0,
        0 <= m <= 3090,
        last <= 3090,
    ensures
        ({
            let limited = crate::gpu_pid::rate_limited(m as u32, last);
            let r = if limited < floor {
                floor
            } else {
                limited
            };
            apart(r * u, high(pulled(goal, (last - 105) * u, (last + 105) * u), floor * u)) <= apart(
                m * u,
                goal,
            )
        }),
{
    let (l, h) = (last - 105, last + 105);
    lemma_pulled_multiple(m, l, h, u);
    lemma_pulled_apart(m * u, goal, l * u, h * u);
    let r = pulled(m, l, h);
    assert(RATE_LIMIT_MHZ == 105);
    assert(crate::gpu_pid::rate_limited(m as u32, last) == r);
    assert((r < floor ==> r * u < floor * u) && (r >= floor ==> r * u >= floor * u))
        by (nonlinear_arith)
        requires
            u > 0,
    ;
}

/// The clock that the loop wants, before the floor and the ceiling.
proof fn lemma_wanted_value(g: GpuPid, measured: Num, feedforward: u32)
    requires
        g.wf(),
        measurable(g, measured),
        feedforward <= 0x10_0000,
    ensures
        ({
            let u = unit() as int;
            let w = g.wanted(measured, feedforward);
            &&& w.finite()
            &&& exists|n: int| w.value() == #[trigger] (n * unit())
            &&& 2 * apart(
                w.value(),
                feedforward * u + pulled(exact_correction(g, measured), -400 * u, 400 * u),
            ) <= u + 32 * speck()
        }),
{
    lemma_correction_value(g, measured);
    lemma_gains();
    lemma_scales();
    lemma_pow2_pos(1074);
    let u = unit() as int;
    let limit = Num(OUTPUT_LIMIT);
    let lo = limit.opposite();
    assert(lo.finite() && lo.value() == -400 * u);
    let c = g.correction(measured);
    lemma_within_value(c, lo, limit);
    let t = g.trimmed(measured);
    let exact = pulled(exact_correction(g, measured), -400 * u, 400 * u);
    lemma_pulled_apart(c.value(), exact_correction(g, measured), -400 * u, 400 * u);
    assert(apart(t.value(), exact) <= 8 * speck());
    lemma_of_int_exact(feedforward as nat);
    let ff = of_int(feedforward as nat);
    assert(0 <= feedforward * u <= 0x10_0000 * u) by (nonlinear_arith)
        requires
            0 <= feedforward <= 0x10_0000,
            u > 0,
    ;
    lemma_plus_error(ff, t);
    let sum = ff.plus(t);
    assert(apart(sum.value(), ff.value() + t.value()) <= speck());
    lemma_steps_zero(sum);
    lemma_rounded_value(sum);
}

proof fn lemma_pulled_multiple(n: int, lo: int, hi: int, u: int)
    requires
        lo <= hi,
        u > 0,
    ensures
        pulled(n, lo, hi) * u == pulled(n * u, lo * u, hi * u),
        lo * u <= hi * u,
{
    assert(lo * u <= hi * u) by (nonlinear_arith)
        requires
            lo <= hi,
            u > 0,
    ;
    assert((n < lo ==> n * u < lo * u) && (n >= lo ==> n * u >= lo * u) && (n > hi ==> n * u > hi
        * u) && (n <= hi ==> n * u <= hi * u)) by (nonlinear_arith)
        requires
            u > 0,
    ;
}

/// Within three watts of the target, on either side, the loop holds; farther
/// away, by any `z` above that, it does not.
pub proof fn lemma_loop_holds_within_three_watts(g: GpuPid, measured: Num, z: Num)
    requires
        measured.finite() && g.pid.setpoint.finite() && z.finite() && 3 * unit() < z.value(),
    ensures
        apart(g.pid.setpoint.value(), measured.value()) <= 3 * unit() ==> g.near_target(measured),
        apart(g.pid.setpoint.value(), measured.value()) >= z.value() ==> !g.near_target(measured),
{
    lemma2_to64();
    lemma2_to64_rest();
    lemma_pow2_pos(1074);
    let band = Num(DEADBAND_W);
    lemma_whole(band, 3, 51);
    lemma_gap_side(g.pid.setpoint, measured, band);
    lemma_gap_side(g.pid.setpoint, measured, z);
    lemma_compare(band, z);
    reveal(Num::le);
    reveal(Num::lt);
}

/// An update counts as saturated if its correction is clearly beyond 400 MHz on
/// either side, the clock that it wants is clearly outside the floor and the
/// largest clock, or that clock is clearly farther from the one before than 105
/// MHz. It does not if all three are clearly met.
pub proof fn lemma_saturation_is_a_limit_met(g: GpuPid, measured: Num, feedforward: u32, floor: u32)
    requires
        g.wf(),
        measurable(g, measured),
        feedforward <= 0x10_0000,
        floor <= MAX_CLOCK_MHZ,
    ensures
        ({
            let u = unit() as int;
            let c = exact_correction(g, measured);
            let wanted = feedforward * u + pulled(c, -400 * u, 400 * u);
            let goal = pulled(wanted, floor * u, 3090 * u);
            let last = g.last_clock->0 * u;
            let timed = g.last_clock is Some;
            let r = g.saturates(measured, feedforward, floor);
            &&& apart(c, 0) > 401 * u ==> r
            &&& wanted < floor * u - u || wanted > 3091 * u ==> r
            &&& timed && apart(goal, last) > 106 * u ==> r
            &&& apart(c, 0) < 399 * u && floor * u + u <= wanted <= 3089 * u && (timed ==> apart(
                goal,
                last,
            ) < 104 * u) ==> !r
        }),
{
    lemma_correction_value(g, measured);
    lemma_gains();
    lemma_scales();
    lemma_pow2_pos(1074);
    let u = unit() as int;
    let limit = Num(OUTPUT_LIMIT);
    let lo = limit.opposite();
    assert(lo.finite() && lo.value() == -400 * u);
    let c = g.correction(measured);
    lemma_within_value(c, lo, limit);
    let t = g.trimmed(measured);
    lemma_compare(t, c);
    lemma_wanted_value(g, measured, feedforward);
    let w = g.wanted(measured, feedforward);
    let n = choose|n: int| w.value() == #[trigger] (n * unit());
    lemma_of_int_exact(floor as nat);
    lemma_of_int_exact(MAX_CLOCK_MHZ as nat);
    lemma_pulled_multiple(n, floor as int, 3090, u);
    lemma_within_value(w, of_int(floor as nat), of_int(MAX_CLOCK_MHZ as nat));
    let a = g.allowed(measured, feedforward, floor);
    lemma_compare(a, w);
    let m = pulled(n, floor as int, 3090);
    assert(a.value() == m * u);
    lemma_whole_number(a, m);
    let wanted = feedforward * u + pulled(exact_correction(g, measured), -400 * u, 400 * u);
    lemma_pulled_apart(w.value(), wanted, floor * u, 3090 * u);
    if let Some(last) = g.last_clock {
        let goal = pulled(wanted, floor * u, 3090 * u);
        assert(2 * apart(m * u, goal) <= u + 32 * speck());
        lemma_rate_binds(m, goal, last, u);
    }
}

proof fn lemma_rate_binds(m: int, goal: int, last: u32, u: int)
    requires
        u > 0,
        0 <= m <= 3090,
        last <= 3090,
        apart(m * u, goal) <= u,
    ensures
        apart(goal, last * u) > 106 * u ==> crate::gpu_pid::rate_limited(m as u32, last) != m,
        apart(goal, last * u) < 104 * u ==> crate::gpu_pid::rate_limited(m as u32, last) == m,
{
    assert(RATE_LIMIT_MHZ == 105);
    let d = apart(m, last as int);
    assert(apart(m * u, last * u) == d * u) by (nonlinear_arith)
        requires
            d == apart(m, last as int),
            u > 0,
    ;
    if apart(goal, last * u) > 106 * u {
        assert(d > 105) by (nonlinear_arith)
            requires
                d * u > 105 * u,
                u > 0,
        ;
    }
    if apart(goal, last * u) < 104 * u {
        assert(d < 105) by (nonlinear_arith)
            requires
                d * u < 105 * u,
                u > 0,
        ;
    }
}

} // verus!
