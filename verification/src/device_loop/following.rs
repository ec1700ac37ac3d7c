//! How a tick moves the shadow candidate and the cap, told from its readings.

use crate::device_loop::motion::{
    lemma_pulled_near, lemma_regulating_tick, lemma_way, regulating, settled_request,
};
use crate::device_loop::{
    draw_target, error_of, moved_toward, on_grid, selection, usable_dt, LoopState, Plant, Selected,
    ThermalMode, TickInput, CPU_GRID, GPU_SHADOW_RISE_RATE, GROUP_UNAVAILABLE_DWELL_S, MAX_DT_S,
};
use crate::grid::lemma_gridded_value;
use crate::num::{lemma_order_is_numeric, unit, Num, ONE, ZERO};
use crate::order::lemma_steps_zero;
use crate::precision::{apart, grain, lemma_minus_error, lemma_plus_error, reach};
use crate::spending::{high, lemma_lesser_value, lemma_within_value, low, pulled};
use vstd::arithmetic::power2::{lemma2_to64, lemma2_to64_rest, lemma_pow2_adds, lemma_pow2_pos, pow2};
use vstd::prelude::*;

verus! {

/// How far a value goes toward another one, at most `up` up and `down` down.
pub open spec fn toward(from: int, to: int, up: int, down: int) -> int {
    if to >= from {
        from + low(to - from, up)
    } else {
        from - low(from - to, down)
    }
}

proof fn lemma_toward_near(from: int, to: int, up: int, down: int, to2: int, up2: int, down2: int, e: int)
    requires
        up >= 0 && down >= 0 && up2 >= 0 && down2 >= 0,
        apart(to, to2) <= e,
        apart(up, up2) <= e,
        apart(down, down2) <= e,
    ensures
        apart(toward(from, to, up, down), toward(from, to2, up2, down2)) <= e,
{
}

/// The rate at which the shadow candidate rises: the CPU's by its headroom per
/// second, the GPU's at a rate of its own.
pub open spec fn rise_of(p: Plant, headroom: Num) -> Num {
    if p.grid.same(Num(CPU_GRID)) {
        headroom
    } else {
        Num(GPU_SHADOW_RISE_RATE)
    }
}

/// The shadow candidate goes toward a level within the bounds, by at most its
/// rates over the time.
proof fn lemma_shadow_toward_value(
    s: LoopState,
    p: Plant,
    target: Num,
    dt: Num,
    headroom: Num,
    fall: Num,
    b: nat,
)
    requires
        64 * b <= reach(),
        s.floor.finite() && s.max.finite() && s.shadow.finite() && target.finite(),
        s.floor.steps() <= b && s.max.steps() <= b,
        s.floor.value() <= s.shadow.value() <= s.max.value(),
        s.floor.value() <= target.value() <= s.max.value(),
        dt.finite() && 0 <= dt.value() <= 2 * unit(),
        headroom.finite() && headroom.value() > 0,
        fall.finite() && fall.value() > 0,
        rise_of(p, headroom).finite() && 0 < rise_of(p, headroom).value(),
        rise_of(p, headroom).steps() <= b,
        fall.steps() <= b,
    ensures
        ({
            let r = s.shadow_toward(p, target, dt, headroom, fall);
            let u = unit() as int;
            let exact = toward(
                s.shadow.value() * u,
                target.value() * u,
                rise_of(p, headroom).value() * dt.value(),
                fall.value() * dt.value(),
            );
            &&& r.finite()
            &&& apart(r.value() * u, exact) <= 16 * grain(b as int) * u
        }),
{
    reveal(LoopState::shadow_toward);
    crate::values::lemma_zero();
    lemma_pow2_pos(1074);
    let u = unit() as int;
    let k: int = 0x20_0000_0000_0000;
    let h: int = 0x10_0000_0000_0000;
    lemma_order_is_numeric(Num(ZERO), headroom);
    lemma_order_is_numeric(Num(ZERO), fall);
    let rise = rise_of(p, headroom);
    lemma_way(rise, dt, b);
    lemma_way(fall, dt, b);
    lemma_minus_error(target, s.shadow);
    let delta = target.minus(s.shadow);
    lemma_order_is_numeric(Num(ZERO), delta);
    let (up, down) = (rise.times(dt), fall.times(dt));
    let step = if Num(ZERO).le(delta) {
        up
    } else {
        down
    };
    assert(step.opposite().value() == -step.value() && step.opposite().finite());
    lemma_within_value(delta, step.opposite(), step);
    let moved = delta.within(step.opposite(), step);
    lemma_plus_error(s.shadow, moved);
    let sum = s.shadow.plus(moved);
    lemma_within_value(sum, s.floor, s.max);
    let (from, to) = (s.shadow.value(), target.value());
    let (dv, mv, sv) = (delta.value(), moved.value(), sum.value());
    let (uv, wv) = (up.value(), down.value());
    // The exact difference has the sign of the rounded one.
    crate::order::lemma_minus_sign(s.shadow, target);
    crate::order::lemma_minus_sign(target, s.shadow);
    lemma_order_is_numeric(s.shadow, target);
    crate::values::lemma_difference_side(target, s.shadow, Num(ZERO));
    let e = grain(b as int) * u;
    assert(b + k <= grain(b as int) * k);
    let exact = toward(from * u, to * u, rise.value() * dt.value(), fall.value() * dt.value());
    let rounded = toward(from * u, (from + dv) * u, uv * u, wv * u);
    assert(apart((from + dv) * u, to * u) <= 4 * e) by (nonlinear_arith)
        requires
            apart(dv, to - from) * k <= 2 * b,
            b + k <= grain(b as int) * k,
            e == grain(b as int) * u,
            u > 0,
            k > 0,
            b >= 0,
    ;
    assert(apart(uv * u, rise.value() * dt.value()) <= 4 * e) by (nonlinear_arith)
        requires
            apart(uv * u, rise.value() * dt.value()) * k <= u * (2 * b + h),
            b + k <= grain(b as int) * k,
            e == grain(b as int) * u,
            k == 2 * h,
            h > 0,
            u > 0,
            b >= 0,
    ;
    assert(apart(wv * u, fall.value() * dt.value()) <= 4 * e) by (nonlinear_arith)
        requires
            apart(wv * u, fall.value() * dt.value()) * k <= u * (2 * b + h),
            b + k <= grain(b as int) * k,
            e == grain(b as int) * u,
            k == 2 * h,
            h > 0,
            u > 0,
            b >= 0,
    ;
    assert(uv * u >= 0 && wv * u >= 0 && rise.value() * dt.value() >= 0 && fall.value()
        * dt.value() >= 0) by (nonlinear_arith)
        requires
            uv >= 0,
            wv >= 0,
            u > 0,
            rise.value() >= 0,
            fall.value() >= 0,
            dt.value() >= 0,
    ;
    lemma_toward_near(
        from * u,
        (from + dv) * u,
        uv * u,
        wv * u,
        to * u,
        rise.value() * dt.value(),
        fall.value() * dt.value(),
        4 * e,
    );
    lemma_toward_scaled(from, dv, uv, wv, u);
    assert((from + mv) * u == rounded);
    assert(apart(sv * u, (from + mv) * u) <= 8 * e) by (nonlinear_arith)
        requires
            apart(sv, from + mv) * k <= 8 * b,
            b + k <= grain(b as int) * k,
            e == grain(b as int) * u,
            u > 0,
            k > 0,
            b >= 0,
    ;
    let (lo, hi) = (s.floor.value() * u, s.max.value() * u);
    assert(lo <= from * u <= hi && lo <= to * u <= hi) by (nonlinear_arith)
        requires
            lo == s.floor.value() * u,
            hi == s.max.value() * u,
            s.floor.value() <= from <= s.max.value(),
            s.floor.value() <= to <= s.max.value(),
            u > 0,
    ;
    assert(lo <= exact <= hi);
    lemma_pulled_scaled(sv, s.floor.value(), s.max.value(), u);
    lemma_pulled_near(sv * u, exact, lo, hi, 16 * e);
    assert(16 * e == 16 * grain(b as int) * u) by (nonlinear_arith)
        requires
            e == grain(b as int) * u,
    ;
}

proof fn lemma_pulled_scaled(v: int, lo: int, hi: int, u: int)
    requires
        lo <= hi,
        u > 0,
    ensures
        pulled(v, lo, hi) * u == pulled(v * u, lo * u, hi * u),
        lo * u <= hi * u,
{
    assert(lo * u <= hi * u) by (nonlinear_arith)
        requires
            lo <= hi,
            u > 0,
    ;
    assert((v < lo ==> v * u < lo * u) && (v >= lo ==> v * u >= lo * u) && (v > hi ==> v * u > hi
        * u) && (v <= hi ==> v * u <= hi * u)) by (nonlinear_arith)
        requires
            u > 0,
    ;
}

proof fn lemma_toward_scaled(from: int, delta: int, up: int, down: int, u: int)
    requires
        u > 0,
        up >= 0,
        down >= 0,
    ensures
        ({
            let step = if delta >= 0 {
                up
            } else {
                down
            };
            toward(from * u, (from + delta) * u, up * u, down * u) == (from + pulled(
                delta,
                -step,
                step,
            )) * u
        }),
{
    let step = if delta >= 0 {
        up
    } else {
        down
    };
    let m = pulled(delta, -step, step);
    assert((from + delta) * u == from * u + delta * u) by (nonlinear_arith);
    assert((from + m) * u == from * u + m * u) by (nonlinear_arith);
    assert((delta >= 0 ==> delta * u >= 0) && (delta < 0 ==> delta * u < 0)) by (nonlinear_arith)
        requires
            u > 0,
    ;
    assert((delta <= up ==> delta * u <= up * u) && (delta > up ==> delta * u > up * u))
        by (nonlinear_arith)
        requires
            u > 0,
    ;
    assert((-delta <= down ==> -(delta * u) <= down * u) && (-delta > down ==> -(delta * u) > down
        * u)) by (nonlinear_arith)
        requires
            u > 0,
    ;
    assert(m == down * -1 ==> m * u == -(down * u)) by (nonlinear_arith);
}

/// Falling at the infinite rate is falling at once.
proof fn lemma_falls_at_once(desired: Num, previous: Num, rate: Num, dt: Num)
    requires
        desired.finite() && previous.finite(),
        rate.0 == 0x7ff0_0000_0000_0000,
        dt.finite() && dt.value() >= 0,
    ensures
        desired.greater(previous.minus(rate.times(dt))) == desired,
{
    reveal(Num::greater);
    reveal(Num::minus);
    reveal(Num::plus);
    reveal(Num::times);
    reveal(Num::opposite);
    reveal(Num::lt);
    lemma_steps_zero(dt);
    let m = rate.times(dt);
    crate::values::lemma_zero();
    let o = m.opposite();
    let r = previous.minus(m);
    if !m.nan() {
        assert(rate.magnitude() == 0x7ff0_0000_0000_0000 && !rate.negative());
        if dt.negative() {
            assert(dt.value() == -(dt.steps() as int));
            assert(dt.steps() == 0);
            assert(false);
        }
        assert(m.0 == 0x7ff0_0000_0000_0000);
        assert(o.infinite() && o.negative());
        assert(r == o);
        assert(r.key() < desired.key());
    }
}

/// The rate at which a cap rises. A cap that follows the GPU's shadow rises at
/// a rate of its own.
pub open spec fn cap_rise(p: Plant, selected: Selected) -> Num {
    if selected == Selected::Shadow && p.grid.same(Num(ONE)) {
        Num(GPU_SHADOW_RISE_RATE)
    } else {
        p.rise_rate
    }
}

/// Where a cap stands after some time on the way to a target, exactly, in steps
/// times one. A cap whose falling rate is infinite falls at once.
pub open spec fn cap_goes(p: Plant, from: int, to: int, selected: Selected, dt: int) -> int {
    let u = unit() as int;
    if p.fall_rate.finite() {
        toward(from * u, to * u, cap_rise(p, selected).value() * dt, p.fall_rate.value() * dt)
    } else {
        low(to * u, from * u + cap_rise(p, selected).value() * dt)
    }
}

/// The cap goes toward its target by at most its rates over the time, and stays
/// within a step of the device's grid of where that leads.
pub proof fn lemma_cap_goes_to_its_target(
    s: LoopState,
    p: Plant,
    target: Num,
    selected: Selected,
    dt: Num,
    b: nat,
)
    requires
        256 * b <= reach(),
        s.requested is Some,
        s.floor.finite() && s.max.finite() && s.requested->0.finite() && target.finite(),
        s.floor.steps() <= b && s.max.steps() <= b,
        s.floor.value() <= s.requested->0.value() <= s.max.value(),
        s.floor.value() <= target.value() <= s.max.value(),
        dt.finite() && 0 <= dt.value() <= 2 * unit(),
        p.grid.finite() && p.grid.value() > 0 && p.grid.steps() <= b,
        8 * b <= 0x1_0000_0000 * p.grid.steps(),
        cap_rise(p, selected).finite() && 0 < cap_rise(p, selected).value(),
        cap_rise(p, selected).steps() <= b,
        p.fall_rate.0 == 0x7ff0_0000_0000_0000 || (p.fall_rate.finite() && p.fall_rate.value() > 0
            && p.fall_rate.steps() <= b),
    ensures
        ({
            let r = s.slewed(p, target, selected, dt, false);
            let exact = cap_goes(
                p,
                s.requested->0.value(),
                target.value(),
                selected,
                dt.value(),
            );
            &&& r.finite()
            &&& apart(r.value() * unit(), exact) <= (p.grid.value() + 256 * grain(b as int))
                * unit()
        }),
{
    reveal(LoopState::slewed);
    reveal(moved_toward);
    reveal(on_grid);
    lemma_pow2_pos(1074);
    let u = unit() as int;
    let previous = s.requested->0;
    let rise = cap_rise(p, selected);
    lemma_steps_zero(target);
    lemma_steps_zero(previous);
    lemma_steps_zero(s.floor);
    lemma_steps_zero(s.max);
    lemma_gridded_value(target, p.grid, b);
    let gridded = on_grid(p, target);
    lemma_within_value(gridded, s.floor, s.max);
    let desired = s.held(gridded);
    lemma_steps_zero(desired);
    lemma_order_is_numeric(previous, desired);
    lemma_way(rise, dt, b);
    let up = rise.times(dt);
    lemma_plus_error(previous, up);
    let above = previous.plus(up);
    lemma_lesser_value(desired, above);
    let moved = moved_toward(p, desired, previous, selected, dt);
    let g = p.grid.value();
    let gr = grain(b as int);
    lemma_grain_more(b, p.grid.steps());
    lemma_pulled_near(
        gridded.value(),
        target.value(),
        s.floor.value(),
        s.max.value(),
        apart(gridded.value(), target.value()),
    );
    assert(2 * apart(desired.value(), target.value()) <= g + 32 * gr);
    let (uv, wv) = (up.value(), if p.fall_rate.finite() {
        p.fall_rate.times(dt).value()
    } else {
        0
    });
    if p.fall_rate.finite() {
        lemma_way(p.fall_rate, dt, b);
        let down = p.fall_rate.times(dt);
        lemma_minus_error(previous, down);
        lemma_lesser_value(desired, previous.minus(down));
    } else {
        lemma_falls_at_once(desired, previous, p.fall_rate, dt);
    }
    lemma_moved_near(p, desired, previous, target, selected, dt, b);
    lemma_steps_zero(moved);
    lemma_gridded_value(moved, p.grid, 8 * b);
    lemma_within_value(on_grid(p, moved), s.floor, s.max);
    lemma_grain_more(8 * b, p.grid.steps());
    lemma_grain_scaled(b);
    let cap = on_grid(p, moved).value();
    let exact = cap_goes(p, previous.value(), target.value(), selected, dt.value());
    assert(2 * apart(cap * u, moved.value() * u) <= (g + 256 * gr) * u) by (nonlinear_arith)
        requires
            2 * apart(cap, moved.value()) <= g + 256 * gr,
            u > 0,
    ;
    assert(2 * apart(moved.value() * u, exact) <= (g + 32 * gr) * u + 2 * (32 * gr * u));
    let (lo, hi) = (s.floor.value() * u, s.max.value() * u);
    let from = previous.value();
    assert(lo <= from * u <= hi && lo <= target.value() * u <= hi) by (nonlinear_arith)
        requires
            lo == s.floor.value() * u,
            hi == s.max.value() * u,
            s.floor.value() <= from <= s.max.value(),
            s.floor.value() <= target.value() <= s.max.value(),
            u > 0,
    ;
    assert(rise.value() * dt.value() >= 0 && (p.fall_rate.finite() ==> p.fall_rate.value()
        * dt.value() >= 0)) by (nonlinear_arith)
        requires
            rise.value() >= 0,
            p.fall_rate.finite() ==> p.fall_rate.value() >= 0,
            dt.value() >= 0,
    ;
    assert(lo <= exact <= hi);
    lemma_pulled_scaled(cap, s.floor.value(), s.max.value(), u);
    let slack = (g + 256 * gr) * u;
    assert((g + 32 * gr) * u == g * u + 32 * (gr * u) && (g + 256 * gr) * u == g * u + 256 * (gr * u)
        && 32 * gr * u == 32 * (gr * u) && gr * u >= 0) by (nonlinear_arith)
        requires
            gr >= 0,
            u > 0,
    ;
    assert(apart(cap * u, exact) <= slack);
    lemma_pulled_near(cap * u, exact, lo, hi, slack);
}

proof fn lemma_grain_more(b: nat, g: nat)
    requires
        g <= b,
    ensures
        grain((b + g) as int) <= 2 * grain(b as int),
        grain(b as int) >= 0,
{
}

proof fn lemma_grain_scaled(b: nat)
    ensures
        grain(8 * b as int) <= 8 * grain(b as int),
{
}

/// The way of a cap before its second rounding to the grid.
proof fn lemma_moved_near(
    p: Plant,
    desired: Num,
    previous: Num,
    target: Num,
    selected: Selected,
    dt: Num,
    b: nat,
)
    requires
        256 * b <= reach(),
        desired.finite() && previous.finite() && target.finite(),
        desired.steps() <= b && previous.steps() <= b,
        dt.finite() && 0 <= dt.value() <= 2 * unit(),
        cap_rise(p, selected).finite() && 0 < cap_rise(p, selected).value(),
        cap_rise(p, selected).steps() <= b,
        p.grid.value() >= 0,
        p.fall_rate.0 == 0x7ff0_0000_0000_0000 || (p.fall_rate.finite() && p.fall_rate.value() > 0
            && p.fall_rate.steps() <= b),
        2 * apart(desired.value(), target.value()) <= p.grid.value() + 32 * grain(b as int),
    ensures
        ({
            let r = moved_toward(p, desired, previous, selected, dt);
            let exact = cap_goes(p, previous.value(), target.value(), selected, dt.value());
            &&& r.finite()
            &&& r.steps() <= 8 * b
            &&& 2 * apart(r.value() * unit(), exact) <= (p.grid.value() + 32 * grain(b as int))
                * unit() + 2 * (32 * grain(b as int) * unit())
        }),
{
    reveal(moved_toward);
    lemma_pow2_pos(1074);
    let u = unit() as int;
    let k: int = 0x20_0000_0000_0000;
    let h: int = 0x10_0000_0000_0000;
    let rise = cap_rise(p, selected);
    lemma_steps_zero(previous);
    lemma_steps_zero(desired);
    lemma_order_is_numeric(previous, desired);
    lemma_way(rise, dt, b);
    let up = rise.times(dt);
    lemma_plus_error(previous, up);
    let above = previous.plus(up);
    lemma_lesser_value(desired, above);
    let r = moved_toward(p, desired, previous, selected, dt);
    let (d, f, t) = (desired.value(), previous.value(), target.value());
    let gr = grain(b as int);
    let e = gr * u;
    assert(b + k <= gr * k);
    let way = rise.value() * dt.value();
    lemma_bound_near(above.value(), f + up.value(), up.value() * u, way, b as int, gr, u);
    let exact_above = f * u + way;
    assert((f + up.value()) * u == f * u + up.value() * u) by (nonlinear_arith);
    assert(apart(above.value() * u, exact_above) <= 32 * e);
    assert(2 * apart(d * u, t * u) <= (p.grid.value() + 32 * gr) * u) by (nonlinear_arith)
        requires
            2 * apart(d, t) <= p.grid.value() + 32 * gr,
            u > 0,
    ;
    lemma_scaled_order(f, d, u);
    lemma_scaled_order(d, above.value(), u);
    assert(way >= 0) by (nonlinear_arith)
        requires
            way == rise.value() * dt.value(),
            rise.value() >= 0,
            dt.value() >= 0,
    ;
    let total = (p.grid.value() + 32 * gr) * u;
    assert(32 * gr * u == 32 * e) by (nonlinear_arith)
        requires
            e == gr * u,
    ;
    assert(e >= 0) by (nonlinear_arith)
        requires
            e == gr * u,
            gr >= 0,
            u > 0,
    ;
    if p.fall_rate.finite() {
        lemma_way(p.fall_rate, dt, b);
        let down = p.fall_rate.times(dt);
        lemma_minus_error(previous, down);
        let below = previous.minus(down);
        lemma_lesser_value(desired, below);
        lemma_steps_zero(below);
        let fallen = p.fall_rate.value() * dt.value();
        lemma_bound_near(below.value(), f - down.value(), down.value() * u, fallen, b as int, gr, u);
        assert((f - down.value()) * u == f * u - down.value() * u) by (nonlinear_arith);
        assert(apart(below.value() * u, f * u - fallen) <= 32 * e);
        lemma_scaled_order(below.value(), d, u);
        assert(fallen >= 0) by (nonlinear_arith)
            requires
                fallen == p.fall_rate.value() * dt.value(),
                p.fall_rate.value() >= 0,
                dt.value() >= 0,
        ;
        lemma_between(f * u, d * u, t * u, above.value() * u, below.value() * u, way, fallen, total, 32 * e);
        assert(r.value() == if f < d {
            low(d, above.value())
        } else {
            high(d, below.value())
        });
        lemma_steps_zero(r);
    } else {
        lemma_falls_at_once(desired, previous, p.fall_rate, dt);
        assert(r.value() == if f < d {
            low(d, above.value())
        } else {
            d
        });
        lemma_steps_zero(r);
    }
}

/// The choice between a level and the farthest one within the rates.
proof fn lemma_between(
    f: int,
    d: int,
    t: int,
    above: int,
    below: int,
    way: int,
    fallen: int,
    total: int,
    e: int,
)
    requires
        way >= 0 && fallen >= 0 && e >= 0,
        2 * apart(d, t) <= total,
        apart(above, f + way) <= e,
        apart(below, f - fallen) <= e,
    ensures
        ({
            let r = if f < d {
                low(d, above)
            } else {
                high(d, below)
            };
            2 * apart(r, toward(f, t, way, fallen)) <= total + 2 * e
        }),
{
}

proof fn lemma_scaled_order(a: int, b: int, u: int)
    requires
        u > 0,
    ensures
        (a < b) == (a * u < b * u),
        (a <= b) == (a * u <= b * u),
{
    assert((a < b ==> a * u < b * u) && (a >= b ==> a * u >= b * u)) by (nonlinear_arith)
        requires
            u > 0,
    ;
    assert((a <= b ==> a * u <= b * u) && (a > b ==> a * u > b * u)) by (nonlinear_arith)
        requires
            u > 0,
    ;
}

/// A rounded sum with a rounded way, against the exact one.
proof fn lemma_bound_near(sum: int, exact: int, wayu: int, way: int, b: int, gr: int, u: int)
    requires
        u > 0,
        b >= 0,
        apart(sum, exact) * 0x20_0000_0000_0000 <= 8 * b,
        apart(wayu, way) * 0x20_0000_0000_0000 <= u * (2 * b + 0x10_0000_0000_0000),
        b + 0x20_0000_0000_0000 <= gr * 0x20_0000_0000_0000,
    ensures
        apart(sum * u, exact * u) <= 16 * (gr * u),
        apart(wayu, way) <= 16 * (gr * u),
{
    let k: int = 0x20_0000_0000_0000;
    assert(apart(sum, exact) <= 8 * gr);
    assert(apart(sum * u, exact * u) <= 16 * (gr * u)) by (nonlinear_arith)
        requires
            apart(sum, exact) <= 8 * gr,
            gr >= 0,
            u > 0,
    ;
    let w = apart(wayu, way);
    let x = gr * u;
    assert(u * (2 * b + 0x10_0000_0000_0000) <= 2 * (x * k)) by (nonlinear_arith)
        requires
            b + k <= gr * k,
            x == gr * u,
            u > 0,
            b >= 0,
            k == 0x20_0000_0000_0000,
    ;
    assert(x >= 0) by (nonlinear_arith)
        requires
            x == gr * u,
            gr >= 0,
            u > 0,
    ;
}

/// What the movements of a tick can be computed on: bounds and rates at most
/// `b` steps large, and a grid that is not too fine for them.
pub open spec fn movable(s: LoopState, p: Plant, i: TickInput, b: nat) -> bool {
    &&& 256 * b <= reach()
    &&& s.floor.steps() <= b && s.max.steps() <= b
    &&& i.dt_s.finite() && 0 <= i.dt_s.value() <= 2 * unit()
    &&& i.delta_tstar.finite()
    &&& i.shadow_headroom.finite() && 0 < i.shadow_headroom.value() && i.shadow_headroom.steps()
        <= b
    &&& i.shadow_fall_rate.finite() && 0 < i.shadow_fall_rate.value() && i.shadow_fall_rate.steps()
        <= b
    &&& rise_of(p, i.shadow_headroom).finite() && 0 < rise_of(p, i.shadow_headroom).value()
    &&& rise_of(p, i.shadow_headroom).steps() <= b
}

/// What the shadow candidate comes to where it follows the draw.
pub proof fn lemma_shadowed_value(s: LoopState, p: Plant, i: TickInput, b: nat)
    requires
        s.floor.finite() && s.max.finite() && s.floor.value() <= s.max.value(),
        settled_request(s),
        movable(s, p, i, b),
        i.shadow_enabled,
        !s.draw_missing,
        i.draw is Some && i.draw->0.finite() && i.draw->0.steps() <= b,
        error_of(i).finite(),
        error_of(i).value() >= 0 || i.mode == ThermalMode::Bypass,
    ensures
        ({
            let r = s.shadowed(p, i).shadow;
            let u = unit() as int;
            let goal = pulled(
                i.draw->0.value() + i.shadow_headroom.value(),
                s.floor.value(),
                s.max.value(),
            );
            &&& r.finite()
            &&& apart(
                r.value() * u,
                toward(
                    s.shadow.value() * u,
                    goal * u,
                    rise_of(p, i.shadow_headroom).value() * i.dt_s.value(),
                    i.shadow_fall_rate.value() * i.dt_s.value(),
                ),
            ) <= 32 * grain(b as int) * u
        }),
{
    reveal(LoopState::shadowed);
    reveal(LoopState::shadow_goal);
    reveal(draw_target);
    crate::values::lemma_zero();
    lemma_pow2_pos(1074);
    lemma_order_is_numeric(Num(ZERO), error_of(i));
    lemma_order_is_numeric(Num(ZERO), i.shadow_headroom);
    let u = unit() as int;
    let draw = i.draw->0;
    assert(usable_dt(i.dt_s) == i.dt_s) by {
        lemma_usable(i.dt_s);
    }
    lemma_plus_error(draw, i.shadow_headroom);
    let sum = draw.plus(i.shadow_headroom);
    lemma_within_value(sum, s.floor, s.max);
    let target = s.shadow_goal(i);
    assert(target == sum.within(s.floor, s.max));
    lemma_shadow_toward_value(
        s,
        p,
        target,
        i.dt_s,
        i.shadow_headroom,
        i.shadow_fall_rate,
        b,
    );
    let (lo, hi) = (s.floor.value(), s.max.value());
    let exact = draw.value() + i.shadow_headroom.value();
    let goal = pulled(exact, lo, hi);
    let gr = grain(b as int);
    assert(apart(sum.value(), exact) <= 4 * gr);
    lemma_pulled_near(sum.value(), exact, lo, hi, 4 * gr);
    assert(apart(target.value() * u, goal * u) <= 4 * (gr * u)) by (nonlinear_arith)
        requires
            apart(target.value(), goal) <= 4 * gr,
            u > 0,
    ;
    let (up, down) = (
        rise_of(p, i.shadow_headroom).value() * i.dt_s.value(),
        i.shadow_fall_rate.value() * i.dt_s.value(),
    );
    lemma_ways(rise_of(p, i.shadow_headroom).value(), i.shadow_fall_rate.value(), i.dt_s.value(), gr, u);
    lemma_toward_near(s.shadow.value() * u, target.value() * u, up, down, goal * u, up, down, 4 * (gr * u));
}

/// While a regulating tick has a draw and the group is no warmer than its
/// target, the shadow candidate goes toward the draw with its headroom, within
/// the bounds, rising and falling by at most its rates over the time.
pub proof fn lemma_shadow_follows_the_draw(
    s: LoopState,
    p: Plant,
    recent: Seq<(Num, Num)>,
    i: TickInput,
    b: nat,
)
    requires
        regulating(s, i),
        settled_request(s),
        movable(s, p, i, b),
        i.shadow_enabled,
        !s.draw_missing,
        i.draw is Some && i.draw->0.finite() && i.draw->0.steps() <= b,
        error_of(i).value() >= 0,
    ensures
        ({
            let d = s.ticked(p, recent, i).1;
            let u = unit() as int;
            let goal = pulled(
                i.draw->0.value() + i.shadow_headroom.value(),
                s.floor.value(),
                s.max.value(),
            );
            &&& d.shadow.finite()
            &&& apart(
                d.shadow.value() * u,
                toward(
                    s.shadow.value() * u,
                    goal * u,
                    rise_of(p, i.shadow_headroom).value() * i.dt_s.value(),
                    i.shadow_fall_rate.value() * i.dt_s.value(),
                ),
            ) <= 32 * grain(b as int) * u
        }),
{
    lemma_regulating_tick(s, p, recent, i);
    lemma_shadowed_value(s, p, i, b);
}

proof fn lemma_ways(rise: int, fall: int, dt: int, gr: int, u: int)
    requires
        rise >= 0 && fall >= 0 && dt >= 0 && gr >= 0 && u >= 0,
    ensures
        rise * dt >= 0 && fall * dt >= 0 && gr * u >= 0,
        16 * gr * u == 16 * (gr * u),
        32 * gr * u == 32 * (gr * u),
{
    assert(rise * dt >= 0 && fall * dt >= 0 && gr * u >= 0) by (nonlinear_arith)
        requires
            rise >= 0 && fall >= 0 && dt >= 0 && gr >= 0 && u >= 0,
    ;
    assert(16 * gr * u == 16 * (gr * u) && 32 * gr * u == 32 * (gr * u)) by (nonlinear_arith);
}

proof fn lemma_two()
    ensures
        Num(MAX_DT_S).finite() && Num(MAX_DT_S).value() == 2 * unit(),
{
    lemma2_to64();
    lemma2_to64_rest();
    lemma_pow2_adds(51, 1023);
    let p = pow2(1023);
    assert(Num(MAX_DT_S).significand() == 0x10_0000_0000_0000);
    assert(Num(MAX_DT_S).exponent() == 1023);
    assert(0x10_0000_0000_0000 * p == 2 * (0x8_0000_0000_0000 * p)) by (nonlinear_arith);
}

proof fn lemma_minute()
    ensures
        Num(GROUP_UNAVAILABLE_DWELL_S).finite() && Num(GROUP_UNAVAILABLE_DWELL_S).value() == 60
            * unit(),
{
    lemma2_to64();
    lemma2_to64_rest();
    lemma_pow2_adds(47, 1027);
    let p = pow2(1027);
    assert(Num(GROUP_UNAVAILABLE_DWELL_S).significand() == 0x1e_0000_0000_0000);
    assert(Num(GROUP_UNAVAILABLE_DWELL_S).exponent() == 1027);
    assert(0x1e_0000_0000_0000 * p == 60 * (0x8000_0000_0000 * p)) by (nonlinear_arith);
}

proof fn lemma_usable(dt: Num)
    requires
        dt.finite() && 0 <= dt.value() <= 2 * unit(),
    ensures
        usable_dt(dt) == dt,
{
    crate::values::lemma_zero();
    lemma_order_is_numeric(Num(ZERO), dt);
    lemma_two();
    lemma_order_is_numeric(Num(MAX_DT_S), dt);
    reveal(Num::lesser);
}

/// Without a draw the shadow candidate stays where it is for a minute; from
/// then on it goes toward the highest cap.
pub proof fn lemma_shadow_waits_for_the_draw(
    s: LoopState,
    p: Plant,
    recent: Seq<(Num, Num)>,
    i: TickInput,
    b: nat,
)
    requires
        regulating(s, i),
        settled_request(s),
        movable(s, p, i, b),
        i.shadow_enabled,
        i.draw is None,
        s.draw_missing_s.finite(),
    ensures
        ({
            let d = s.ticked(p, recent, i).1;
            let u = unit() as int;
            let missing = s.draw_missing_s.value() + i.dt_s.value();
            &&& forall|z: Num|
                z.finite() && missing <= #[trigger] z.value() < 60 * unit() ==> d.shadow == s.shadow
            &&& missing >= 60 * unit() ==> d.shadow.finite() && apart(
                d.shadow.value() * u,
                toward(
                    s.shadow.value() * u,
                    s.max.value() * u,
                    rise_of(p, i.shadow_headroom).value() * i.dt_s.value(),
                    i.shadow_fall_rate.value() * i.dt_s.value(),
                ),
            ) <= 16 * grain(b as int) * u
        }),
{
    lemma_regulating_tick(s, p, recent, i);
    reveal(LoopState::shadowed);
    lemma_usable(i.dt_s);
    lemma_minute();
    let sum = s.draw_missing_s.plus(i.dt_s);
    let wait = Num(GROUP_UNAVAILABLE_DWELL_S);
    lemma_pow2_pos(1074);
    lemma_shadow_toward_value(
        s,
        p,
        s.max,
        i.dt_s,
        i.shadow_headroom,
        i.shadow_fall_rate,
        b,
    );
    crate::values::lemma_sum_side(s.draw_missing_s, i.dt_s, wait);
    assert forall|z: Num|
        z.finite() && s.draw_missing_s.value() + i.dt_s.value() <= #[trigger] z.value() < 60
            * unit() implies s.ticked(p, recent, i).1.shadow == s.shadow by {
        crate::values::lemma_sum_side(s.draw_missing_s, i.dt_s, z);
        lemma_order_is_numeric(z, wait);
        reveal(Num::le);
        reveal(Num::lt);
    }
}

/// The cap of a regulating tick goes toward the lower candidate, by at most the
/// device's rates over the time, and stays within a step of its grid of where
/// that leads. The GPU's cap rises faster behind its shadow candidate.
pub proof fn lemma_cap_follows_the_lower_candidate(
    s: LoopState,
    p: Plant,
    recent: Seq<(Num, Num)>,
    i: TickInput,
    b: nat,
)
    requires
        regulating(s, i),
        settled_request(s),
        movable(s, p, i, b),
        p.grid.finite() && p.grid.value() > 0 && p.grid.steps() <= b,
        8 * b <= 0x1_0000_0000 * p.grid.steps(),
        p.rise_rate.finite() && 0 < p.rise_rate.value() && p.rise_rate.steps() <= b,
        p.fall_rate.0 == 0x7ff0_0000_0000_0000 || (p.fall_rate.finite() && p.fall_rate.value() > 0
            && p.fall_rate.steps() <= b),
        300 * unit() <= b,
        s.ticked(p, recent, i).0.thermal.finite(),
        s.ticked(p, recent, i).0.shadow.finite(),
        s.floor.value() <= s.ticked(p, recent, i).0.thermal.value() <= s.max.value(),
        s.floor.value() <= s.ticked(p, recent, i).0.shadow.value() <= s.max.value(),
    ensures
        ({
            let (t, d) = s.ticked(p, recent, i);
            let (th, sh) = (t.thermal.value(), t.shadow.value());
            let follows_shadow = s.floor.value() < sh < th;
            let exact = cap_goes(
                p,
                s.requested->0.value(),
                low(th, sh),
                if follows_shadow {
                    Selected::Shadow
                } else {
                    Selected::Thermal
                },
                i.dt_s.value(),
            );
            &&& d.thermal == t.thermal && d.shadow == t.shadow && t.requested == Some(d.cap)
            &&& d.cap.finite()
            &&& apart(d.cap.value() * unit(), exact) <= (p.grid.value() + 256 * grain(b as int))
                * unit()
        }),
{
    lemma_regulating_tick(s, p, recent, i);
    let t = s.ticked(p, recent, i).0;
    reveal(selection);
    lemma_within_value(t.thermal, s.floor, s.max);
    lemma_within_value(t.shadow, s.floor, s.max);
    let (a, c) = (t.thermal.within(s.floor, s.max), t.shadow.within(s.floor, s.max));
    lemma_lesser_value(a, c);
    let lower = a.lesser(c);
    lemma_order_is_numeric(lower, s.floor);
    lemma_order_is_numeric(lower, s.max);
    lemma_order_is_numeric(a, c);
    let selected = selection(t.thermal, t.shadow, s.floor, s.max).1;
    lemma_three_hundred();
    lemma_steps_zero(Num(GPU_SHADOW_RISE_RATE));
    lemma_cap_goes_to_its_target(s, p, lower, selected, i.dt_s, b);
}

proof fn lemma_three_hundred()
    ensures
        Num(GPU_SHADOW_RISE_RATE).finite() && Num(GPU_SHADOW_RISE_RATE).value() == 300 * unit(),
{
    lemma2_to64();
    lemma2_to64_rest();
    lemma_pow2_adds(44, 1030);
    lemma_pow2_pos(1030);
    let p = pow2(1030);
    assert(Num(GPU_SHADOW_RISE_RATE).significand() == 0x12_c000_0000_0000);
    assert(Num(GPU_SHADOW_RISE_RATE).exponent() == 1030);
    assert(0x12_c000_0000_0000 * p == 300 * (0x1000_0000_0000 * p)) by (nonlinear_arith);
}

/// A draw that comes back after it was missing has the shadow candidate start
/// from the cap in force: the one applied, else the one decided. A shadow
/// candidate that is switched off is the highest cap.
pub proof fn lemma_returning_draw_starts_from_the_cap(
    s: LoopState,
    p: Plant,
    recent: Seq<(Num, Num)>,
    i: TickInput,
)
    requires
        regulating(s, i),
        settled_request(s),
        i.dt_s.finite() && 0 <= i.dt_s.value() <= 2 * unit(),
        i.delta_tstar.finite(),
        s.last_applied is Some ==> s.last_applied->0.finite(),
    ensures
        ({
            let d = s.ticked(p, recent, i).1;
            let cap = if s.last_applied is Some {
                s.last_applied->0.value()
            } else {
                s.requested->0.value()
            };
            let back = i.draw is Some && s.draw_missing;
            &&& back ==> d.shadow.finite() && d.shadow.value() == pulled(
                cap,
                s.floor.value(),
                s.max.value(),
            )
            &&& !back && !i.shadow_enabled ==> d.shadow == s.max
        }),
{
    lemma_regulating_tick(s, p, recent, i);
    reveal(LoopState::shadowed);
    lemma_within_value(
        crate::device_loop::first_of(s.last_applied, s.requested, s.shadow),
        s.floor,
        s.max,
    );
}

} // verus!
