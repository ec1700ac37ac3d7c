//! That a device loop fed with numbers decides numbers.

use crate::device_loop::laws::{
    after_run, boxed, keeps, lemma_bounded, lemma_boxed, lemma_noted, lemma_ordered, lemma_regained,
    lemma_shadowed, lemma_tick_stays_in_bounds,
};
use crate::device_loop::{
    bounds_of, error_of, first_of, if_finite, if_positive, moved_toward, on_grid,
    peak_draw, selection, trimmed, usable_dt, DeviceDecision, DeviceUnit, Gains, LoopState, Mhz,
    Plant, Selected, ThermalMode, TickInput, CPU_GRID, GPU_SHADOW_RISE_RATE,
    MAX_PI_ELAPSED_S, W,
};
use crate::num::{Num, ZERO};
use crate::order::{
    lemma_over_monotone, lemma_plus_nan, lemma_rounded_monotone, lemma_times_monotone,
};
use crate::precision::{lemma_over_below, lemma_times_below};
use vstd::arithmetic::power2::pow2;
use vstd::prelude::*;

verus! {

/// A value that may not be there is a number if it is.
pub open spec fn numbered(x: Option<Num>) -> bool {
    x matches Some(n) ==> !n.nan()
}

/// Everything that a cap can come from is a number.
pub open spec fn numeric(s: LoopState) -> bool {
    &&& !s.thermal.nan()
    &&& !s.shadow.nan()
    &&& numbered(s.requested)
    &&& numbered(s.last_applied)
    &&& !s.e_prev.nan()
    &&& Num(ZERO).le(s.elapsed_s)
}

/// The actuator has a grid, and the headroom of a hot episode is a number.
pub open spec fn usable(p: Plant) -> bool {
    p.grid.finite() && Num(ZERO).lt(p.grid) && !p.hot_headroom.nan()
}

/// The longest integral step that an error can lead to.
pub open spec fn longest_step(g: Gains, error: Num) -> Num {
    g.kc.times(Num(MAX_PI_ELAPSED_S)).over(g.ti_s).times(error)
}

/// An input that a loop can compute on: the error is finite and so is the
/// longest step that it leads to, and a draw is a number. Times, bounds, rates,
/// headrooms and moves of the target may be anything.
pub open spec fn fair(g: Gains, i: TickInput) -> bool {
    &&& i.group_c is Some ==> error_of(i).finite() && longest_step(g, error_of(i)).finite()
    &&& numbered(i.draw)
}

/// The draws of a history are finite.
pub open spec fn finite_draws(recent: Seq<(Num, Num)>) -> bool {
    forall|k: int| 0 <= k < recent.len() ==> (#[trigger] recent[k]).1.finite()
}

/// A tick whose state, cap and candidates are numbers.
pub open spec fn tells_numbers(out: (LoopState, DeviceDecision)) -> bool {
    &&& numeric(out.0)
    &&& !out.1.cap.nan()
    &&& !out.1.thermal.nan()
    &&& !out.1.shadow.nan()
}

proof fn lemma_chosen(a: Num, b: Num, c: Num)
    requires
        !a.nan(),
    ensures
        !a.lesser(b).nan(),
        !a.greater(b).nan(),
        !a.within(b, c).nan(),
{
    reveal(Num::lesser);
    reveal(Num::greater);
    reveal(Num::within);
    reveal(Num::lt);
}

proof fn lemma_gridded(p: Plant, x: Num)
    requires
        usable(p),
        !x.nan(),
    ensures
        !on_grid(p, x).nan(),
{
    reveal(on_grid);
    reveal(Num::le);
    lemma_over_monotone(x, x, p.grid);
    lemma_rounded_monotone(x.over(p.grid), x.over(p.grid));
    lemma_times_monotone(x.over(p.grid).rounded(), x.over(p.grid).rounded(), p.grid);
}

proof fn lemma_slewed_number(
    s: LoopState,
    p: Plant,
    target: Num,
    selected: Selected,
    dt: Num,
    at_once: bool,
)
    requires
        usable(p),
        !target.nan(),
    ensures
        !s.slewed(p, target, selected, dt, at_once).nan(),
{
    reveal(LoopState::slewed);
    reveal(moved_toward);
    lemma_gridded(p, target);
    let desired = s.held(on_grid(p, target));
    lemma_chosen(on_grid(p, target), s.floor, s.max);
    if let Some(previous) = s.requested {
        let rise = if selected == Selected::Shadow && p.grid.same(Num(crate::num::ONE)) {
            Num(GPU_SHADOW_RISE_RATE)
        } else {
            p.rise_rate
        };
        lemma_chosen(desired, previous.plus(rise.times(dt)), desired);
        lemma_chosen(desired, previous.minus(p.fall_rate.times(dt)), desired);
        let moved = moved_toward(p, desired, previous, selected, dt);
        lemma_gridded(p, moved);
        lemma_chosen(on_grid(p, moved), s.floor, s.max);
    }
}

proof fn lemma_selected_number(thermal: Num, shadow: Num, floor: Num, max: Num)
    requires
        !thermal.nan(),
        !shadow.nan(),
    ensures
        !selection(thermal, shadow, floor, max).0.nan(),
{
    reveal(selection);
    lemma_chosen(thermal, floor, max);
    lemma_chosen(shadow, floor, max);
    lemma_chosen(thermal.within(floor, max), shadow.within(floor, max), max);
}

/// The bounds in force are finite, and everything is a number within them.
spec fn ready(s: LoopState) -> bool {
    &&& s.wf()
    &&& s.floor.finite()
    &&& s.max.finite()
    &&& boxed(s)
    &&& numeric(s)
}

proof fn lemma_ready_is_finite(s: LoopState)
    requires
        ready(s),
    ensures
        s.thermal.finite(),
        s.shadow.finite(),
        !s.in_force().nan(),
{
    reveal(Num::le);
    lemma_chosen(first_of(s.last_applied, s.requested, s.max), s.floor, s.max);
}

proof fn lemma_clamped_numbers(s: LoopState)
    requires
        numeric(s),
    ensures
        numeric(s.clamped()),
{
    reveal(LoopState::clamped);
    lemma_chosen(s.thermal, s.floor, s.max);
    lemma_chosen(s.shadow, s.floor, s.max);
    if let Some(r) = s.requested {
        lemma_chosen(r, s.floor, s.max);
    }
}

proof fn lemma_capped_numbers(s: LoopState, max: Num)
    requires
        numeric(s),
    ensures
        numeric(s.capped(max)),
{
    reveal(LoopState::capped);
    reveal(Num::lt);
}

proof fn lemma_bounded_numbers(s: LoopState, i: TickInput)
    requires
        s.wf(),
        numeric(s),
    ensures
        ready(s.bounded(i)),
{
    reveal(LoopState::bounded);
    lemma_bounded(s, i);
    lemma_boxed(s, i);
    lemma_ordered(i.floor, i.max);
    let (floor, max) = bounds_of(i.floor, i.max);
    if !s.bounds_initialised {
        lemma_clamped_numbers(LoopState { floor, max, bounds_initialised: true, ..s });
    } else {
        let lowered = LoopState { floor, ..s };
        let c = if max.lt(s.max) {
            lowered.capped(max)
        } else {
            LoopState { max, ..lowered }
        };
        lemma_capped_numbers(lowered, max);
        lemma_clamped_numbers(c);
    }
}

proof fn lemma_resume_numbers(s: LoopState, i: TickInput)
    requires
        ready(s),
        i.group_c is Some ==> error_of(i).finite(),
    ensures
        tells_numbers(s.resume_tick(i)),
{
    reveal(LoopState::resume_tick);
    reveal(LoopState::decided);
    reveal(Num::le);
    lemma_ready_is_finite(s);
}

proof fn lemma_missing_numbers(s: LoopState, p: Plant, i: TickInput)
    requires
        ready(s),
        usable(p),
    ensures
        tells_numbers(s.missing_tick(p, i)),
{
    reveal(LoopState::missing_tick);
    reveal(LoopState::decided);
    reveal(Num::le);
    let m = s.missing(p, i);
    let cap = if m.group_lost {
        m.max
    } else {
        first_of(m.last_applied, None, m.max)
    };
    lemma_gridded(p, s.max);
    lemma_gridded(p, cap);
    lemma_chosen(on_grid(p, cap), m.floor, m.max);
}

proof fn lemma_goal_number(s: LoopState, i: TickInput)
    requires
        s.max.finite(),
        numbered(i.draw),
    ensures
        !s.shadow_goal(i).nan(),
{
    reveal(LoopState::shadow_goal);
    if let Some(d) = i.draw {
        let sum = d.plus(if_positive(i.shadow_headroom));
        lemma_plus_nan(d, if_positive(i.shadow_headroom));
        lemma_chosen(sum, s.floor, s.max);
    }
}

proof fn lemma_regained_numbers(s: LoopState, p: Plant, i: TickInput, ended: bool)
    requires
        ready(s),
        usable(p),
        fair(s.gains, i),
        i.group_c is Some,
    ensures
        ready(s.regained(p, i, ended)),
{
    lemma_regained(s, p, i, ended);
    reveal(LoopState::regained);
    reveal(Num::le);
    lemma_goal_number(s, i);
    lemma_gridded(p, s.max);
}

proof fn lemma_mismatch_numbers(s: LoopState, i: TickInput)
    requires
        ready(s),
    ensures
        tells_numbers(s.mismatch_tick(i)),
{
    reveal(LoopState::mismatch_tick);
    reveal(LoopState::decided);
    reveal(Num::le);
    lemma_chosen(first_of(s.requested, None, s.max), s.floor, s.max);
}

proof fn lemma_mode_numbers(s: LoopState, p: Plant, i: TickInput)
    requires
        ready(s),
        usable(p),
        error_of(i).finite(),
    ensures
        tells_numbers(s.mode_tick(p, i)),
{
    reveal(LoopState::mode_tick);
    reveal(LoopState::decided);
    reveal(LoopState::controlled);
    reveal(LoopState::requesting);
    reveal(LoopState::shadow_at);
    reveal(LoopState::regulating_at);
    reveal(Num::le);
    lemma_ready_is_finite(s);
    lemma_chosen(s.in_force(), s.floor, s.max);
    lemma_gridded(p, s.in_force());
}

proof fn lemma_peak_is_finite(recent: Seq<(Num, Num)>)
    requires
        finite_draws(recent),
    ensures
        peak_draw(recent).finite(),
    decreases recent.len(),
{
    if recent.len() > 0 {
        lemma_peak_is_finite(recent.drop_last());
        reveal(Num::greater);
    }
}

proof fn lemma_ceiling_number(s: LoopState, p: Plant, recent: Seq<(Num, Num)>, i: TickInput)
    requires
        usable(p),
        finite_draws(recent),
    ensures
        !s.hot_ceiling(p, recent, i).nan(),
{
    reveal(LoopState::hot_ceiling);
    let room = p.hot_headroom.lesser(i.shadow_headroom);
    lemma_peak_is_finite(recent);
    lemma_chosen(p.hot_headroom, i.shadow_headroom, room);
    lemma_plus_nan(peak_draw(recent), room);
    lemma_chosen(peak_draw(recent).plus(room), s.floor, s.max);
}

proof fn lemma_trim_numbers(s: LoopState, p: Plant, recent: Seq<(Num, Num)>, i: TickInput)
    requires
        ready(s),
        usable(p),
        finite_draws(recent),
        error_of(i).finite(),
    ensures
        tells_numbers(s.trim_tick(p, recent, i)),
{
    let thermal = s.trim_level(p, recent, i);
    assert(!thermal.nan()) by {
        reveal(LoopState::trim_level);
        lemma_chosen(s.thermal, s.in_force(), s.max);
        lemma_chosen(s.thermal.lesser(s.in_force()), s.hot_ceiling(p, recent, i), s.max);
    }
    lemma_ready_is_finite(s);
    let t = s.trimmed_to(thermal, error_of(i));
    reveal(LoopState::trimmed_to);
    lemma_chosen(thermal, s.floor, s.max);
    let (target, selected) = selection(thermal, t.shadow, t.floor, t.max);
    lemma_selected_number(thermal, t.shadow, t.floor, t.max);
    lemma_slewed_number(t, p, target, selected, usable_dt(i.dt_s), false);
    reveal(LoopState::trim_tick);
    reveal(LoopState::decided);
    reveal(Num::le);
}

proof fn lemma_hot_numbers(
    s: LoopState,
    p: Plant,
    recent: Seq<(Num, Num)>,
    i: TickInput,
    resynced: bool,
)
    requires
        ready(s),
        usable(p),
        finite_draws(recent),
        numbered(i.draw),
        error_of(i).finite(),
    ensures
        tells_numbers(s.hot_tick(p, recent, i, resynced)),
{
    let start = s.hot_start(i);
    assert(!start.nan()) by {
        reveal(LoopState::hot_start);
        lemma_chosen(first_of(s.last_applied, s.requested, s.shadow), s.floor, s.max);
        lemma_chosen(s.shadow, s.floor, s.max);
        if let Some(cap) = s.last_applied {
            lemma_chosen(cap, s.floor, s.max);
        }
        lemma_goal_number(s, i);
    }
    let level = s.hot_level(p, recent, i, resynced);
    assert(!level.nan()) by {
        reveal(LoopState::hot_level);
        lemma_chosen(start, s.hot_ceiling(p, recent, i), s.max);
    }
    let cap = s.hot_cap(p, recent, i, resynced);
    assert(!cap.nan()) by {
        reveal(LoopState::hot_cap);
        lemma_slewed_number(
            LoopState { requested: Some(start), ..s },
            p,
            level,
            Selected::Thermal,
            usable_dt(i.dt_s),
            false,
        );
    }
    lemma_gridded(p, cap);
    reveal(LoopState::hot_tick);
    reveal(LoopState::hot_state);
    reveal(LoopState::decided);
    reveal(LoopState::controlled);
    reveal(Num::le);
}

proof fn lemma_toward_number(s: LoopState, p: Plant, target: Num, dt: Num, i: TickInput)
    requires
        ready(s),
        target.finite(),
    ensures
        !s.shadow_toward(p, target, dt, i.shadow_headroom, i.shadow_fall_rate).nan(),
{
    reveal(LoopState::shadow_toward);
    lemma_ready_is_finite(s);
    let delta = target.minus(s.shadow);
    assert(!delta.nan()) by {
        reveal(Num::minus);
        lemma_plus_nan(target, s.shadow.opposite());
    }
    let step = if Num(ZERO).le(delta) {
        (if p.grid.same(Num(CPU_GRID)) {
            if_positive(i.shadow_headroom)
        } else {
            Num(GPU_SHADOW_RISE_RATE)
        }).times(dt)
    } else {
        if_positive(i.shadow_fall_rate).times(dt)
    };
    let moved = delta.within(step.opposite(), step);
    lemma_chosen(delta, step.opposite(), step);
    lemma_plus_nan(s.shadow, moved);
    lemma_chosen(s.shadow.plus(moved), s.floor, s.max);
}

proof fn lemma_shadowed_numbers(s: LoopState, p: Plant, i: TickInput)
    requires
        ready(s),
        numbered(i.draw),
    ensures
        ready(s.shadowed(p, i)),
{
    let dt = usable_dt(i.dt_s);
    lemma_shadowed(s, p, i);
    lemma_chosen(first_of(s.last_applied, s.requested, s.shadow), s.floor, s.max);
    lemma_toward_number(s, p, s.max, dt, i);
    lemma_goal_number(s, i);
    let goal = s.shadow_goal(i);
    assert(goal.finite()) by {
        crate::device_loop::laws::lemma_goal(s, i);
        reveal(Num::le);
    }
    lemma_toward_number(s, p, goal, dt, i);
    reveal(LoopState::shadowed);
    reveal(Num::le);
}

/// A shorter time makes a shorter step.
proof fn lemma_step_is_finite(g: Gains, elapsed: Num, error: Num)
    requires
        g.valid(),
        Num(ZERO).le(elapsed),
        elapsed.le(Num(MAX_PI_ELAPSED_S)),
        error.finite(),
        longest_step(g, error).finite(),
    ensures
        g.kc.times(elapsed).over(g.ti_s).times(error).finite(),
{
    let most = Num(MAX_PI_ELAPSED_S);
    let zero = Num(ZERO);
    let (kc, ti) = (g.kc, g.ti_s);
    crate::order::lemma_times_commutes(kc, elapsed);
    crate::order::lemma_times_commutes(kc, most);
    crate::order::lemma_times_commutes(kc, zero);
    lemma_times_monotone(zero, elapsed, kc);
    lemma_times_monotone(elapsed, most, kc);
    lemma_over_monotone(kc.times(zero), kc.times(elapsed), ti);
    lemma_over_monotone(kc.times(elapsed), kc.times(most), ti);
    let (a, b, c) = (
        kc.times(zero).over(ti),
        kc.times(elapsed).over(ti),
        kc.times(most).over(ti),
    );
    assert(a.key() == 0 && !a.nan()) by {
        crate::budget::lemma_times_nothing(kc, zero);
        lemma_nothing_over(kc.times(zero), ti);
    }
    crate::order::lemma_times_commutes(b, error);
    crate::order::lemma_times_commutes(c, error);
    reveal(Num::le);
    reveal(Num::lt);
    if error.key() > 0 {
        crate::budget::lemma_times_nothing(error, a);
        crate::order::lemma_times_commutes(a, error);
        lemma_times_monotone(a, b, error);
        lemma_times_monotone(b, c, error);
    } else if error.key() < 0 {
        let e = error.opposite();
        crate::budget::lemma_times_nothing(e, a);
        crate::order::lemma_times_commutes(a, e);
        lemma_times_monotone(a, b, e);
        lemma_times_monotone(b, c, e);
        lemma_times_opposite(b, error);
        lemma_times_opposite(c, error);
    } else {
        assert(c.finite()) by {
            reveal(Num::times);
        }
        crate::budget::lemma_times_nothing(b, error);
    }
}

proof fn lemma_nothing_over(z: Num, d: Num)
    requires
        z.magnitude() == 0,
        d.finite(),
        Num(ZERO).lt(d),
    ensures
        z.over(d).magnitude() == 0,
{
    reveal(Num::over);
    reveal(Num::lt);
    crate::order::lemma_steps_zero(z);
    crate::order::lemma_steps_zero(d);
    assert(z.steps() * crate::num::unit() == 0) by (nonlinear_arith)
        requires
            z.steps() == 0,
    ;
    crate::order::lemma_round_zero_over(d.steps());
}

proof fn lemma_times_opposite(a: Num, b: Num)
    requires
        !a.nan(),
        b.finite(),
        b.magnitude() > 0,
    ensures
        a.times(b).magnitude() == a.times(b.opposite()).magnitude(),
{
    reveal(Num::times);
    assert(b.opposite().magnitude() == b.magnitude());
    assert(b.opposite().steps() == b.steps());
    let u = crate::num::unit();
    let n = crate::rounding::round_magnitude(a.steps() * b.steps(), u);
    assert(n <= 0x7ff0_0000_0000_0000);
}

proof fn lemma_times_number(a: Num, b: Num)
    requires
        a.finite(),
        Num(ZERO).lt(a),
        !b.nan(),
    ensures
        !a.times(b).nan(),
{
    reveal(Num::lt);
    reveal(Num::times);
    crate::order::lemma_steps_zero(a);
}

proof fn lemma_integrated_numbers(s: LoopState, error: Num)
    requires
        ready(s),
        s.gains.valid(),
        error.finite(),
        longest_step(s.gains, error).finite(),
    ensures
        numeric(s.integrated(error)),
{
    lemma_ready_is_finite(s);
    let elapsed = s.elapsed_s.lesser(Num(MAX_PI_ELAPSED_S));
    assert(Num(ZERO).le(elapsed) && elapsed.le(Num(MAX_PI_ELAPSED_S))) by {
        reveal(Num::le);
        reveal(Num::lt);
        reveal(Num::lesser);
    }
    lemma_step_is_finite(s.gains, elapsed, error);
    let change = error.minus(s.e_prev);
    assert(!change.nan()) by {
        reveal(Num::minus);
        lemma_plus_nan(error, s.e_prev.opposite());
    }
    lemma_times_number(s.gains.kc, change);
    let proportional = s.gains.kc.times(change);
    let integral = s.gains.kc.times(elapsed).over(s.gains.ti_s).times(error);
    let first = s.thermal.plus(proportional);
    lemma_plus_nan(s.thermal, proportional);
    lemma_plus_nan(first, integral);
    lemma_plus_nan(first, Num(ZERO));
    lemma_chosen(first.plus(integral), s.floor, s.max);
    lemma_chosen(first.plus(Num(ZERO)), s.floor, s.max);
    reveal(LoopState::integrated);
    reveal(Num::le);
}

proof fn lemma_regulated_numbers(s: LoopState, i: TickInput, resynced: bool)
    requires
        ready(s),
        s.gains.valid(),
        error_of(i).finite(),
        longest_step(s.gains, error_of(i)).finite(),
    ensures
        numeric(s.regulated(i, resynced)),
{
    let dt = usable_dt(i.dt_s);
    assert(Num(ZERO).le(dt)) by {
        reveal(Num::le);
        reveal(Num::lt);
        reveal(Num::lesser);
    }
    let t = LoopState {
        e_prev: if resynced {
            s.e_prev
        } else {
            s.e_prev.plus(if_finite(i.delta_tstar))
        },
        elapsed_s: s.elapsed_s.plus(dt),
        ..s
    };
    lemma_plus_nan(s.e_prev, if_finite(i.delta_tstar));
    assert(Num(ZERO).le(t.elapsed_s)) by {
        reveal(Num::le);
        lemma_plus_nan(s.elapsed_s, dt);
        crate::order::lemma_plus_grows(s.elapsed_s, dt);
    }
    lemma_integrated_numbers(t, error_of(i));
    reveal(LoopState::regulated);
}

proof fn lemma_ordinary_numbers(s: LoopState, p: Plant, i: TickInput, resynced: bool, at_once: bool)
    requires
        ready(s),
        usable(p),
        s.gains.valid(),
        numbered(i.draw),
        error_of(i).finite(),
        longest_step(s.gains, error_of(i)).finite(),
    ensures
        tells_numbers(s.ordinary_tick(p, i, resynced, at_once)),
{
    let r = s.rearmed(i);
    assert(ready(r) && r.gains == s.gains) by {
        reveal(LoopState::rearmed);
    }
    lemma_shadowed(r, p, i);
    lemma_shadowed_numbers(r, p, i);
    let h = r.shadowed(p, i);
    lemma_regulated_numbers(h, i, resynced);
    crate::device_loop::laws::lemma_regulated(h, i, resynced);
    let m = h.regulated(i, resynced);
    let thermal = if i.mode == ThermalMode::Bypass {
        m.max
    } else {
        m.thermal
    };
    let (target, selected) = selection(thermal, m.shadow, m.floor, m.max);
    lemma_selected_number(thermal, m.shadow, m.floor, m.max);
    lemma_slewed_number(m, p, target, selected, usable_dt(i.dt_s), at_once);
    reveal(LoopState::ordinary_tick);
    reveal(LoopState::decided);
    reveal(LoopState::controlled);
    reveal(LoopState::requesting);
}

proof fn lemma_control_numbers(
    s: LoopState,
    p: Plant,
    recent: Seq<(Num, Num)>,
    i: TickInput,
    resynced: bool,
    at_once: bool,
)
    requires
        ready(s),
        usable(p),
        s.gains.valid(),
        finite_draws(recent),
        fair(s.gains, i),
        i.group_c is Some,
    ensures
        tells_numbers(s.control_tick(p, recent, i, resynced, at_once)),
{
    let t = s.trim_settled(s.trim_due(recent, resynced));
    assert(ready(t) && t.gains == s.gains) by {
        reveal(LoopState::trim_settled);
    }
    lemma_mode_numbers(s, p, i);
    lemma_trim_numbers(s, p, recent, i);
    lemma_hot_numbers(t, p, recent, i, resynced);
    lemma_ordinary_numbers(t, p, i, resynced, at_once);
    reveal(LoopState::control_tick);
}

proof fn lemma_trimmed_draws(recent: Seq<(Num, Num)>, cut: Num)
    requires
        finite_draws(recent),
    ensures
        finite_draws(trimmed(recent, cut)),
    decreases recent.len(),
{
    if recent.len() > 1 && recent[1].0.le(cut) {
        assert forall|k: int| 0 <= k < recent.skip(1).len() implies (#[trigger] recent.skip(
            1,
        )[k]).1.finite() by {
            assert(recent[k + 1].1.finite());
        }
        lemma_trimmed_draws(recent.skip(1), cut);
    }
}

proof fn lemma_history_is_finite(s: LoopState, recent: Seq<(Num, Num)>, i: TickInput)
    requires
        finite_draws(recent),
    ensures
        finite_draws(s.history_after(recent, i)),
{
    reveal(LoopState::history);
    let c = s.clocked(i);
    if let Some(d) = i.draw {
        if d.finite() {
            let more = recent.push((c.draw_clock_s, d));
            assert(finite_draws(more));
            lemma_trimmed_draws(
                more,
                c.draw_clock_s.minus(Num(crate::device_loop::DRAW_HISTORY_S)),
            );
        }
    }
}

proof fn lemma_tick_numbers(s: LoopState, p: Plant, recent: Seq<(Num, Num)>, i: TickInput)
    requires
        s.wf(),
        numeric(s),
        usable(p),
        s.gains.valid(),
        finite_draws(recent),
        fair(s.gains, i),
    ensures
        tells_numbers(s.ticked(p, recent, i)),
        finite_draws(s.history_after(recent, i)),
{
    lemma_history_is_finite(s, recent, i);
    let history = s.history_after(recent, i);
    let c = s.clocked(i);
    lemma_bounded_numbers(c, i);
    lemma_bounded(c, i);
    let b = c.bounded(i);
    lemma_noted(b, i);
    let n = b.noted(i);
    assert(ready(n)) by {
        reveal(LoopState::noted);
    }
    lemma_resume_numbers(n, i);
    lemma_missing_numbers(n, p, i);
    if i.group_c is Some {
        let ended = c.mismatch_ends(i);
        lemma_regained_numbers(n, p, i, ended);
        lemma_regained(n, p, i, ended);
        let g = n.regained(p, i, ended);
        lemma_mismatch_numbers(g, i);
        lemma_control_numbers(
            g,
            p,
            history,
            i,
            n.resyncs(ended),
            c.floor_changes(i) || c.max_lowers_request(i),
        );
    }
    reveal(LoopState::advanced);
}

/// The cap and both candidates of a decision are numbers within the bounds of
/// its tick.
pub open spec fn strictly_bounded(d: DeviceDecision, i: TickInput) -> bool {
    let (floor, max) = bounds_of(i.floor, i.max);
    &&& floor.le(d.cap) && d.cap.le(max)
    &&& floor.le(d.thermal) && d.thermal.le(max)
    &&& floor.le(d.shadow) && d.shadow.le(max)
}

/// A loop that holds numbers and computes on a fair input decides a cap and
/// two candidates that are numbers within the bounds, and holds numbers again,
/// whatever kind of tick it is.
pub proof fn lemma_numbers_stay_numbers(
    s: LoopState,
    p: Plant,
    recent: Seq<(Num, Num)>,
    i: TickInput,
)
    requires
        s.wf(),
        numeric(s),
        usable(p),
        s.gains.valid(),
        finite_draws(recent),
        fair(s.gains, i),
    ensures
        strictly_bounded(s.ticked(p, recent, i).1, i),
        s.ticked(p, recent, i).0.wf(),
        numeric(s.ticked(p, recent, i).0),
        s.ticked(p, recent, i).0.gains == s.gains,
        finite_draws(s.history_after(recent, i)),
{
    lemma_tick_numbers(s, p, recent, i);
    lemma_tick_stays_in_bounds(s, p, recent, i);
}

/// So does every tick of a run, whatever the bounds, modes, read-backs, gaps
/// and resumes on the way were.
pub proof fn lemma_numbers_stay_numbers_in_a_run(
    s: LoopState,
    p: Plant,
    recent: Seq<(Num, Num)>,
    run: Seq<TickInput>,
    i: TickInput,
)
    requires
        s.wf(),
        numeric(s),
        usable(p),
        s.gains.valid(),
        finite_draws(recent),
        forall|k: int| 0 <= k < run.len() ==> fair(s.gains, #[trigger] run[k]),
        fair(s.gains, i),
    ensures
        ({
            let (t, r) = after_run(s, p, recent, run);
            &&& strictly_bounded(t.ticked(p, r, i).1, i)
            &&& t.wf()
            &&& numeric(t)
            &&& t.gains == s.gains
            &&& finite_draws(r)
        }),
    decreases run.len(),
{
    if run.len() > 0 {
        assert(fair(s.gains, run[run.len() - 1]));
        lemma_numbers_stay_numbers_in_a_run(s, p, recent, run.drop_last(), run.last());
        let (t, r) = after_run(s, p, recent, run.drop_last());
        lemma_numbers_stay_numbers(t, p, r, run.last());
    }
    let (t, r) = after_run(s, p, recent, run);
    lemma_numbers_stay_numbers(t, p, r, i);
}

/// Both devices' actuators are usable, and a loop that has not run yet holds
/// numbers.
pub proof fn lemma_loops_begin_with_numbers(gains: Gains)
    ensures
        usable(W::plant()),
        usable(Mhz::plant()),
        numeric(crate::device_loop::fresh(gains)),
        crate::device_loop::fresh(gains).wf(),
        finite_draws(Seq::empty()),
{
    reveal(Num::le);
    reveal(Num::lt);
}

/// What is set from outside a tick keeps a loop numeric, as long as it is set
/// to numbers: candidates, a cap that was applied, gains, and a guard's
/// ceiling.
pub proof fn lemma_numbers_from_outside(
    s: LoopState,
    thermal: Num,
    shadow: Num,
    applied: Option<Num>,
    error: Num,
    cap: Num,
    gains: Gains,
)
    requires
        numeric(s),
        !thermal.nan(),
        !shadow.nan(),
        numbered(applied),
        !error.nan(),
        !cap.nan(),
    ensures
        numeric(s.seeded(thermal, shadow, applied, error)),
        numeric(s.thermal_at(cap, error)),
        numeric(s.drawing(cap)),
        numeric(s.capped(cap)),
        numeric(LoopState { last_applied: Some(s.held(cap)), ..s }),
        numeric(LoopState { gains, ..s }),
{
    lemma_chosen(cap, s.floor, s.max);
    lemma_chosen(thermal, shadow, shadow);
    lemma_capped_numbers(s, cap);
    reveal(LoopState::drawing);
    reveal(Num::le);
}

/// A number of at most two to the 100th power.
pub open spec fn modest(x: Num) -> bool {
    x.finite() && x.steps() <= pow2(1174)
}

/// Valid gains far from the ends of the range: the gain is at most two to the
/// 100th power, and the integral time at least its inverse.
pub open spec fn modest_gains(g: Gains) -> bool {
    g.valid() && modest(g.kc) && g.ti_s.steps() >= pow2(974)
}

/// Whatever is far from overflow is fair: a loop can compute on temperatures
/// and draws of any modest size.
pub proof fn lemma_modest_inputs_are_fair(g: Gains, i: TickInput)
    requires
        modest_gains(g),
        i.group_c matches Some(c) ==> modest(c) && modest(i.t_star),
        numbered(i.draw),
    ensures
        fair(g, i),
{
    if let Some(c) = i.group_c {
        let error = error_of(i);
        assert(error.finite() && error.steps() <= pow2(1176)) by {
            reveal(crate::precision::reach);
            vstd::arithmetic::power2::lemma_pow2_unfold(1175);
            vstd::arithmetic::power2::lemma_pow2_unfold(1176);
            vstd::arithmetic::power2::lemma_pow2_strictly_increases(1176, 1980);
            crate::precision::lemma_minus_error(i.t_star, c);
        }
        let most = Num(MAX_PI_ELAPSED_S);
        assert(most.finite() && most.steps() <= pow2(1077)) by {
            vstd::arithmetic::power2::lemma2_to64_rest();
            vstd::arithmetic::power2::lemma_pow2_adds(53, 1024);
            vstd::arithmetic::power2::lemma_pow2_pos(1024);
            assert(most.significand() == 0x1c_0000_0000_0000);
            assert(most.exponent() == 1024);
            assert(0x1c_0000_0000_0000 * pow2(1024) <= 0x20_0000_0000_0000 * pow2(1024))
                by (nonlinear_arith)
                requires
                    pow2(1024) > 0,
            ;
        }
        lemma_times_below(g.kc, most, 1174, 1077, 1177);
        lemma_over_below(g.kc.times(most), g.ti_s, 1177, 974, 1277);
        lemma_times_below(g.kc.times(most).over(g.ti_s), error, 1277, 1176, 1379);
    }
}

} // verus!
