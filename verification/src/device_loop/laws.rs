//! What holds of every device loop.
use crate::device_loop::{
    bounds_of, draw_target, error_of, first_of, if_finite, if_positive, moved_toward, on_grid,
    peak_draw, selection, usable_dt, ActuatorState, DeviceDecision, Hold, LoopState, Plant,
    Selected, ThermalMode, TickInput, CPU_GRID, GPU_SHADOW_RISE_RATE, GROUP_UNAVAILABLE_DWELL_S,
    MAX_PI_ELAPSED_S, PI_PERIOD_S,
};
use crate::num::{Num, ONE, ZERO};
use vstd::prelude::*;

verus! {

/// Within the bounds of a state, or not a number.
pub open spec fn in_bounds(s: LoopState, x: Num) -> bool {
    x.nan() || (s.floor.le(x) && x.le(s.max))
}

/// What no step of a tick changes once its bounds are in force: the gains,
/// the bounds, the record of what was applied, and the mismatch latch.
pub open spec fn keeps(a: LoopState, b: LoopState) -> bool {
    &&& a.gains == b.gains
    &&& a.floor == b.floor
    &&& a.max == b.max
    &&& a.bounds_initialised == b.bounds_initialised
    &&& a.last_applied == b.last_applied
    &&& a.mismatch_latched == b.mismatch_latched
}

proof fn lemma_held(s: LoopState, x: Num)
    requires
        s.wf(),
    ensures
        in_bounds(s, s.held(x)),
{
    reveal(Num::within);
    reveal(Num::lt);
    reveal(Num::le);
}

proof fn lemma_slewed(s: LoopState, p: Plant, target: Num, selected: Selected, dt: Num, at_once: bool)
    requires
        s.wf(),
    ensures
        in_bounds(s, s.slewed(p, target, selected, dt, at_once)),
{
    reveal(LoopState::slewed);
    let desired = s.held(on_grid(p, target));
    lemma_held(s, on_grid(p, target));
    if let Some(previous) = s.requested {
        lemma_held(s, on_grid(p, moved_toward(p, desired, previous, selected, dt)));
    }
}

/// The bounds of an input are finite and the right way round.
pub proof fn lemma_ordered(floor: Num, max: Num)
    ensures
        bounds_of(floor, max).0.le(bounds_of(floor, max).1),
        bounds_of(floor, max).0.finite(),
        bounds_of(floor, max).1.finite(),
{
    reveal(Num::le);
    reveal(Num::lt);
    reveal(Num::lesser);
}

/// What clamping and a ceiling leave alone.
spec fn untouched(a: LoopState, b: LoopState) -> bool {
    &&& a.gains == b.gains
    &&& a.last_applied == b.last_applied
    &&& a.mismatch_latched == b.mismatch_latched
    &&& a.bounds_initialised == b.bounds_initialised
    &&& a.group_seen == b.group_seen
    &&& a.group_missing == b.group_missing
    &&& a.group_lost == b.group_lost
    &&& a.group_missing_s == b.group_missing_s
    &&& a.group_reset_pending == b.group_reset_pending
}

proof fn lemma_clamping(s: LoopState)
    ensures
        untouched(s, s.clamped()),
        s.clamped().floor == s.floor && s.clamped().max == s.max,
{
    reveal(LoopState::clamped);
}

proof fn lemma_capping(s: LoopState, max: Num)
    requires
        max.finite(),
        max.lt(s.max),
        s.floor.le(max),
    ensures
        untouched(s, s.capped(max)),
        s.capped(max).floor == s.floor && s.capped(max).max == max,
{
    reveal(LoopState::capped);
    reveal(Num::le);
    reveal(Num::lt);
    reveal(Num::greater);
}

/// What putting the bounds in force leaves alone.
pub proof fn lemma_bounded(s: LoopState, i: TickInput)
    requires
        s.wf(),
    ensures
        s.bounded(i).floor == bounds_of(i.floor, i.max).0,
        s.bounded(i).max == bounds_of(i.floor, i.max).1,
        s.bounded(i).bounds_initialised,
        s.bounded(i).wf(),
        s.bounded(i).gains == s.gains,
        s.bounded(i).last_applied == s.last_applied,
        s.bounded(i).mismatch_latched == s.mismatch_latched,
        s.bounded(i).group_seen == s.group_seen,
        s.bounded(i).group_missing == s.group_missing,
        s.bounded(i).group_lost == s.group_lost,
        s.bounded(i).group_missing_s == s.group_missing_s,
        s.bounded(i).group_reset_pending == s.group_reset_pending,
{
    lemma_ordered(i.floor, i.max);
    reveal(LoopState::bounded);
    let (floor, max) = bounds_of(i.floor, i.max);
    if !s.bounds_initialised {
        lemma_clamping(LoopState { floor, max, bounds_initialised: true, ..s });
    } else {
        let lowered = LoopState { floor, ..s };
        if max.lt(s.max) {
            lemma_capping(lowered, max);
            lemma_clamping(lowered.capped(max));
        } else {
            lemma_clamping(LoopState { max, ..lowered });
        }
    }
}

proof fn lemma_clamped(s: LoopState)
    requires
        s.wf(),
    ensures
        boxed(s.clamped()),
        s.clamped().requested matches Some(r) ==> in_bounds(s, r),
        s.clamped().floor == s.floor && s.clamped().max == s.max,
{
    reveal(LoopState::clamped);
    lemma_held(s, s.thermal);
    lemma_held(s, s.shadow);
    if let Some(r) = s.requested {
        lemma_held(s, r);
    }
}

/// Once the bounds are in force everything lies within them.
pub proof fn lemma_boxed(s: LoopState, i: TickInput)
    requires
        s.wf(),
    ensures
        boxed(s.bounded(i)),
        s.bounded(i).requested matches Some(r) ==> in_bounds(s.bounded(i), r),
{
    reveal(LoopState::bounded);
    lemma_ordered(i.floor, i.max);
    lemma_bounded(s, i);
    let (floor, max) = bounds_of(i.floor, i.max);
    if !s.bounds_initialised {
        lemma_clamped(LoopState { floor, max, bounds_initialised: true, ..s });
    } else {
        let lowered = LoopState { floor, ..s };
        let c = if max.lt(s.max) {
            lowered.capped(max)
        } else {
            LoopState { max, ..lowered }
        };
        if max.lt(s.max) {
            lemma_capping(lowered, max);
        }
        lemma_clamped(c);
    }
}

proof fn lemma_edges(s: LoopState)
    requires
        s.wf(),
    ensures
        in_bounds(s, s.floor),
        in_bounds(s, s.max),
{
    reveal(Num::le);
}

proof fn lemma_least(s: LoopState, a: Num, b: Num)
    requires
        in_bounds(s, a),
        in_bounds(s, b),
    ensures
        in_bounds(s, a.lesser(b)),
{
    reveal(Num::lesser);
}

/// What taking note of the input leaves alone.
pub proof fn lemma_noted(s: LoopState, i: TickInput)
    ensures
        s.noted(i).floor == s.floor,
        s.noted(i).max == s.max,
        s.noted(i).bounds_initialised == s.bounds_initialised,
        s.noted(i).gains == s.gains,
        s.noted(i).last_applied == s.last_applied,
        s.noted(i).thermal == s.thermal,
        s.noted(i).shadow == s.shadow,
        s.noted(i).requested == s.requested,
        s.noted(i).group_seen == s.group_seen,
        s.noted(i).group_missing == s.group_missing,
        s.noted(i).group_lost == s.group_lost,
        s.noted(i).group_missing_s == s.group_missing_s,
        s.noted(i).group_reset_pending == s.group_reset_pending,
        s.noted(i).mismatch_latched == latched_after(s, i),
{
    reveal(LoopState::noted);
}

/// Whether a mismatch is latched once a tick's evidence is in: a mismatch
/// sets the latch, a confirmed read-back or a resume clears it, and a
/// read-back without evidence leaves it.
pub open spec fn latched_after(s: LoopState, i: TickInput) -> bool {
    match i.actuator {
        ActuatorState::Mismatch => true,
        ActuatorState::Verified => false,
        ActuatorState::Unverifiable => s.mismatch_latched && !i.resumed,
    }
}

/// Both candidates lie within the bounds.
pub open spec fn boxed(s: LoopState) -> bool {
    in_bounds(s, s.thermal) && in_bounds(s, s.shadow)
}

/// The cap last decided lies within the bounds, if there is one.
pub open spec fn asks(s: LoopState) -> bool {
    s.requested matches Some(r) ==> in_bounds(s, r)
}

/// Both bounds lie on the actuator's grid.
pub open spec fn aligned(p: Plant, s: LoopState) -> bool {
    &&& p.grid.finite() && Num(ZERO).lt(p.grid)
    &&& on_grid(p, s.floor).same(s.floor)
    &&& on_grid(p, s.max).same(s.max)
}

/// Between bounds on the grid, a value put on the grid stays between them.
proof fn lemma_aligned(p: Plant, s: LoopState, x: Num)
    requires
        aligned(p, s),
        in_bounds(s, x),
    ensures
        in_bounds(s, on_grid(p, x)),
{
    reveal(on_grid);
    reveal(Num::same);
    let g = p.grid;
    if x.nan() {
        reveal(Num::over);
        reveal(Num::rounded);
        reveal(Num::times);
    } else {
        crate::order::lemma_over_monotone(s.floor, x, g);
        crate::order::lemma_over_monotone(x, s.max, g);
        crate::order::lemma_rounded_monotone(s.floor.over(g), x.over(g));
        crate::order::lemma_rounded_monotone(x.over(g), s.max.over(g));
        crate::order::lemma_times_monotone(s.floor.over(g).rounded(), x.over(g).rounded(), g);
        crate::order::lemma_times_monotone(x.over(g).rounded(), s.max.over(g).rounded(), g);
        reveal(Num::le);
    }
}

/// What every kind of tick promises of its state, its cap and its candidates.
spec fn sound(s: LoopState, out: (LoopState, DeviceDecision)) -> bool {
    &&& keeps(s, out.0)
    &&& boxed(out.0)
    &&& in_bounds(s, out.1.cap)
    &&& in_bounds(s, out.1.thermal)
    &&& in_bounds(s, out.1.shadow)
}

/// A tick with the group's temperature allows its write, and one without
/// leaves it to whether the group was ever there.
spec fn tells(s: LoopState, i: TickInput, out: (LoopState, DeviceDecision)) -> bool {
    &&& out.0.group_seen == (s.group_seen || i.group_c is Some)
    &&& out.1.write_allowed == out.0.group_seen
}

/// A regulating tick without a latched mismatch shows a missing draw, and only
/// such a tick does.
spec fn shows_draw(latched: bool, i: TickInput, d: DeviceDecision) -> bool {
    i.group_c is Some && !latched && i.mode == ThermalMode::Regulate ==> (d.hold
        == Hold::DrawUnavailable <==> i.draw is None)
}

proof fn lemma_resume(s: LoopState, i: TickInput)
    requires
        s.wf(),
        boxed(s),
    ensures
        sound(s, s.resume_tick(i)),
        tells(s, i, s.resume_tick(i)),
        s.resume_tick(i).1.cap == s.in_force(),
        asks(s.resume_tick(i).0),
        shows_draw(s.mismatch_latched, i, s.resume_tick(i).1),
{
    reveal(LoopState::resume_tick);
    reveal(LoopState::decided);
    lemma_held(s, first_of(s.last_applied, s.requested, s.max));
}

proof fn lemma_missing(s: LoopState, p: Plant, i: TickInput)
    requires
        s.wf(),
        boxed(s),
    ensures
        sound(s, s.missing_tick(p, i)),
        i.group_c is None ==> tells(s, i, s.missing_tick(p, i)),
        asks(s) && aligned(p, s) ==> asks(s.missing_tick(p, i).0),
        shows_draw(s.mismatch_latched, i, s.missing_tick(p, i).1),
{
    reveal(LoopState::missing_tick);
    reveal(LoopState::decided);
    let m = s.missing(p, i);
    let cap = if m.group_lost {
        m.max
    } else {
        first_of(m.last_applied, None, m.max)
    };
    lemma_held(m, on_grid(p, cap));
    lemma_edges(s);
    if aligned(p, s) {
        lemma_aligned(p, s, s.max);
    }
}

/// The shadow candidate's goal lies within the bounds.
pub proof fn lemma_goal(s: LoopState, i: TickInput)
    requires
        s.wf(),
    ensures
        in_bounds(s, s.shadow_goal(i)),
{
    reveal(LoopState::shadow_goal);
    lemma_edges(s);
    if let Some(d) = i.draw {
        lemma_held(s, d.plus(if_positive(i.shadow_headroom)));
        assert(draw_target(d, i.shadow_headroom, s.floor, s.max) == s.held(
            d.plus(if_positive(i.shadow_headroom)),
        ));
    }
}

/// What a temperature that is back leaves alone.
pub proof fn lemma_regained(s: LoopState, p: Plant, i: TickInput, ended: bool)
    requires
        s.wf(),
        boxed(s),
    ensures
        keeps(s, s.regained(p, i, ended)),
        boxed(s.regained(p, i, ended)),
        s.regained(p, i, ended).group_seen,
        s.mismatch_latched ==> s.regained(p, i, ended).thermal == s.thermal,
        s.mismatch_latched ==> s.regained(p, i, ended).shadow == s.shadow,
        s.mismatch_latched ==> s.regained(p, i, ended).requested == s.requested,
        asks(s) && aligned(p, s) ==> asks(s.regained(p, i, ended)),
{
    reveal(LoopState::regained);
    lemma_edges(s);
    lemma_goal(s, i);
    if aligned(p, s) {
        lemma_aligned(p, s, s.max);
    }
}

proof fn lemma_mismatch(s: LoopState, i: TickInput)
    requires
        s.wf(),
        boxed(s),
    ensures
        sound(s, s.mismatch_tick(i)),
        s.group_seen ==> tells(s, i, s.mismatch_tick(i)),
        s.mismatch_tick(i).0.thermal == s.thermal,
        s.mismatch_tick(i).0.shadow == s.shadow,
        s.mismatch_tick(i).0.requested == s.requested,
        s.mismatch_tick(i).1.thermal == s.thermal,
        s.mismatch_tick(i).1.shadow == s.shadow,
        s.mismatch_tick(i).1.cap == s.held(first_of(s.requested, None, s.max)),
        s.mismatch_latched && i.group_c is Some ==> s.mismatch_tick(i).1.hold
            == Hold::ActuatorMismatch,
        shows_draw(s.mismatch_latched, i, s.mismatch_tick(i).1),
{
    reveal(LoopState::mismatch_tick);
    reveal(LoopState::decided);
    lemma_held(s, first_of(s.requested, None, s.max));
}

proof fn lemma_mode(s: LoopState, p: Plant, i: TickInput)
    requires
        s.wf(),
        boxed(s),
    ensures
        sound(s, s.mode_tick(p, i)),
        s.group_seen ==> tells(s, i, s.mode_tick(p, i)),
        s.mode_tick(p, i).1.cap == s.in_force(),
        aligned(p, s) ==> asks(s.mode_tick(p, i).0),
        shows_draw(s.mismatch_latched, i, s.mode_tick(p, i).1),
{
    reveal(LoopState::mode_tick);
    reveal(LoopState::decided);
    reveal(LoopState::controlled);
    reveal(LoopState::requesting);
    reveal(LoopState::shadow_at);
    reveal(LoopState::regulating_at);
    lemma_held(s, first_of(s.last_applied, s.requested, s.max));
    lemma_edges(s);
    lemma_held(s, s.in_force());
    if aligned(p, s) {
        lemma_aligned(p, s, s.in_force());
    }
}

proof fn lemma_trim(s: LoopState, p: Plant, recent: Seq<(Num, Num)>, i: TickInput)
    requires
        s.wf(),
        boxed(s),
    ensures
        sound(s, s.trim_tick(p, recent, i)),
        s.group_seen ==> tells(s, i, s.trim_tick(p, recent, i)),
        asks(s.trim_tick(p, recent, i).0),
        shows_draw(s.mismatch_latched, i, s.trim_tick(p, recent, i).1),
{
    reveal(LoopState::trim_tick);
    reveal(LoopState::decided);
    let thermal = s.trim_level(p, recent, i);
    let t = s.trimmed_to(thermal, error_of(i));
    reveal(LoopState::trimmed_to);
    let (target, selected) = selection(thermal, t.shadow, t.floor, t.max);
    lemma_slewed(t, p, target, selected, usable_dt(i.dt_s), false);
    reveal(LoopState::trim_level);
    reveal(LoopState::hot_ceiling);
    let ceiling = peak_draw(recent).plus(p.hot_headroom.lesser(i.shadow_headroom));
    lemma_held(s, ceiling);
    lemma_held(s, first_of(s.last_applied, s.requested, s.max));
    lemma_least(s, s.thermal, s.in_force());
    lemma_least(s, s.thermal.lesser(s.in_force()), s.hot_ceiling(p, recent, i));
    lemma_held(s, thermal);
}

proof fn lemma_hot_start(s: LoopState, i: TickInput)
    requires
        s.wf(),
    ensures
        in_bounds(s, s.hot_start(i)),
{
    reveal(LoopState::hot_start);
    lemma_held(s, first_of(s.last_applied, s.requested, s.shadow));
    lemma_held(s, s.shadow);
    if let Some(cap) = s.last_applied {
        lemma_held(s, cap);
    }
    lemma_goal(s, i);
}

proof fn lemma_hot(s: LoopState, p: Plant, recent: Seq<(Num, Num)>, i: TickInput, resynced: bool)
    requires
        s.wf(),
        boxed(s),
    ensures
        sound(s, s.hot_tick(p, recent, i, resynced)),
        s.group_seen ==> tells(s, i, s.hot_tick(p, recent, i, resynced)),
        aligned(p, s) ==> asks(s.hot_tick(p, recent, i, resynced).0),
        shows_draw(s.mismatch_latched, i, s.hot_tick(p, recent, i, resynced).1),
{
    reveal(LoopState::hot_tick);
    reveal(LoopState::hot_state);
    reveal(LoopState::hot_cap);
    reveal(LoopState::decided);
    reveal(LoopState::controlled);
    let start = s.hot_start(i);
    lemma_hot_start(s, i);
    lemma_slewed(
        LoopState { requested: Some(start), ..s },
        p,
        s.hot_level(p, recent, i, resynced),
        Selected::Thermal,
        usable_dt(i.dt_s),
        false,
    );
    reveal(LoopState::hot_level);
    reveal(LoopState::hot_ceiling);
    lemma_held(s, peak_draw(recent).plus(p.hot_headroom.lesser(i.shadow_headroom)));
    lemma_least(s, start, s.hot_ceiling(p, recent, i));
    if aligned(p, s) {
        lemma_aligned(p, s, s.hot_cap(p, recent, i, resynced));
    }
}

/// The shadow candidate stays within the bounds.
pub proof fn lemma_shadowed(s: LoopState, p: Plant, i: TickInput)
    requires
        s.wf(),
        boxed(s),
    ensures
        keeps(s, s.shadowed(p, i)),
        boxed(s.shadowed(p, i)),
        s.shadowed(p, i).group_seen == s.group_seen,
{
    reveal(LoopState::shadowed);
    reveal(LoopState::shadow_toward);
    lemma_edges(s);
    lemma_held(s, first_of(s.last_applied, s.requested, s.shadow));
    let dt = usable_dt(i.dt_s);
    assert forall|target: Num| in_bounds(
        s,
        #[trigger] s.shadow_toward(p, target, dt, i.shadow_headroom, i.shadow_fall_rate),
    ) by {
        let delta = target.minus(s.shadow);
        let step = if Num(ZERO).le(delta) {
            (if p.grid.same(Num(CPU_GRID)) {
                if_positive(i.shadow_headroom)
            } else {
                Num(GPU_SHADOW_RISE_RATE)
            }).times(dt)
        } else {
            if_positive(i.shadow_fall_rate).times(dt)
        };
        lemma_held(s, s.shadow.plus(delta.within(step.opposite(), step)));
    }
}

/// The thermal candidate stays within the bounds.
pub proof fn lemma_regulated(s: LoopState, i: TickInput, resynced: bool)
    requires
        s.wf(),
        boxed(s),
    ensures
        keeps(s, s.regulated(i, resynced)),
        boxed(s.regulated(i, resynced)),
        s.regulated(i, resynced).group_seen == s.group_seen,
{
    reveal(LoopState::regulated);
    reveal(LoopState::integrated);
    let t = LoopState {
        e_prev: if resynced {
            s.e_prev
        } else {
            s.e_prev.plus(if_finite(i.delta_tstar))
        },
        elapsed_s: s.elapsed_s.plus(usable_dt(i.dt_s)),
        ..s
    };
    let error = error_of(i);
    let elapsed = t.elapsed_s.lesser(Num(MAX_PI_ELAPSED_S));
    let proportional = t.gains.kc.times(error.minus(t.e_prev));
    let integral = t.gains.kc.times(elapsed).over(t.gains.ti_s).times(error);
    lemma_held(s, s.thermal.plus(proportional).plus(Num(ZERO)));
    lemma_held(s, s.thermal.plus(proportional).plus(integral));
}

proof fn lemma_moved(s: LoopState, p: Plant, i: TickInput, resynced: bool)
    requires
        s.wf(),
        boxed(s),
    ensures
        keeps(s, s.rearmed(i).shadowed(p, i).regulated(i, resynced)),
        boxed(s.rearmed(i).shadowed(p, i).regulated(i, resynced)),
        s.rearmed(i).shadowed(p, i).regulated(i, resynced).group_seen == s.group_seen,
{
    let r = s.rearmed(i);
    assert(keeps(s, r) && boxed(r) && r.group_seen == s.group_seen) by {
        reveal(LoopState::rearmed);
    }
    lemma_shadowed(r, p, i);
    lemma_regulated(r.shadowed(p, i), i, resynced);
}

proof fn lemma_ordinary(s: LoopState, p: Plant, i: TickInput, resynced: bool, at_once: bool)
    requires
        s.wf(),
        boxed(s),
    ensures
        sound(s, s.ordinary_tick(p, i, resynced, at_once)),
        s.group_seen ==> tells(s, i, s.ordinary_tick(p, i, resynced, at_once)),
        asks(s.ordinary_tick(p, i, resynced, at_once).0),
        shows_draw(s.mismatch_latched, i, s.ordinary_tick(p, i, resynced, at_once).1),
{
    reveal(LoopState::ordinary_tick);
    reveal(LoopState::decided);
    reveal(LoopState::controlled);
    reveal(LoopState::requesting);
    let m = s.rearmed(i).shadowed(p, i).regulated(i, resynced);
    lemma_moved(s, p, i, resynced);
    let thermal = if i.mode == ThermalMode::Bypass {
        m.max
    } else {
        m.thermal
    };
    let (target, selected) = selection(thermal, m.shadow, m.floor, m.max);
    lemma_slewed(m, p, target, selected, usable_dt(i.dt_s), at_once);
    lemma_edges(s);
}

proof fn lemma_control(
    s: LoopState,
    p: Plant,
    recent: Seq<(Num, Num)>,
    i: TickInput,
    resynced: bool,
    at_once: bool,
)
    requires
        s.wf(),
        boxed(s),
    ensures
        sound(s, s.control_tick(p, recent, i, resynced, at_once)),
        s.group_seen ==> tells(s, i, s.control_tick(p, recent, i, resynced, at_once)),
        aligned(p, s) ==> asks(s.control_tick(p, recent, i, resynced, at_once).0),
        shows_draw(s.mismatch_latched, i, s.control_tick(p, recent, i, resynced, at_once).1),
{
    reveal(LoopState::control_tick);
    let t = s.trim_settled(s.trim_due(recent, resynced));
    assert(keeps(s, t) && boxed(t) && t.group_seen == s.group_seen) by {
        reveal(LoopState::trim_settled);
    }
    lemma_mode(s, p, i);
    lemma_trim(s, p, recent, i);
    lemma_hot(t, p, recent, i, resynced);
    lemma_ordinary(t, p, i, resynced, at_once);
}

/// Every tick puts the input's bounds in force, keeps them the right way
/// round, and decides a cap and two candidates within them (or ones that are
/// no numbers, if what they came from was none); the state's candidates lie
/// within them too. It never touches the gains or the record of the cap last
/// applied, and the mismatch latch follows the evidence alone.
pub proof fn lemma_tick_stays_in_bounds(
    s: LoopState,
    p: Plant,
    recent: Seq<(Num, Num)>,
    i: TickInput,
)
    requires
        s.wf(),
    ensures
        ({
            let (after, d) = s.ticked(p, recent, i);
            &&& after.floor == bounds_of(i.floor, i.max).0
            &&& after.max == bounds_of(i.floor, i.max).1
            &&& after.floor.le(after.max)
            &&& in_bounds(after, d.cap)
            &&& in_bounds(after, d.thermal)
            &&& in_bounds(after, d.shadow)
            &&& boxed(after)
            &&& after.gains == s.gains
            &&& after.last_applied == s.last_applied
            &&& after.mismatch_latched == latched_after(s, i)
        }),
{
    lemma_tick(s, p, recent, i);
}

/// A group's write is allowed as soon as the group has had a temperature, in
/// a resume's tick or in another, and from then on: a tick without one allows
/// it too.
pub proof fn lemma_seen_group_is_written_for(
    s: LoopState,
    p: Plant,
    recent: Seq<(Num, Num)>,
    i: TickInput,
)
    requires
        s.wf(),
    ensures
        s.ticked(p, recent, i).1.write_allowed == (s.group_seen || i.group_c is Some),
        s.ticked(p, recent, i).0.group_seen == (s.group_seen || i.group_c is Some),
{
    lemma_tick(s, p, recent, i);
}

proof fn lemma_tick(s: LoopState, p: Plant, recent: Seq<(Num, Num)>, i: TickInput)
    requires
        s.wf(),
    ensures
        sound(s.clocked(i).bounded(i).noted(i), s.ticked(p, recent, i)),
        tells(s, i, s.ticked(p, recent, i)),
        s.clocked(i).bounded(i).noted(i).floor == bounds_of(i.floor, i.max).0,
        s.clocked(i).bounded(i).noted(i).max == bounds_of(i.floor, i.max).1,
        s.clocked(i).bounded(i).noted(i).wf(),
        s.clocked(i).bounded(i).noted(i).gains == s.gains,
        s.clocked(i).bounded(i).noted(i).last_applied == s.last_applied,
        s.clocked(i).bounded(i).noted(i).mismatch_latched == latched_after(s, i),
        aligned(p, s.clocked(i).bounded(i).noted(i)) ==> asks(s.ticked(p, recent, i).0),
        s.ticked(p, recent, i).0.bounds_initialised,
        shows_draw(latched_after(s, i), i, s.ticked(p, recent, i).1),
{
    reveal(LoopState::advanced);
    let c = s.clocked(i);
    let b = c.bounded(i);
    let t = b.noted(i);
    let h = s.history_after(recent, i);
    let ended = c.mismatch_ends(i);
    let g = t.regained(p, i, ended);
    let at_once = c.floor_changes(i) || c.max_lowers_request(i);
    lemma_bounded(c, i);
    lemma_boxed(c, i);
    lemma_noted(b, i);
    lemma_resume(t, i);
    lemma_missing(t, p, i);
    lemma_regained(t, p, i, ended);
    lemma_mismatch(g, i);
    lemma_control(g, p, h, i, t.resyncs(ended), at_once);
}

/// While a mismatch is latched, neither candidate nor the request moves,
/// except as far as the bounds push them, and the decision says so.
pub proof fn lemma_mismatch_holds(s: LoopState, p: Plant, recent: Seq<(Num, Num)>, i: TickInput)
    requires
        s.wf(),
        !i.resumed,
        i.group_c is Some,
        latched_after(s, i),
    ensures
        ({
            let (after, d) = s.ticked(p, recent, i);
            let b = s.clocked(i).bounded(i);
            &&& after.thermal == b.thermal
            &&& after.shadow == b.shadow
            &&& after.requested == b.requested
            &&& d.thermal == b.thermal
            &&& d.shadow == b.shadow
            &&& d.cap == b.held(first_of(b.requested, None, b.max))
            &&& d.hold == Hold::ActuatorMismatch
        }),
{
    reveal(LoopState::advanced);
    let c = s.clocked(i);
    let b = c.bounded(i);
    let t = b.noted(i);
    let ended = c.mismatch_ends(i);
    lemma_bounded(c, i);
    lemma_boxed(c, i);
    lemma_noted(b, i);
    lemma_regained(t, p, i, ended);
    lemma_mismatch(t.regained(p, i, ended), i);
}

/// While a mismatch is latched and the bounds stay as they are, a tick leaves
/// both candidates and the request exactly as they were, and decides them.
pub proof fn lemma_mismatch_freezes(s: LoopState, p: Plant, recent: Seq<(Num, Num)>, i: TickInput)
    requires
        s.wf(),
        s.bounds_initialised,
        boxed(s) && asks(s),
        bounds_of(i.floor, i.max) == (s.floor, s.max),
        !i.resumed,
        i.group_c is Some,
        latched_after(s, i),
    ensures
        ({
            let (after, d) = s.ticked(p, recent, i);
            &&& after.thermal == s.thermal && d.thermal == s.thermal
            &&& after.shadow == s.shadow && d.shadow == s.shadow
            &&& after.requested == s.requested
            &&& d.cap == first_of(s.requested, None, s.max)
            &&& d.hold == Hold::ActuatorMismatch
            &&& after.mismatch_latched
        }),
{
    lemma_mismatch_holds(s, p, recent, i);
    lemma_tick_stays_in_bounds(s, p, recent, i);
    lemma_edges(s);
    reveal(LoopState::bounded);
    reveal(LoopState::clamped);
    reveal(Num::within);
    reveal(Num::lt);
    reveal(Num::le);
}

/// A loop's state and its draw history after a run of ticks.
pub open spec fn after_run(s: LoopState, p: Plant, recent: Seq<(Num, Num)>, run: Seq<TickInput>) -> (
    LoopState,
    Seq<(Num, Num)>,
)
    decreases run.len(),
{
    if run.len() == 0 {
        (s, recent)
    } else {
        let (t, r) = after_run(s, p, recent, run.drop_last());
        (t.ticked(p, r, run.last()).0, t.history_after(r, run.last()))
    }
}

proof fn lemma_run(s: LoopState, p: Plant, recent: Seq<(Num, Num)>, run: Seq<TickInput>)
    requires
        s.wf(),
    ensures
        ({
            let t = after_run(s, p, recent, run).0;
            &&& t.wf()
            &&& run.len() > 0 ==> {
                &&& boxed(t)
                &&& t.bounds_initialised
                &&& bounds_of(run.last().floor, run.last().max) == (t.floor, t.max)
                &&& aligned(p, t) ==> asks(t)
            }
        }),
    decreases run.len(),
{
    if run.len() > 0 {
        lemma_run(s, p, recent, run.drop_last());
        let (t, r) = after_run(s, p, recent, run.drop_last());
        lemma_tick(t, p, r, run.last());
        lemma_tick_stays_in_bounds(t, p, r, run.last());
    }
}

/// Once a group has had a temperature, in a resume's tick or in another, every
/// later decision allows its write.
pub proof fn lemma_once_seen_always_written_for(
    s: LoopState,
    p: Plant,
    recent: Seq<(Num, Num)>,
    run: Seq<TickInput>,
    j: int,
    i: TickInput,
)
    requires
        s.wf(),
        0 <= j < run.len(),
        run[j].group_c is Some,
    ensures
        ({
            let (t, r) = after_run(s, p, recent, run);
            t.group_seen && t.ticked(p, r, i).1.write_allowed
        }),
    decreases run.len(),
{
    let before = run.drop_last();
    let (t, r) = after_run(s, p, recent, before);
    lemma_run(s, p, recent, before);
    lemma_run(s, p, recent, run);
    if j < before.len() {
        lemma_once_seen_always_written_for(s, p, recent, before, j, run.last());
    }
    lemma_seen_group_is_written_for(t, p, r, run.last());
    let (u, q) = after_run(s, p, recent, run);
    lemma_seen_group_is_written_for(u, p, q, i);
}

proof fn lemma_stays_latched(
    s: LoopState,
    p: Plant,
    recent: Seq<(Num, Num)>,
    run: Seq<TickInput>,
    j: int,
)
    requires
        s.wf(),
        0 <= j < run.len(),
        run[j].actuator == ActuatorState::Mismatch,
        forall|k: int|
            j < k < run.len() ==> (#[trigger] run[k]).actuator != ActuatorState::Verified
                && !run[k].resumed,
    ensures
        after_run(s, p, recent, run).0.mismatch_latched,
    decreases run.len(),
{
    let before = run.drop_last();
    let (t, r) = after_run(s, p, recent, before);
    lemma_run(s, p, recent, before);
    lemma_tick_stays_in_bounds(t, p, r, run.last());
    if j < before.len() {
        assert(run.last() == run[run.len() - 1]);
        lemma_stays_latched(s, p, recent, before, j);
    }
}

/// From a mismatch on, until a tick is confirmed or resumed, a tick within
/// the same bounds freezes both candidates and the request, whatever the mode
/// and the draw are. The bounds lie on the grid.
pub proof fn lemma_mismatch_freezes_until_confirmed(
    s: LoopState,
    p: Plant,
    recent: Seq<(Num, Num)>,
    run: Seq<TickInput>,
    j: int,
    i: TickInput,
)
    requires
        s.wf(),
        0 <= j < run.len(),
        run[j].actuator == ActuatorState::Mismatch,
        forall|k: int|
            j < k < run.len() ==> (#[trigger] run[k]).actuator != ActuatorState::Verified
                && !run[k].resumed,
        i.actuator != ActuatorState::Verified && !i.resumed,
        i.group_c is Some,
        bounds_of(i.floor, i.max) == bounds_of(run.last().floor, run.last().max),
        aligned(p, after_run(s, p, recent, run).0),
    ensures
        ({
            let (t, r) = after_run(s, p, recent, run);
            let (after, d) = t.ticked(p, r, i);
            &&& d.hold == Hold::ActuatorMismatch
            &&& after.thermal == t.thermal && d.thermal == t.thermal
            &&& after.shadow == t.shadow && d.shadow == t.shadow
            &&& after.requested == t.requested
            &&& d.cap == first_of(t.requested, None, t.max)
        }),
{
    let (t, r) = after_run(s, p, recent, run);
    lemma_run(s, p, recent, run);
    lemma_stays_latched(s, p, recent, run, j);
    lemma_mismatch_freezes(t, p, r, i);
}

/// A resume decides the cap in force: what was applied, else what was
/// requested, else the maximum, within the bounds of the tick.
pub proof fn lemma_resume_keeps_the_cap(
    s: LoopState,
    p: Plant,
    recent: Seq<(Num, Num)>,
    i: TickInput,
)
    requires
        s.wf(),
        i.resumed,
    ensures
        s.ticked(p, recent, i).1.cap == s.clocked(i).bounded(i).in_force(),
        s.ticked(p, recent, i).0.requested == Some(s.ticked(p, recent, i).1.cap),
        s.ticked(p, recent, i).0.elapsed_s == Num(ZERO),
{
    reveal(LoopState::advanced);
    let c = s.clocked(i);
    let b = c.bounded(i);
    let t = b.noted(i);
    lemma_bounded(c, i);
    lemma_boxed(c, i);
    lemma_noted(b, i);
    lemma_resume(t, i);
    reveal(LoopState::resume_tick);
}

/// A group that never had a temperature is never written for; one that had
/// one is written for, and once it has been missing for its whole dwell the
/// cap is the maximum.
pub proof fn lemma_missing_group(s: LoopState, p: Plant, recent: Seq<(Num, Num)>, i: TickInput)
    requires
        s.wf(),
        !i.resumed,
        i.group_c is None,
    ensures
        ({
            let (after, d) = s.ticked(p, recent, i);
            let waited = s.group_missing_s.plus(usable_dt(i.dt_s));
            &&& d.write_allowed == s.group_seen
            &&& d.hold == Hold::GroupUnavailable
            &&& d.group_lost == (s.group_lost || (s.group_seen && Num(GROUP_UNAVAILABLE_DWELL_S).le(
                waited,
            )))
            &&& d.cap == after.held(
                on_grid(
                    p,
                    if d.group_lost {
                        after.max
                    } else {
                        first_of(s.last_applied, None, after.max)
                    },
                ),
            )
        }),
{
    reveal(LoopState::advanced);
    reveal(LoopState::missing_tick);
    reveal(LoopState::decided);
    let c = s.clocked(i);
    lemma_bounded(c, i);
    lemma_noted(c.bounded(i), i);
}

/// A regulating tick whose read-back is not in doubt is held for want of a
/// draw exactly if it has none.
pub proof fn lemma_missing_draw_is_shown(s: LoopState, p: Plant, recent: Seq<(Num, Num)>, i: TickInput)
    requires
        s.wf(),
        i.group_c is Some,
        i.mode == ThermalMode::Regulate,
        !latched_after(s, i),
    ensures
        s.ticked(p, recent, i).1.hold == Hold::DrawUnavailable <==> i.draw is None,
{
    lemma_tick(s, p, recent, i);
}

/// While it is hot the shadow candidate does not follow the draw: it neither
/// falls with a dip nor rises.
pub proof fn lemma_shadow_holds_while_hot(s: LoopState, p: Plant, i: TickInput)
    requires
        i.mode == ThermalMode::Regulate,
        i.shadow_enabled,
        i.draw is Some,
        !s.draw_missing,
        error_of(i).lt(Num(ZERO)),
    ensures
        s.shadowed(p, i).shadow == s.shadow,
{
    reveal(LoopState::shadowed);
    reveal(Num::lt);
    reveal(Num::le);
}

/// A trim only ever lowers the thermal candidate, and it runs once.
pub proof fn lemma_trim_only_lowers(s: LoopState, p: Plant, recent: Seq<(Num, Num)>, i: TickInput)
    requires
        s.wf(),
        !s.thermal.nan(),
    ensures
        s.trim_level(p, recent, i).le(s.thermal),
        !s.trim_tick(p, recent, i).0.hot_entry_trim_pending,
        !s.trim_settled(true).hot_entry_trim_pending,
{
    reveal(LoopState::trim_level);
    reveal(LoopState::trim_tick);
    reveal(LoopState::trimmed_to);
    reveal(LoopState::trim_settled);
    reveal(LoopState::reported);
    reveal(LoopState::recorded);
    reveal(Num::lesser);
    reveal(Num::lt);
    reveal(Num::le);
}

/// A hot episode begins at the cap in force or below it, and only once: until
/// a full period has not been hot, none begins again from the shadow
/// candidate's rule.
pub proof fn lemma_hot_episode_begins_once(
    s: LoopState,
    p: Plant,
    recent: Seq<(Num, Num)>,
    i: TickInput,
    resynced: bool,
    later: TickInput,
    resynced_later: bool,
)
    requires
        !s.hot_start(i).nan(),
    ensures
        s.hot_level(p, recent, i, resynced).le(s.hot_start(i)),
        !s.hot_tick(p, recent, i, resynced).0.hands_over(later, resynced_later),
        !s.hot_episode_armed && !Num(PI_PERIOD_S).le(s.hot_rearm_s.plus(usable_dt(i.dt_s)))
            ==> !s.rearmed(i).hot_episode_armed,
{
    reveal(LoopState::hot_level);
    reveal(LoopState::hot_tick);
    reveal(LoopState::hot_state);
    reveal(LoopState::hands_over);
    reveal(LoopState::controlled);
    reveal(LoopState::reported);
    reveal(LoopState::recorded);
    reveal(LoopState::rearmed);
    reveal(Num::lesser);
    reveal(Num::lt);
    reveal(Num::le);
}

/// While the thermal candidate takes no part, it does not move and does not
/// wind up.
pub proof fn lemma_bypass_leaves_thermal(s: LoopState, i: TickInput, resynced: bool)
    requires
        i.mode == ThermalMode::Bypass,
    ensures
        s.regulated(i, resynced) == s,
{
    reveal(LoopState::regulated);
}

/// The cap is never above either candidate.
pub proof fn lemma_selection_is_lowest(thermal: Num, shadow: Num, floor: Num, max: Num)
    requires
        floor.le(max),
        !thermal.nan(),
        !shadow.nan(),
    ensures
        ({
            let (cap, by) = selection(thermal, shadow, floor, max);
            &&& floor.le(cap) && cap.le(max)
            &&& cap.le(thermal.within(floor, max)) && cap.le(shadow.within(floor, max))
            &&& by == Selected::Thermal ==> cap == thermal
            &&& by == Selected::Shadow ==> cap == shadow && shadow.lt(thermal.within(floor, max))
        }),
{
    reveal(selection);
    reveal(Num::within);
    reveal(Num::lesser);
    reveal(Num::lt);
    reveal(Num::le);
    reveal(Num::same);
}

/// Before it is put on the grid, a rising cap gains at most the rise rate
/// times the step, and a falling one loses at most the fall rate times it.
pub proof fn lemma_slew_is_limited(
    p: Plant,
    desired: Num,
    previous: Num,
    selected: Selected,
    dt: Num,
)
    ensures
        ({
            let moved = moved_toward(p, desired, previous, selected, dt);
            let rise = if selected == Selected::Shadow && p.grid.same(Num(ONE)) {
                Num(GPU_SHADOW_RISE_RATE)
            } else {
                p.rise_rate
            };
            let up = previous.plus(rise.times(dt));
            let down = previous.minus(p.fall_rate.times(dt));
            &&& previous.lt(desired) && !up.nan() ==> moved.le(up) && moved.le(desired)
            &&& desired.le(previous) && !down.nan() ==> down.le(moved) && desired.le(moved)
        }),
{
    reveal(moved_toward);
    reveal(Num::lesser);
    reveal(Num::greater);
    reveal(Num::lt);
    reveal(Num::le);
}

} // verus!
