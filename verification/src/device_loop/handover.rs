//! How a hot episode begins and ends, told from the readings.

use crate::device_loop::following::{lemma_shadowed_value, movable, rise_of, toward};
use crate::device_loop::motion::{lemma_shadow_reads, settled_request};
use crate::device_loop::{
    bounds_of, error_of, first_of, history_full, peak_draw, trimmed, usable_dt, ActuatorState, LoopState,
    Plant, Selected, ThermalMode, TickInput, DRAW_HISTORY_S, MAX_DT_S, PI_PERIOD_S,
};
use crate::num::{unit, Num, ZERO};
use crate::order::lemma_steps_zero;
use crate::precision::{apart, grain, lemma_plus_error, reach};
use crate::spending::{lemma_lesser_value, lemma_within_value, low, pulled};
use crate::values::{lemma_compare, lemma_difference_side, lemma_sum_side, lemma_whole, lemma_zero};
use vstd::arithmetic::power2::{lemma2_to64, lemma2_to64_rest};
use vstd::prelude::*;

verus! {

proof fn lemma_clocks()
    ensures
        Num(PI_PERIOD_S).finite() && Num(PI_PERIOD_S).value() == 5 * unit(),
        Num(DRAW_HISTORY_S).finite() && Num(DRAW_HISTORY_S).value() == 5 * unit(),
        Num(MAX_DT_S).finite() && Num(MAX_DT_S).value() == 2 * unit(),
{
    lemma2_to64();
    lemma2_to64_rest();
    lemma_whole(Num(PI_PERIOD_S), 5, 50);
    lemma_whole(Num(DRAW_HISTORY_S), 5, 50);
    lemma_whole(Num(MAX_DT_S), 2, 51);
}

/// No draw of the history is above its peak, and the peak is one of them or
/// nothing.
pub proof fn lemma_peak_is_the_highest_draw(recent: Seq<(Num, Num)>)
    requires
        forall|j: int| 0 <= j < recent.len() ==> (#[trigger] recent[j]).1.finite(),
    ensures
        peak_draw(recent).finite() && peak_draw(recent).value() >= 0,
        forall|j: int|
            0 <= j < recent.len() ==> (#[trigger] recent[j]).1.value() <= peak_draw(recent).value(),
        peak_draw(recent).value() == 0 || exists|j: int|
            0 <= j < recent.len() && (#[trigger] recent[j]).1.value() == peak_draw(recent).value(),
    decreases recent.len(),
{
    lemma_zero();
    if recent.len() > 0 {
        let rest = recent.drop_last();
        let n = recent.len() - 1;
        assert forall|j: int| 0 <= j < rest.len() implies (#[trigger] rest[j]).1.finite() by {
            assert(rest[j] == recent[j]);
        }
        lemma_peak_is_the_highest_draw(rest);
        assert(recent.last() == recent[n]);
        lemma_lesser_value(peak_draw(rest), recent.last().1);
        let p = peak_draw(recent).value();
        assert forall|j: int| 0 <= j < recent.len() implies (#[trigger] recent[j]).1.value() <= p by {
            if j < n {
                assert(rest[j] == recent[j]);
            }
        }
        if p != 0 {
            if p == recent[n].1.value() {
                assert(0 <= n < recent.len() && recent[n].1.value() == p);
            } else {
                let j = choose|j: int| 0 <= j < rest.len() && (#[trigger] rest[j]).1.value() == p;
                assert(rest[j] == recent[j]);
                assert(0 <= j < recent.len() && recent[j].1.value() == p);
            }
        }
    }
}

/// The history is full once its oldest draw is five seconds old, and not
/// before. `z` is any number of seconds below five.
pub proof fn lemma_history_takes_five_seconds(recent: Seq<(Num, Num)>, clock: Num, z: Num)
    requires
        clock.finite() && z.finite() && z.value() < 5 * unit(),
        recent.len() > 0 ==> recent[0].0.finite(),
    ensures
        recent.len() == 0 ==> !history_full(recent, clock),
        recent.len() > 0 && clock.value() - recent[0].0.value() >= 5 * unit() ==> history_full(
            recent,
            clock,
        ),
        recent.len() > 0 && clock.value() - recent[0].0.value() <= z.value() ==> !history_full(
            recent,
            clock,
        ),
{
    lemma_clocks();
    if recent.len() > 0 {
        lemma_difference_side(clock, recent[0].0, Num(DRAW_HISTORY_S));
        lemma_difference_side(clock, recent[0].0, z);
        lemma_compare(z, Num(DRAW_HISTORY_S));
    }
    reveal(Num::le);
    reveal(Num::lt);
}

/// A loop in regulation whose candidates and cap lie within its bounds.
pub open spec fn in_regulation(s: LoopState, i: TickInput) -> bool {
    &&& i.mode == ThermalMode::Regulate && s.last_mode == Some(ThermalMode::Regulate)
    &&& in_control(s, i) && !s.control_entry_pending
}

/// A loop in control whose candidates and cap lie within its bounds.
pub open spec fn in_control(s: LoopState, i: TickInput) -> bool {
    &&& !i.resumed
    &&& i.group_c is Some && s.group_entered && !s.group_missing && !s.group_reset_pending
    &&& i.actuator == ActuatorState::Verified && !s.mismatch_latched
    &&& s.bounds_initialised && s.floor == i.floor && s.max == i.max
    &&& i.floor.finite() && i.max.finite() && i.floor.value() <= i.max.value()
    &&& s.thermal.finite() && i.floor.value() <= s.thermal.value() <= i.max.value()
    &&& settled_request(s)
    &&& !s.hot_entry_trim_pending
    &&& error_of(i).finite()
    &&& i.dt_s.finite() && 0 <= i.dt_s.value() <= 2 * unit()
}

/// The state that such a loop ticks from.
spec fn ready(s: LoopState, i: TickInput) -> LoopState {
    LoopState { group_seen: true, pending_immediate: s.clocked(i).bounded(i).pending_immediate, ..s.clocked(i) }
}

proof fn lemma_ready(s: LoopState, p: Plant, recent: Seq<(Num, Num)>, i: TickInput)
    requires
        in_control(s, i),
    ensures
        usable_dt(i.dt_s) == i.dt_s,
        s.ticked(p, recent, i) == ready(s, i).control_tick(
            p,
            s.history_after(recent, i),
            i,
            false,
            false,
        ),
{
    lemma_zero();
    lemma_clocks();
    lemma_compare(i.floor, i.max);
    lemma_compare(i.max, i.floor);
    lemma_compare(i.max, i.max);
    lemma_compare(i.floor, i.floor);
    lemma_compare(s.thermal, i.floor);
    lemma_compare(i.max, s.thermal);
    lemma_compare(s.shadow, i.floor);
    lemma_compare(i.max, s.shadow);
    lemma_compare(s.requested->0, i.floor);
    lemma_compare(i.max, s.requested->0);
    assert(bounds_of(i.floor, i.max) == (i.floor, i.max)) by {
        reveal(Num::lesser);
    }
    assert(usable_dt(i.dt_s) == i.dt_s) by {
        reveal(Num::lesser);
        lemma_compare(Num(ZERO), i.dt_s);
        lemma_compare(Num(MAX_DT_S), i.dt_s);
    }
    let c = s.clocked(i);
    let b = c.bounded(i);
    assert(c.held(s.thermal) == s.thermal && c.held(s.shadow) == s.shadow && c.held(
        s.requested->0,
    ) == s.requested->0) by {
        reveal(Num::within);
    }
    assert(!c.floor_changes(i) && !c.max_lowers_request(i)) by {
        reveal(LoopState::floor_changes);
        reveal(LoopState::max_lowers_request);
    }
    assert(b == LoopState { pending_immediate: b.pending_immediate, ..c }) by {
        reveal(LoopState::bounded);
        reveal(LoopState::clamped);
    }
    let n = b.noted(i);
    assert(n == b) by {
        reveal(LoopState::noted);
    }
    assert(!c.mismatch_ends(i)) by {
        reveal(LoopState::mismatch_ends);
    }
    assert(n.regained(p, i, false) == ready(s, i)) by {
        reveal(LoopState::regained);
    }
    reveal(LoopState::advanced);
}

/// A loop that its shadow candidate ruled hands over in the first hot tick of an
/// episode: the thermal candidate starts from the cap in force; with a full
/// history it starts no higher than the highest recent draw with the smaller of
/// the two headrooms, within the bounds. The shadow candidate stays, the error
/// starts afresh, and no other episode begins before the loop is armed again.
pub proof fn lemma_hot_tick_hands_over(
    s: LoopState,
    p: Plant,
    recent: Seq<(Num, Num)>,
    i: TickInput,
    b: nat,
)
    requires
        in_regulation(s, i),
        16 * b <= reach(),
        error_of(i).value() < 0,
        s.hot_episode_armed && s.previous_selected == Some(Selected::Shadow) && !s.draw_missing,
        s.last_applied is Some ==> s.last_applied->0.finite(),
        forall|j: int|
            0 <= j < s.history_after(recent, i).len() ==> (#[trigger] s.history_after(
                recent,
                i,
            )[j]).1.finite(),
        peak_draw(s.history_after(recent, i)).steps() <= b,
        p.hot_headroom.finite() && p.hot_headroom.steps() <= b,
        i.shadow_headroom.finite() && i.shadow_headroom.steps() <= b,
    ensures
        ({
            let (t, d) = s.ticked(p, recent, i);
            let history = s.history_after(recent, i);
            let (lo, hi) = (s.floor.value(), s.max.value());
            let start = pulled(
                if s.last_applied is Some {
                    s.last_applied->0.value()
                } else {
                    s.requested->0.value()
                },
                lo,
                hi,
            );
            let useful = pulled(
                peak_draw(history).value() + low(p.hot_headroom.value(), i.shadow_headroom.value()),
                lo,
                hi,
            );
            let full = history_full(history, s.draw_clock_s.plus(i.dt_s));
            &&& t.thermal.finite() && d.thermal == t.thermal
            &&& !full ==> t.thermal.value() == start && d.cap.value() == start
            &&& full ==> apart(t.thermal.value(), low(start, useful)) <= 4 * grain(b as int)
            &&& t.shadow == s.shadow && d.shadow == s.shadow
            &&& t.e_prev == error_of(i) && t.elapsed_s == Num(ZERO)
            &&& !t.hot_episode_armed && t.hot_rearm_s == Num(ZERO)
        }),
{
    lemma_ready(s, p, recent, i);
    lemma_zero();
    lemma_compare(error_of(i), Num(ZERO));
    let g = ready(s, i);
    let history = s.history_after(recent, i);
    assert(!g.trim_due(history, false));
    let g = g.trim_settled(false);
    assert(g == ready(s, i)) by {
        reveal(LoopState::trim_settled);
    }
    assert(g.hands_over(i, false)) by {
        reveal(LoopState::hands_over);
    }
    assert(!g.enters_hot(i)) by {
        reveal(LoopState::enters_hot);
    }
    reveal(LoopState::control_tick);
    reveal(LoopState::hot_tick);
    reveal(LoopState::controlled);
    reveal(LoopState::decided);
    reveal(LoopState::hot_state);
    reveal(LoopState::hot_level);
    reveal(LoopState::hot_start);
    reveal(LoopState::hot_ceiling);
    let from = first_of(s.last_applied, s.requested, s.shadow);
    lemma_within_value(from, s.floor, s.max);
    let start = g.hot_start(i);
    assert(start == from.within(s.floor, s.max));
    lemma_peak_is_the_highest_draw(history);
    let peak = peak_draw(history);
    lemma_lesser_value(p.hot_headroom, i.shadow_headroom);
    let room = p.hot_headroom.lesser(i.shadow_headroom);
    lemma_steps_zero(p.hot_headroom);
    lemma_steps_zero(i.shadow_headroom);
    lemma_steps_zero(peak);
    lemma_steps_zero(room);
    lemma_plus_error(peak, room);
    let sum = peak.plus(room);
    lemma_within_value(sum, s.floor, s.max);
    let useful = sum.within(s.floor, s.max);
    assert(g.hot_ceiling(p, history, i) == useful);
    lemma_lesser_value(start, useful);
    assert(!history_full(history, g.draw_clock_s) ==> g.hot_cap(p, history, i, false) == start) by {
        reveal(LoopState::hot_cap);
        lemma_compare(start, start);
    }
}

/// After a hot episode the loop is armed again once it has been no warmer than
/// its target for five seconds; a hot tick starts the wait over. `z` is any
/// number of seconds below five.
pub proof fn lemma_rearming_takes_five_cool_seconds(s: LoopState, i: TickInput, z: Num)
    requires
        !s.hot_episode_armed,
        s.hot_rearm_s.finite() && error_of(i).finite() && z.finite() && z.value() < 5 * unit(),
        i.dt_s.finite() && 0 <= i.dt_s.value() <= 2 * unit(),
    ensures
        ({
            let r = s.rearmed(i);
            let waited = s.hot_rearm_s.value() + i.dt_s.value();
            &&& error_of(i).value() < 0 ==> !r.hot_episode_armed && r.hot_rearm_s == Num(ZERO)
            &&& error_of(i).value() >= 0 && waited >= 5 * unit() ==> r.hot_episode_armed
                && r.hot_rearm_s == Num(ZERO)
            &&& error_of(i).value() >= 0 && waited <= z.value() ==> !r.hot_episode_armed
                && r.hot_rearm_s == s.hot_rearm_s.plus(i.dt_s)
            &&& r == (LoopState {
                hot_episode_armed: r.hot_episode_armed,
                hot_rearm_s: r.hot_rearm_s,
                ..s
            })
        }),
{
    reveal(LoopState::rearmed);
    lemma_zero();
    lemma_clocks();
    lemma_compare(Num(ZERO), error_of(i));
    assert(usable_dt(i.dt_s) == i.dt_s) by {
        reveal(Num::lesser);
        lemma_compare(Num(ZERO), i.dt_s);
        lemma_compare(Num(MAX_DT_S), i.dt_s);
    }
    lemma_sum_side(s.hot_rearm_s, i.dt_s, Num(PI_PERIOD_S));
    lemma_sum_side(s.hot_rearm_s, i.dt_s, z);
    lemma_compare(z, Num(PI_PERIOD_S));
    reveal(Num::le);
    reveal(Num::lt);
}

/// When the thermal candidate joins or leaves, the cap stays the one in force:
/// the one applied, else the one decided. The candidate that takes over starts
/// from it and the other one stays where it is. A thermal candidate that joins
/// has its error start afresh, and a hot episode may begin only if it joins
/// while it is not hot.
pub proof fn lemma_mode_change_keeps_the_cap(
    s: LoopState,
    p: Plant,
    recent: Seq<(Num, Num)>,
    i: TickInput,
)
    requires
        in_control(s, i),
        s.last_mode is Some && s.last_mode->0 != i.mode,
        s.last_applied is Some ==> s.last_applied->0.finite(),
    ensures
        ({
            let (t, d) = s.ticked(p, recent, i);
            let cap = pulled(
                if s.last_applied is Some {
                    s.last_applied->0.value()
                } else {
                    s.requested->0.value()
                },
                s.floor.value(),
                s.max.value(),
            );
            &&& d.cap.finite() && d.cap.value() == cap
            &&& t.last_mode == Some(i.mode)
            &&& i.mode == ThermalMode::Bypass ==> t.shadow.value() == cap && t.thermal == s.thermal
                && d.thermal == s.max
            &&& i.mode == ThermalMode::Regulate ==> {
                &&& t.thermal.value() == cap && t.shadow == s.shadow
                &&& t.e_prev == error_of(i) && t.elapsed_s == Num(ZERO)
                &&& t.hot_episode_armed == (error_of(i).value() >= 0)
            }
        }),
{
    lemma_ready(s, p, recent, i);
    lemma_zero();
    lemma_compare(Num(ZERO), error_of(i));
    let g = ready(s, i);
    let from = first_of(s.last_applied, s.requested, s.max);
    lemma_within_value(from, s.floor, s.max);
    let cap = g.in_force();
    lemma_within_value(cap, s.floor, s.max);
    reveal(LoopState::control_tick);
    reveal(LoopState::mode_tick);
    reveal(LoopState::controlled);
    reveal(LoopState::decided);
    reveal(LoopState::shadow_at);
    reveal(LoopState::regulating_at);
    reveal(LoopState::requesting);
}

/// A group that has been seen counts as lost once it has been missing for a
/// minute, and not before. `z` is any number of seconds below sixty.
pub proof fn lemma_group_is_lost_after_a_minute(
    s: LoopState,
    p: Plant,
    recent: Seq<(Num, Num)>,
    i: TickInput,
    z: Num,
)
    requires
        s.wf(),
        !i.resumed && i.group_c is None,
        s.group_seen && !s.group_lost && s.group_missing_s.finite(),
        i.dt_s.finite() && 0 <= i.dt_s.value() <= 2 * unit(),
        z.finite() && z.value() < 60 * unit(),
    ensures
        ({
            let d = s.ticked(p, recent, i).1;
            let waited = s.group_missing_s.value() + i.dt_s.value();
            &&& waited >= 60 * unit() ==> d.group_lost
            &&& waited <= z.value() ==> !d.group_lost
        }),
{
    crate::device_loop::laws::lemma_missing_group(s, p, recent, i);
    lemma_zero();
    lemma_clocks();
    lemma2_to64();
    lemma2_to64_rest();
    let minute = Num(crate::device_loop::GROUP_UNAVAILABLE_DWELL_S);
    lemma_whole(minute, 60, 47);
    assert(usable_dt(i.dt_s) == i.dt_s) by {
        reveal(Num::lesser);
        lemma_compare(Num(ZERO), i.dt_s);
        lemma_compare(Num(MAX_DT_S), i.dt_s);
    }
    lemma_sum_side(s.group_missing_s, i.dt_s, minute);
    lemma_sum_side(s.group_missing_s, i.dt_s, z);
    lemma_compare(z, minute);
    reveal(Num::le);
    reveal(Num::lt);
}

/// While the thermal candidate is bypassed it stays where it is and does not
/// count: the shadow candidate follows the draw however hot the group is.
pub proof fn lemma_bypass_follows_the_draw(
    s: LoopState,
    p: Plant,
    recent: Seq<(Num, Num)>,
    i: TickInput,
    b: nat,
)
    requires
        in_control(s, i),
        i.mode == ThermalMode::Bypass && s.last_mode == Some(ThermalMode::Bypass),
        movable(s, p, i, b),
        i.shadow_enabled,
        !s.draw_missing,
        i.draw is Some && i.draw->0.finite() && i.draw->0.steps() <= b,
    ensures
        ({
            let (t, d) = s.ticked(p, recent, i);
            let u = unit() as int;
            let goal = pulled(
                i.draw->0.value() + i.shadow_headroom.value(),
                s.floor.value(),
                s.max.value(),
            );
            &&& t.thermal == s.thermal && t.e_prev == s.e_prev && d.thermal == s.max
            &&& d.shadow == t.shadow && t.shadow.finite()
            &&& apart(
                t.shadow.value() * u,
                toward(
                    s.shadow.value() * u,
                    goal * u,
                    rise_of(p, i.shadow_headroom).value() * i.dt_s.value(),
                    i.shadow_fall_rate.value() * i.dt_s.value(),
                ),
            ) <= 32 * grain(b as int) * u
        }),
{
    lemma_ready(s, p, recent, i);
    lemma_shadowed_value(s, p, i, b);
    let g = ready(s, i);
    let history = s.history_after(recent, i);
    assert(!g.trim_due(history, false));
    assert(g.trim_settled(false) == g) by {
        reveal(LoopState::trim_settled);
    }
    assert(!g.hands_over(i, false)) by {
        reveal(LoopState::hands_over);
    }
    assert(!g.enters_hot(i)) by {
        reveal(LoopState::enters_hot);
    }
    let r = g.rearmed(i);
    assert(r == LoopState {
        hot_episode_armed: r.hot_episode_armed,
        hot_rearm_s: r.hot_rearm_s,
        ..g
    }) by {
        reveal(LoopState::rearmed);
    }
    let h = r.shadowed(p, i);
    lemma_shadow_reads(r, s, p, i);
    assert(h == LoopState {
        shadow: h.shadow,
        draw_missing: h.draw_missing,
        draw_missing_s: h.draw_missing_s,
        ..r
    }) by {
        reveal(LoopState::shadowed);
    }
    reveal(LoopState::control_tick);
    reveal(LoopState::ordinary_tick);
    reveal(LoopState::regulated);
    reveal(LoopState::controlled);
    reveal(LoopState::requesting);
    reveal(LoopState::decided);
}

/// Control that begins while it is already hot begins from the cap applied: both
/// candidates and the cap are that, within the bounds. The error starts afresh,
/// and what the draw does not use is skipped once its history is full.
pub proof fn lemma_hot_entry_starts_from_the_cap_applied(
    s: LoopState,
    p: Plant,
    recent: Seq<(Num, Num)>,
    i: TickInput,
)
    requires
        in_control(s, i),
        s.control_entry_pending && i.mode == ThermalMode::Regulate,
        s.last_mode is None || s.last_mode == Some(ThermalMode::Regulate),
        s.previous_selected != Some(Selected::Shadow),
        error_of(i).value() < 0,
        s.last_applied is Some && s.last_applied->0.finite(),
    ensures
        ({
            let (t, d) = s.ticked(p, recent, i);
            let cap = pulled(s.last_applied->0.value(), s.floor.value(), s.max.value());
            &&& t.thermal.finite() && t.thermal.value() == cap
            &&& t.shadow.finite() && t.shadow.value() == cap
            &&& d.cap.finite() && d.cap.value() == cap
            &&& t.e_prev == error_of(i) && t.elapsed_s == Num(ZERO)
            &&& t.hot_entry_trim_pending == i.shadow_enabled
            &&& !t.hot_episode_armed && !t.control_entry_pending
        }),
{
    lemma_ready(s, p, recent, i);
    lemma_zero();
    lemma_compare(error_of(i), Num(ZERO));
    let g = ready(s, i);
    let history = s.history_after(recent, i);
    assert(!g.trim_due(history, false));
    assert(g.trim_settled(false) == g) by {
        reveal(LoopState::trim_settled);
    }
    assert(!g.hands_over(i, false)) by {
        reveal(LoopState::hands_over);
    }
    assert(g.enters_hot(i)) by {
        reveal(LoopState::enters_hot);
    }
    reveal(LoopState::control_tick);
    reveal(LoopState::hot_tick);
    reveal(LoopState::controlled);
    reveal(LoopState::decided);
    reveal(LoopState::hot_state);
    reveal(LoopState::hot_level);
    reveal(LoopState::hot_start);
    reveal(LoopState::hot_cap);
    lemma_within_value(s.last_applied->0, s.floor, s.max);
    let start = g.hot_start(i);
    lemma_compare(start, start);
}

/// Skipping what the draw does not use takes the thermal candidate to the lowest
/// of itself, the cap in force, and the highest recent draw with the smaller of
/// the two headrooms within the bounds.
pub proof fn lemma_trim_goes_to_the_useful_level(
    s: LoopState,
    p: Plant,
    recent: Seq<(Num, Num)>,
    i: TickInput,
    b: nat,
)
    requires
        16 * b <= reach(),
        s.floor.finite() && s.max.finite() && s.floor.value() <= s.max.value(),
        s.thermal.finite(),
        s.last_applied is Some && s.last_applied->0.finite(),
        forall|j: int| 0 <= j < recent.len() ==> (#[trigger] recent[j]).1.finite(),
        peak_draw(recent).steps() <= b,
        p.hot_headroom.finite() && p.hot_headroom.steps() <= b,
        i.shadow_headroom.finite() && i.shadow_headroom.steps() <= b,
    ensures
        ({
            let r = s.trim_level(p, recent, i);
            let (lo, hi) = (s.floor.value(), s.max.value());
            let useful = pulled(
                peak_draw(recent).value() + low(p.hot_headroom.value(), i.shadow_headroom.value()),
                lo,
                hi,
            );
            let applied = pulled(s.last_applied->0.value(), lo, hi);
            &&& r.finite()
            &&& apart(r.value(), low(low(s.thermal.value(), applied), useful)) <= 4 * grain(
                b as int,
            )
        }),
{
    reveal(LoopState::trim_level);
    reveal(LoopState::hot_ceiling);
    lemma_within_value(s.last_applied->0, s.floor, s.max);
    let force = s.in_force();
    lemma_lesser_value(s.thermal, force);
    lemma_peak_is_the_highest_draw(recent);
    let peak = peak_draw(recent);
    lemma_lesser_value(p.hot_headroom, i.shadow_headroom);
    let room = p.hot_headroom.lesser(i.shadow_headroom);
    lemma_steps_zero(p.hot_headroom);
    lemma_steps_zero(i.shadow_headroom);
    lemma_steps_zero(peak);
    lemma_plus_error(peak, room);
    lemma_within_value(peak.plus(room), s.floor, s.max);
    lemma_lesser_value(s.thermal.lesser(force), s.hot_ceiling(p, recent, i));
}

/// How many points a history loses at a cut.
proof fn lemma_trimmed(recent: Seq<(Num, Num)>, cut: Num) -> (k: int)
    requires
        recent.len() > 0,
    ensures
        0 <= k < recent.len(),
        trimmed(recent, cut) == recent.skip(k),
        forall|j: int| 0 < j <= k ==> (#[trigger] recent[j]).0.le(cut),
        k + 1 < recent.len() ==> !recent[k + 1].0.le(cut),
    decreases recent.len(),
{
    if recent.len() > 1 && recent[1].0.le(cut) {
        let rest = recent.skip(1);
        let n = lemma_trimmed(rest, cut);
        assert(rest.skip(n) =~= recent.skip(n + 1));
        assert forall|j: int| 0 < j <= n + 1 implies (#[trigger] recent[j]).0.le(cut) by {
            if j > 1 {
                assert(rest[j - 1] == recent[j]);
            }
        }
        if n + 2 < recent.len() {
            assert(rest[n + 1] == recent[n + 2]);
        }
        n + 1
    } else {
        assert(recent.skip(0) =~= recent);
        0
    }
}

/// A positive draw of a usable tick joins the history with its time, and the
/// history loses exactly the points whose successor is five seconds old: it
/// reaches back five seconds and no farther than it must. Any other tick empties
/// it. `z` is any time from five seconds ago on.
pub proof fn lemma_history_reaches_back_five_seconds(
    s: LoopState,
    recent: Seq<(Num, Num)>,
    i: TickInput,
    z: Num,
)
    requires
        s.draw_clock_s.finite() && z.finite() && z.value() >= s.draw_clock_s.value() - 5 * unit(),
        i.dt_s.finite(),
        forall|j: int| 0 <= j < recent.len() ==> (#[trigger] recent[j]).0.finite(),
    ensures
        ({
            let h = s.history(recent, i);
            let counts = i.draw is Some && i.draw->0.finite() && i.draw->0.value() > 0;
            let usable = !i.resumed && i.group_c is Some && 0 < i.dt_s.value() <= 2 * unit()
                && i.actuator != ActuatorState::Mismatch && (!s.mismatch_latched || i.actuator
                == ActuatorState::Verified);
            let all = recent.push((s.draw_clock_s, i.draw->0));
            &&& !(counts && usable) ==> h.len() == 0
            &&& counts && usable ==> exists|k: int|
                0 <= k < all.len() && h == #[trigger] all.skip(k) && (forall|j: int|
                    0 < j <= k ==> (#[trigger] all[j]).0.value() <= z.value()) && (k + 1
                    < all.len() ==> all[k + 1].0.value() > s.draw_clock_s.value() - 5 * unit())
        }),
{
    reveal(LoopState::history);
    reveal(LoopState::history_broken);
    lemma_zero();
    lemma_clocks();
    lemma_compare(Num(MAX_DT_S), i.dt_s);
    lemma_compare(Num(ZERO), i.dt_s);
    assert(usable_dt(i.dt_s).same(Num(ZERO)) == (i.dt_s.value() <= 0)) by {
        reveal(Num::lesser);
        let d = usable_dt(i.dt_s);
        lemma_compare(d, Num(ZERO));
        lemma_lesser_value(i.dt_s, Num(MAX_DT_S));
        vstd::arithmetic::power2::lemma_pow2_pos(1074);
    }
    if let Some(d) = i.draw {
        if d.finite() {
            lemma_compare(Num(ZERO), d);
        }
        let all = recent.push((s.draw_clock_s, d));
        let five = Num(DRAW_HISTORY_S);
        let cut = s.draw_clock_s.minus(five);
        let k = lemma_trimmed(all, cut);
        assert forall|j: int| 0 < j <= k implies (#[trigger] all[j]).0.value() <= z.value() by {
            lemma_difference_side(s.draw_clock_s, five, z);
            lemma_compare(all[j].0, z);
            reveal(Num::le);
        }
        if k + 1 < all.len() {
            lemma_difference_side(s.draw_clock_s, five, all[k + 1].0);
        }
        assert(trimmed(all, cut) == all.skip(k));
    }
}

/// Without a temperature the cap is the one applied while the group is not lost,
/// and the highest one once it is or where none was applied; within half a step
/// of the device's grid.
pub proof fn lemma_missing_group_keeps_the_cap_applied(
    s: LoopState,
    p: Plant,
    recent: Seq<(Num, Num)>,
    i: TickInput,
    b: nat,
)
    requires
        s.wf(),
        !i.resumed && i.group_c is None,
        p.grid.finite() && p.grid.value() > 0,
        16 * (b + p.grid.steps()) <= reach(),
        b <= 0x1_0000_0000 * p.grid.steps(),
        s.last_applied is Some ==> s.last_applied->0.finite() && s.last_applied->0.steps() <= b,
        ({
            let after = s.ticked(p, recent, i).0;
            &&& after.floor.finite() && after.max.finite() && after.max.steps() <= b
            &&& after.floor.value() <= after.max.value()
        }),
    ensures
        ({
            let (after, d) = s.ticked(p, recent, i);
            let level = if d.group_lost || s.last_applied is None {
                after.max.value()
            } else {
                s.last_applied->0.value()
            };
            &&& d.cap.finite()
            &&& 2 * apart(d.cap.value(), pulled(level, after.floor.value(), after.max.value()))
                <= p.grid.value() + 16 * grain((b + p.grid.steps()) as int)
        }),
{
    crate::device_loop::laws::lemma_missing_group(s, p, recent, i);
    reveal(crate::device_loop::on_grid);
    let (after, d) = s.ticked(p, recent, i);
    let level = if d.group_lost {
        after.max
    } else {
        first_of(s.last_applied, None, after.max)
    };
    crate::grid::lemma_gridded_value(level, p.grid, b);
    let g = crate::device_loop::on_grid(p, level);
    lemma_within_value(g, after.floor, after.max);
}

} // verus!
