//! The steps of a device loop's tick.
use crate::device_loop::{
    bounds_of, control_dt, error_of, finite_or_zero, first_or, history_full, moved_toward, on_grid,
    ordered_bounds, peak_draw, positive_or_zero, select_candidates, shadow_target, trimmed,
    ActuatorState, Bound, DeviceDecision, Hold, LoopState, Plant, Selected, ThermalMode, TickInput,
    CPU_GRID, DRAW_HISTORY_S, GPU_SHADOW_RISE_RATE, GROUP_UNAVAILABLE_DWELL_S, MAX_DT_S,
    MAX_PI_ELAPSED_S, PI_PERIOD_S,
};
use crate::num::{Num, ONE, ZERO};
use std::collections::VecDeque;
use vstd::prelude::*;

verus! {

impl LoopState {
    fn hold(self, x: Num) -> (r: Num)
        requires
            self.wf(),
        ensures
            r == self.held(x),
    {
        x.clamp(self.floor, self.max)
    }

    fn cap_in_force(self) -> (r: Num)
        requires
            self.wf(),
        ensures
            r == self.in_force(),
    {
        self.hold(first_or(self.last_applied, self.requested, self.max))
    }

    fn at_most_max(self, x: Num) -> (r: Num)
        ensures
            r == self.below_max(x),
    {
        if x > self.max {
            self.max
        } else {
            x
        }
    }

    /// Applies a guard ceiling; whether it lowered the cap last decided.
    pub(crate) fn with_ceiling(self, max: Num) -> (r: (LoopState, bool))
        requires
            self.wf(),
        ensures
            r.0.wf(),
            r.0 == self.capped(max),
            r.0.floor == self.floor,
            r.0.max == self.ceiling(max),
            r.1 == self.lowers_request(max),
    {
        proof {
            reveal(Num::le);
            reveal(Num::lt);
            reveal(Num::greater);
        }
        proof {
            reveal(LoopState::capped);
            reveal(LoopState::lowers_request);
        }
        if !max.is_finite() {
            return (self, false);
        }
        if max >= self.max {
            return (LoopState { max, ..self }, false);
        }
        let lowered = LoopState { max: max.max(self.floor), ..self };
        let (requested, request_lowered) = match self.requested {
            Some(value) => (Some(lowered.at_most_max(value)), value > lowered.max),
            None => (None, false),
        };
        let applied_above_max = match self.last_applied {
            Some(value) => value > lowered.max,
            None => false,
        };
        (
            LoopState {
                thermal: lowered.at_most_max(self.thermal),
                shadow: lowered.at_most_max(self.shadow),
                requested,
                pending_immediate: self.pending_immediate || request_lowered || applied_above_max,
                ..lowered
            },
            request_lowered,
        )
    }

    /// Everything within the bounds.
    fn pulled_in(self) -> (r: LoopState)
        requires
            self.wf(),
        ensures
            r == self.clamped(),
            r.floor == self.floor && r.max == self.max,
    {
        proof {
            reveal(LoopState::clamped);
        }
        let requested = match self.requested {
            Some(value) => Some(self.hold(value)),
            None => None,
        };
        LoopState {
            thermal: self.hold(self.thermal),
            shadow: self.hold(self.shadow),
            requested,
            ..self
        }
    }

    /// Whether something lies outside of the bounds.
    fn sticks_out(self) -> (r: bool)
        requires
            self.wf(),
        ensures
            r == self.clamp_moves(),
    {
        proof {
            reveal(LoopState::clamp_moves);
        }
        let request_moved = match self.requested {
            Some(value) => self.hold(value) != value,
            None => false,
        };
        let applied_outside = match self.last_applied {
            Some(value) => value < self.floor || value > self.max,
            None => false,
        };
        self.hold(self.thermal) != self.thermal || self.hold(self.shadow) != self.shadow
            || request_moved || applied_outside
    }

    /// Pulls everything within the bounds; whether that moved anything.
    fn clamp_all_to_bounds(self) -> (r: (LoopState, bool))
        requires
            self.wf(),
        ensures
            r.0 == self.clamped(),
            r.0.floor == self.floor && r.0.max == self.max,
            r.1 == self.clamp_moves(),
    {
        (self.pulled_in(), self.sticks_out())
    }

    /// Puts the bounds of a tick in force. Also returns whether the floor
    /// changed or the maximum lowered the cap last decided.
    fn with_bounds(self, input: TickInput) -> (r: (LoopState, bool))
        requires
            self.wf(),
        ensures
            r.0.wf(),
            r.0 == self.bounded(input),
            r.0.floor == bounds_of(input.floor, input.max).0,
            r.0.max == bounds_of(input.floor, input.max).1,
            r.1 == (self.floor_changes(input) || self.max_lowers_request(input)),
    {
        proof {
            reveal(LoopState::bounded);
            reveal(LoopState::floor_changes);
            reveal(LoopState::max_lowers_request);
            reveal(Num::le);
            reveal(Num::lt);
            reveal(Num::greater);
        }
        let (floor, max) = ordered_bounds(input.floor, input.max);
        if !self.bounds_initialised {
            let first = LoopState { floor, max, bounds_initialised: true, ..self };
            let (state, moved) = first.clamp_all_to_bounds();
            return (
                LoopState { pending_immediate: self.pending_immediate || moved, ..state },
                false,
            );
        }
        let floor_changed = floor != self.floor;
        let floored = LoopState { floor, ..self };
        let (moving, request_lowered) = if max < self.max {
            floored.with_ceiling(max)
        } else {
            (LoopState { max, ..floored }, false)
        };
        let (state, moved) = moving.clamp_all_to_bounds();
        (
            LoopState {
                pending_immediate: moving.pending_immediate || (floor_changed && moved),
                ..state
            },
            floor_changed || request_lowered,
        )
    }

    /// Takes in what the input says of the actuator and of a pending trim.
    fn with_evidence(self, input: TickInput) -> (r: LoopState)
        ensures
            r == self.noted(input),
            r.floor == self.floor && r.max == self.max,
    {
        proof {
            reveal(LoopState::noted);
        }
        let cooled = match input.group_c {
            Some(group) => input.t_star - group >= Num(ZERO),
            None => false,
        };
        LoopState {
            hot_entry_trim_pending: self.hot_entry_trim_pending && input.mode
                == ThermalMode::Regulate && input.shadow_enabled && !cooled,
            mismatch_latched: match input.actuator {
                ActuatorState::Mismatch => true,
                ActuatorState::Verified => false,
                ActuatorState::Unverifiable => self.mismatch_latched && !input.resumed,
            },
            ..self
        }
    }

    /// Whether the draw history says nothing about this tick.
    fn breaks_history(self, input: TickInput) -> (r: bool)
        ensures
            r == self.history_broken(input),
    {
        proof {
            reveal(LoopState::history_broken);
        }
        input.resumed || input.dt_s > Num(MAX_DT_S) || control_dt(input.dt_s) == Num(ZERO)
            || input.group_c.is_none() || input.actuator == ActuatorState::Mismatch || (
        self.mismatch_latched && input.actuator != ActuatorState::Verified)
    }

    fn decision(
        self,
        input: TickInput,
        cap: Num,
        thermal: Num,
        shadow: Num,
        write_allowed: bool,
        group_lost: bool,
    ) -> (r: DeviceDecision)
        requires
            self.wf(),
        ensures
            r == self.decided(input, cap, thermal, shadow, write_allowed, group_lost),
    {
        proof {
            reveal(LoopState::decided);
        }
        let selected = if input.group_c.is_none() {
            if cap == self.floor {
                Selected::Floor
            } else if cap == self.max {
                Selected::Max
            } else {
                Selected::Thermal
            }
        } else {
            select_candidates(thermal, shadow, self.floor, self.max).1
        };
        let hold = if input.group_c.is_none() {
            Hold::GroupUnavailable
        } else if self.mismatch_latched {
            Hold::ActuatorMismatch
        } else if input.mode == ThermalMode::Bypass {
            Hold::Bypass
        } else if input.draw.is_none() {
            Hold::DrawUnavailable
        } else {
            match selected {
                Selected::Floor => Hold::Clamp(Bound::Floor),
                Selected::Max => Hold::Clamp(Bound::Max),
                Selected::Shadow => Hold::Shadow,
                Selected::Thermal => Hold::Free,
            }
        };
        DeviceDecision {
            t_star: input.t_star,
            group_c: input.group_c,
            err_c: match input.group_c {
                Some(group) => Some(input.t_star - group),
                None => None,
            },
            thermal,
            shadow,
            cap,
            selected,
            hold,
            write_allowed,
            group_lost,
            write_immediately: self.pending_immediate,
        }
    }

    /// The state after a tick that reports any pending immediate write and
    /// that had a valid group.
    fn record_valid_tick(self, input: TickInput, selected: Selected) -> (r: LoopState)
        ensures
            r == self.reported().recorded(input, selected),
    {
        LoopState {
            pending_immediate: false,
            prev_group: input.group_c,
            prev_t_star: Some(input.t_star),
            previous_selected: Some(selected),
            ..self
        }
    }

    fn request(self, cap: Num) -> (r: LoopState)
        ensures
            r == self.requesting(cap),
            r.floor == self.floor && r.max == self.max,
    {
        proof {
            reveal(LoopState::requesting);
        }
        LoopState { requested: Some(cap), ..self }
    }

    fn take_shadow(self, cap: Num) -> (r: LoopState)
        requires
            self.wf(),
        ensures
            r == self.shadow_at(cap),
            r.floor == self.floor && r.max == self.max,
    {
        proof {
            reveal(LoopState::shadow_at);
        }
        LoopState { shadow: self.hold(cap), ..self }
    }

    fn take_thermal(self, cap: Num, error: Num) -> (r: LoopState)
        requires
            self.wf(),
        ensures
            r == self.regulating_at(cap, error),
            r.floor == self.floor && r.max == self.max,
    {
        proof {
            reveal(LoopState::regulating_at);
        }
        LoopState {
            hot_episode_armed: error >= Num(ZERO),
            hot_rearm_s: Num(ZERO),
            thermal: self.hold(cap),
            e_prev: error,
            elapsed_s: Num(ZERO),
            ..self
        }
    }

    fn settle_trim(self, due: bool) -> (r: LoopState)
        ensures
            r == self.trim_settled(due),
            r.floor == self.floor && r.max == self.max,
    {
        proof {
            reveal(LoopState::trim_settled);
        }
        LoopState { hot_entry_trim_pending: self.hot_entry_trim_pending && !due, ..self }
    }

    /// The state after a tick on which the loop controlled.
    fn record_controlled_tick(self, input: TickInput, selected: Selected) -> (r: LoopState)
        ensures
            r == self.controlled(input, selected),
            r.floor == self.floor && r.max == self.max,
    {
        proof {
            reveal(LoopState::controlled);
        }
        LoopState {
            control_entry_pending: false,
            last_mode: Some(input.mode),
            ..self.record_valid_tick(input, selected)
        }
    }

    fn tick_resumed(self, input: TickInput) -> (r: (LoopState, DeviceDecision))
        requires
            self.wf(),
        ensures
            r.0 == self.resume_tick(input).0,
            r.1 == self.resume_tick(input).1,
            r.0.floor == self.floor && r.0.max == self.max,
    {
        proof {
            reveal(LoopState::resume_tick);
        }
        let cap = self.cap_in_force();
        let write_allowed = input.group_c.is_some() || self.group_seen;
        let (thermal, shadow) = if self.entry_candidates_seeded {
            (self.thermal, self.shadow)
        } else {
            (cap, cap)
        };
        let state = LoopState {
            elapsed_s: Num(ZERO),
            group_seen: write_allowed,
            group_missing_s: Num(ZERO),
            group_missing: input.group_c.is_none(),
            group_lost: false,
            group_reset_pending: false,
            draw_missing_s: Num(ZERO),
            draw_missing: false,
            hot_rearm_s: Num(ZERO),
            prev_group: None,
            prev_t_star: None,
            previous_selected: None,
            last_mode: Some(input.mode),
            e_prev: match input.group_c {
                Some(group) => input.t_star - group,
                None => self.e_prev,
            },
            thermal,
            shadow,
            entry_candidates_seeded: true,
            requested: Some(cap),
            pending_immediate: write_allowed,
            ..self
        };
        let decision = state.decision(input, cap, thermal, shadow, write_allowed, false);
        let after = LoopState { pending_immediate: false, ..state };
        assert(decision == self.resume_tick(input).1);
        assert(after == self.resume_tick(input).0);
        (after, decision)
    }

    fn tick_missing(self, p: Plant, input: TickInput) -> (r: (LoopState, DeviceDecision))
        requires
            self.wf(),
        ensures
            r.0 == self.missing_tick(p, input).0,
            r.1 == self.missing_tick(p, input).1,
            r.0.floor == self.floor && r.0.max == self.max,
    {
        proof {
            reveal(LoopState::missing_tick);
        }
        let group_missing_s = if self.group_seen {
            self.group_missing_s + control_dt(input.dt_s)
        } else {
            self.group_missing_s
        };
        let lost_now = self.group_seen && !self.group_lost && group_missing_s >= Num(
            GROUP_UNAVAILABLE_DWELL_S,
        );
        let due = self.group_reset_pending || lost_now;
        let reset = due && !self.mismatch_latched;
        let (thermal, shadow) = if reset {
            (self.max, self.max)
        } else {
            (self.thermal, self.shadow)
        };
        let requested = if lost_now {
            Some(quantize(p, self.max))
        } else {
            self.requested
        };
        let state = LoopState {
            elapsed_s: Num(ZERO),
            hot_rearm_s: Num(ZERO),
            group_missing: true,
            group_missing_s,
            group_lost: self.group_lost || lost_now,
            requested,
            group_reset_pending: due && !reset,
            thermal,
            shadow,
            ..self
        };
        let cap = if state.group_lost {
            state.max
        } else {
            first_or(state.last_applied, None, state.max)
        };
        let cap = state.hold(quantize(p, cap));
        let decision = state.decision(
            input,
            cap,
            state.thermal,
            state.max,
            state.group_seen,
            state.group_lost,
        );
        let after = LoopState { pending_immediate: false, ..state };
        assert(decision == self.missing_tick(p, input).1);
        assert(after == self.missing_tick(p, input).0);
        (after, decision)
    }

    fn shadow_end(self, input: TickInput) -> (r: Num)
        requires
            self.wf(),
        ensures
            r == self.shadow_goal(input),
    {
        proof {
            reveal(LoopState::shadow_goal);
        }
        match input.draw {
            Some(draw) => {
                if input.shadow_enabled {
                    shadow_target(draw, input.shadow_headroom, self.floor, self.max)
                } else {
                    self.max
                }
            },
            None => self.max,
        }
    }

    /// Takes in that the group has a temperature. Also returns whether the
    /// error starts afresh.
    fn regain_group(self, p: Plant, input: TickInput, error: Num, mismatch_recovered: bool) -> (r: (
        LoopState,
        bool,
    ))
        requires
            self.wf(),
            error == error_of(input),
        ensures
            r.0.floor == self.floor && r.0.max == self.max,
            r.0 == self.regained(p, input, mismatch_recovered),
            r.1 == self.resyncs(mismatch_recovered),
    {
        proof {
            reveal(LoopState::regained);
        }
        let back = !self.group_entered || self.group_missing;
        let resynced_error = back || mismatch_recovered;
        let reset = self.group_reset_pending && !self.mismatch_latched;
        let (thermal, shadow, requested) = if reset {
            (self.max, self.shadow_end(input), Some(quantize(p, self.max)))
        } else {
            (self.thermal, self.shadow, self.requested)
        };
        let (group_missing_s, group_lost) = if back {
            (Num(ZERO), false)
        } else {
            (self.group_missing_s, self.group_lost)
        };
        let (e_prev, elapsed_s) = if resynced_error {
            (error, Num(ZERO))
        } else {
            (self.e_prev, self.elapsed_s)
        };
        (
            LoopState {
                group_seen: true,
                group_entered: true,
                group_missing: false,
                group_missing_s,
                group_lost,
                thermal,
                shadow,
                requested,
                group_reset_pending: self.group_reset_pending && !reset,
                e_prev,
                elapsed_s,
                ..self
            },
            resynced_error,
        )
    }

    fn tick_mismatch(self, input: TickInput, error: Num) -> (r: (LoopState, DeviceDecision))
        requires
            self.wf(),
            error == error_of(input),
        ensures
            r.0 == self.mismatch_tick(input).0,
            r.1 == self.mismatch_tick(input).1,
            r.0.floor == self.floor && r.0.max == self.max,
    {
        proof {
            reveal(LoopState::mismatch_tick);
        }
        let hot_rearm_s = if error < Num(ZERO) {
            Num(ZERO)
        } else {
            self.hot_rearm_s
        };
        let state = LoopState { elapsed_s: Num(ZERO), hot_rearm_s, ..self };
        let cap = self.hold(first_or(self.requested, None, self.max));
        let decision = state.decision(input, cap, state.thermal, state.shadow, true, false);
        let after = state.record_valid_tick(input, decision.selected);
        assert(decision == self.mismatch_tick(input).1);
        assert(after == self.mismatch_tick(input).0);
        (after, decision)
    }

    fn tick_mode_change(self, p: Plant, input: TickInput, error: Num) -> (r: (
        LoopState,
        DeviceDecision,
    ))
        requires
            self.wf(),
            error == error_of(input),
        ensures
            r.0 == self.mode_tick(p, input).0,
            r.1 == self.mode_tick(p, input).1,
            r.0.floor == self.floor && r.0.max == self.max,
    {
        proof {
            reveal(LoopState::mode_tick);
        }
        let cap = self.cap_in_force();
        let taken = match input.mode {
            ThermalMode::Bypass => self.take_shadow(cap),
            ThermalMode::Regulate => self.take_thermal(cap, error),
        };
        let state = taken.request(quantize(p, cap));
        let thermal = if input.mode == ThermalMode::Bypass {
            state.max
        } else {
            state.thermal
        };
        let decision = state.decision(input, cap, thermal, state.shadow, true, false);
        let after = state.record_controlled_tick(input, decision.selected);
        assert(decision == self.mode_tick(p, input).1);
        assert(after == self.mode_tick(p, input).0);
        (after, decision)
    }

    fn slew_and_quantize(
        self,
        p: Plant,
        target: Num,
        selected: Selected,
        dt: Num,
        bypass_slew: bool,
    ) -> (r: Num)
        requires
            self.wf(),
        ensures
            r == self.slewed(p, target, selected, dt, bypass_slew),
    {
        proof {
            reveal(LoopState::slewed);
            reveal(moved_toward);
        }
        let desired = self.hold(quantize(p, target));
        let previous = match self.requested {
            Some(previous) => previous,
            None => {
                return desired;
            },
        };
        if bypass_slew {
            return desired;
        }
        let rise_rate = if selected == Selected::Shadow && p.grid == Num(ONE) {
            Num(GPU_SHADOW_RISE_RATE)
        } else {
            p.rise_rate
        };
        let moved = if desired > previous {
            desired.min(previous + rise_rate * dt)
        } else {
            desired.max(previous - p.fall_rate * dt)
        };
        self.hold(quantize(p, moved))
    }

    fn trim_to(self, thermal: Num, error: Num) -> (r: LoopState)
        requires
            self.wf(),
        ensures
            r == self.trimmed_to(thermal, error),
            r.floor == self.floor && r.max == self.max,
    {
        proof {
            reveal(LoopState::trimmed_to);
        }
        LoopState {
            hot_entry_trim_pending: false,
            requested: Some(self.cap_in_force()),
            thermal: self.hold(thermal),
            e_prev: error,
            elapsed_s: Num(ZERO),
            ..self
        }
    }

    fn tick_trim(
        self,
        p: Plant,
        recent: &VecDeque<(Num, Num)>,
        input: TickInput,
        error: Num,
        thermal: Num,
    ) -> (r: (LoopState, DeviceDecision))
        requires
            self.wf(),
            error == error_of(input),
            thermal == self.trim_level(p, recent@, input),
        ensures
            r.0 == self.trim_tick(p, recent@, input).0,
            r.1 == self.trim_tick(p, recent@, input).1,
            r.0.floor == self.floor && r.0.max == self.max,
    {
        proof {
            reveal(LoopState::trim_tick);
        }
        let taken = self.trim_to(thermal, error);
        let (target, selected) = select_candidates(thermal, taken.shadow, taken.floor, taken.max);
        let cap = taken.slew_and_quantize(p, target, selected, control_dt(input.dt_s), false);
        let state = LoopState { requested: Some(cap), ..taken };
        let decision = state.decision(input, cap, thermal, state.shadow, true, false);
        let after = LoopState {
            last_mode: Some(input.mode),
            ..state.record_valid_tick(input, decision.selected)
        };
        assert(decision == self.trim_tick(p, recent@, input).1);
        assert(after == self.trim_tick(p, recent@, input).0);
        (after, decision)
    }

    fn history_ready(self, recent: &VecDeque<(Num, Num)>) -> (r: bool)
        ensures
            r == history_full(recent@, self.draw_clock_s),
    {
        recent.len() > 0 && self.draw_clock_s - recent[0].0 >= Num(DRAW_HISTORY_S)
    }

    /// The most that the recent draw can use, within the bounds.
    fn recent_ceiling(self, p: Plant, recent: &VecDeque<(Num, Num)>, input: TickInput) -> (r: Num)
        requires
            self.wf(),
        ensures
            r == self.hot_ceiling(p, recent@, input),
    {
        proof {
            reveal(LoopState::hot_ceiling);
        }
        let mut peak = Num(ZERO);
        let mut i: usize = 0;
        while i < recent.len()
            invariant
                i <= recent@.len(),
                peak == peak_draw(recent@.take(i as int)),
            decreases recent@.len() - i,
        {
            proof {
                let next = recent@.take(i + 1);
                assert(next.drop_last() =~= recent@.take(i as int));
                assert(next.last() == recent@[i as int]);
            }
            peak = peak.max(recent[i].1);
            i += 1;
        }
        assert(recent@.take(recent@.len() as int) =~= recent@);
        self.hold(peak + p.hot_headroom.min(input.shadow_headroom))
    }

    fn handing_over(self, input: TickInput, error: Num, resynced_error: bool) -> (r: bool)
        requires
            error == error_of(input),
        ensures
            r == self.hands_over(input, resynced_error),
    {
        proof {
            reveal(LoopState::hands_over);
        }
        let after_shadow = match self.previous_selected {
            Some(selected) => selected == Selected::Shadow,
            None => false,
        };
        input.mode == ThermalMode::Regulate && !resynced_error && self.hot_episode_armed
            && after_shadow && !(self.draw_missing && input.draw.is_some()) && error < Num(ZERO)
    }

    fn entering_hot(self, input: TickInput, error: Num) -> (r: bool)
        requires
            error == error_of(input),
        ensures
            r == self.enters_hot(input),
    {
        proof {
            reveal(LoopState::enters_hot);
        }
        self.control_entry_pending && input.mode == ThermalMode::Regulate && error < Num(ZERO)
    }

    fn hot_begin(self, input: TickInput, error: Num) -> (r: Num)
        requires
            self.wf(),
            error == error_of(input),
        ensures
            r == self.hot_start(input),
    {
        proof {
            reveal(LoopState::hot_start);
        }
        if self.entering_hot(input, error) {
            match self.last_applied {
                Some(cap) => self.hold(cap),
                None => {
                    if self.entry_candidates_seeded {
                        self.hold(self.shadow)
                    } else {
                        self.shadow_end(input)
                    }
                },
            }
        } else {
            self.hold(first_or(self.last_applied, self.requested, self.shadow))
        }
    }

    /// The cap and the thermal candidate at the start of a hot episode.
    fn hot_levels(
        self,
        p: Plant,
        recent: &VecDeque<(Num, Num)>,
        input: TickInput,
        error: Num,
        resynced_error: bool,
    ) -> (r: (Num, Num))
        requires
            self.wf(),
            error == error_of(input),
        ensures
            r.0 == self.hot_cap(p, recent@, input, resynced_error),
            r.1 == self.hot_level(p, recent@, input, resynced_error),
    {
        proof {
            reveal(LoopState::hot_cap);
            reveal(LoopState::hot_level);
        }
        let start = self.hot_begin(input, error);
        let thermal = if self.handing_over(input, error, resynced_error) && self.history_ready(
            recent,
        ) {
            start.min(self.recent_ceiling(p, recent, input))
        } else {
            start
        };
        let cap = if thermal < start {
            (LoopState { requested: Some(start), ..self }).slew_and_quantize(
                p,
                thermal,
                Selected::Thermal,
                control_dt(input.dt_s),
                false,
            )
        } else {
            start
        };
        (cap, thermal)
    }

    fn tick_hot(
        self,
        p: Plant,
        recent: &VecDeque<(Num, Num)>,
        input: TickInput,
        error: Num,
        resynced_error: bool,
    ) -> (r: (LoopState, DeviceDecision))
        requires
            self.wf(),
            error == error_of(input),
        ensures
            r.0 == self.hot_tick(p, recent@, input, resynced_error).0,
            r.1 == self.hot_tick(p, recent@, input, resynced_error).1,
            r.0.floor == self.floor && r.0.max == self.max,
    {
        proof {
            reveal(LoopState::hot_tick);
            reveal(LoopState::hot_state);
        }
        let (cap, thermal) = self.hot_levels(p, recent, input, error, resynced_error);
        let (shadow, hot_entry_trim_pending) = if self.entering_hot(input, error) {
            (cap, input.shadow_enabled)
        } else {
            (self.shadow, self.hot_entry_trim_pending)
        };
        let state = LoopState {
            thermal,
            shadow,
            hot_entry_trim_pending,
            requested: Some(quantize(p, cap)),
            e_prev: error,
            elapsed_s: Num(ZERO),
            hot_episode_armed: false,
            hot_rearm_s: Num(ZERO),
            ..self
        };
        let decision = state.decision(input, cap, state.thermal, state.shadow, true, false);
        let after = state.record_controlled_tick(input, decision.selected);
        assert(decision == self.hot_tick(p, recent@, input, resynced_error).1);
        assert(after == self.hot_tick(p, recent@, input, resynced_error).0);
        (after, decision)
    }

    fn rearm(self, input: TickInput, error: Num) -> (r: LoopState)
        requires
            error == error_of(input),
        ensures
            r == self.rearmed(input),
            r.floor == self.floor && r.max == self.max,
    {
        proof {
            reveal(LoopState::rearmed);
        }
        if self.hot_episode_armed {
            return self;
        }
        if error >= Num(ZERO) {
            let waited = self.hot_rearm_s + control_dt(input.dt_s);
            if waited >= Num(PI_PERIOD_S) {
                LoopState { hot_episode_armed: true, hot_rearm_s: Num(ZERO), ..self }
            } else {
                LoopState { hot_rearm_s: waited, ..self }
            }
        } else {
            LoopState { hot_rearm_s: Num(ZERO), ..self }
        }
    }

    fn move_shadow_toward(self, p: Plant, target: Num, dt: Num, headroom: Num, fall_rate: Num) -> (r:
        Num)
        requires
            self.wf(),
            dt.finite(),
            Num(ZERO).le(dt),
        ensures
            r == self.shadow_toward(p, target, dt, headroom, fall_rate),
    {
        proof {
            reveal(LoopState::shadow_toward);
        }
        let rise_rate = if p.grid == Num(CPU_GRID) {
            positive_or_zero(headroom)
        } else {
            Num(GPU_SHADOW_RISE_RATE)
        };
        let fall_rate = positive_or_zero(fall_rate);
        let delta = target - self.shadow;
        let step = if delta >= Num(ZERO) {
            rise_rate * dt
        } else {
            fall_rate * dt
        };
        assert(step.opposite().le(step)) by {
            reveal(Num::le);
            reveal(Num::lt);
            crate::order::lemma_times_nonnegative(rise_rate, dt);
            crate::order::lemma_times_nonnegative(fall_rate, dt);
        }
        self.hold(self.shadow + delta.clamp(step.negate(), step))
    }

    fn follow_draw(self, p: Plant, input: TickInput, error: Num) -> (r: LoopState)
        requires
            self.wf(),
            error == error_of(input),
        ensures
            r == self.shadowed(p, input),
            r.floor == self.floor && r.max == self.max,
    {
        proof {
            reveal(LoopState::shadowed);
        }
        let dt = control_dt(input.dt_s);
        let draw_missing_s = if input.draw.is_none() {
            self.draw_missing_s + dt
        } else {
            Num(ZERO)
        };
        let shadow = if input.draw.is_some() && self.draw_missing {
            self.hold(first_or(self.last_applied, self.requested, self.shadow))
        } else if !input.shadow_enabled {
            self.max
        } else if input.draw.is_some() {
            if input.mode == ThermalMode::Bypass || error >= Num(ZERO) {
                self.move_shadow_toward(
                    p,
                    self.shadow_end(input),
                    dt,
                    input.shadow_headroom,
                    input.shadow_fall_rate,
                )
            } else {
                self.shadow
            }
        } else if draw_missing_s >= Num(GROUP_UNAVAILABLE_DWELL_S) {
            self.move_shadow_toward(
                p,
                self.max,
                dt,
                input.shadow_headroom,
                input.shadow_fall_rate,
            )
        } else {
            self.shadow
        };
        LoopState { draw_missing: input.draw.is_none(), draw_missing_s, shadow, ..self }
    }

    fn integrate(self, error: Num) -> (r: LoopState)
        requires
            self.wf(),
        ensures
            r == self.integrated(error),
            r.floor == self.floor && r.max == self.max,
    {
        proof {
            reveal(LoopState::integrated);
        }
        let elapsed = self.elapsed_s.min(Num(MAX_PI_ELAPSED_S));
        let proportional = self.gains.kc * (error - self.e_prev);
        let integral = self.gains.kc * elapsed / self.gains.ti_s * error;
        let farther = (self.thermal <= self.floor && integral < Num(ZERO)) || (self.thermal
            >= self.max && integral > Num(ZERO));
        let increment = if farther {
            Num(ZERO)
        } else {
            integral
        };
        LoopState {
            thermal: self.hold(self.thermal + proportional + increment),
            e_prev: error,
            elapsed_s: Num(ZERO),
            ..self
        }
    }

    fn regulate(self, input: TickInput, error: Num, resynced_error: bool) -> (r: LoopState)
        requires
            self.wf(),
            error == error_of(input),
        ensures
            r == self.regulated(input, resynced_error),
            r.floor == self.floor && r.max == self.max,
    {
        proof {
            reveal(LoopState::regulated);
        }
        if input.mode == ThermalMode::Bypass {
            return self;
        }
        let e_prev = if resynced_error {
            self.e_prev
        } else {
            self.e_prev + finite_or_zero(input.delta_tstar)
        };
        let elapsed_s = self.elapsed_s + control_dt(input.dt_s);
        let state = LoopState { e_prev, elapsed_s, ..self };
        if elapsed_s >= Num(PI_PERIOD_S) {
            state.integrate(error)
        } else {
            state
        }
    }

    fn tick_ordinary(
        self,
        p: Plant,
        input: TickInput,
        error: Num,
        resynced_error: bool,
        at_once: bool,
    ) -> (r: (LoopState, DeviceDecision))
        requires
            self.wf(),
            error == error_of(input),
        ensures
            r.0 == self.ordinary_tick(p, input, resynced_error, at_once).0,
            r.1 == self.ordinary_tick(p, input, resynced_error, at_once).1,
            r.0.floor == self.floor && r.0.max == self.max,
    {
        proof {
            reveal(LoopState::ordinary_tick);
        }
        let moved = self.rearm(input, error).follow_draw(p, input, error).regulate(
            input,
            error,
            resynced_error,
        );
        let thermal = if input.mode == ThermalMode::Bypass {
            moved.max
        } else {
            moved.thermal
        };
        let (target, selected) = select_candidates(thermal, moved.shadow, moved.floor, moved.max);
        let cap = moved.slew_and_quantize(p, target, selected, control_dt(input.dt_s), at_once);
        let state = moved.request(cap);
        let decision = state.decision(input, cap, thermal, state.shadow, true, false);
        let after = state.record_controlled_tick(input, decision.selected);
        assert(decision == self.ordinary_tick(p, input, resynced_error, at_once).1);
        assert(after == self.ordinary_tick(p, input, resynced_error, at_once).0);
        (after, decision)
    }

    fn tick_control(
        self,
        p: Plant,
        recent: &VecDeque<(Num, Num)>,
        input: TickInput,
        error: Num,
        resynced_error: bool,
        at_once: bool,
    ) -> (r: (LoopState, DeviceDecision))
        requires
            self.wf(),
            error == error_of(input),
        ensures
            r.0 == self.control_tick(p, recent@, input, resynced_error, at_once).0,
            r.1 == self.control_tick(p, recent@, input, resynced_error, at_once).1,
            r.0.floor == self.floor && r.0.max == self.max,
    {
        proof {
            reveal(LoopState::control_tick);
            reveal(LoopState::trim_level);
        }
        let mode_changed = match self.last_mode {
            Some(mode) => mode != input.mode,
            None => false,
        };
        if mode_changed {
            let out = self.tick_mode_change(p, input, error);
            assert(out.0 == self.control_tick(p, recent@, input, resynced_error, at_once).0);
            assert(out.1 == self.control_tick(p, recent@, input, resynced_error, at_once).1);
            return out;
        }
        let trim_due = self.hot_entry_trim_pending && !resynced_error && self.history_ready(recent);
        if trim_due {
            let thermal = self.thermal.min(self.cap_in_force()).min(
                self.recent_ceiling(p, recent, input),
            );
            if thermal < self.thermal {
                let out = self.tick_trim(p, recent, input, error, thermal);
                assert(out.0 == self.control_tick(p, recent@, input, resynced_error, at_once).0);
                assert(out.1 == self.control_tick(p, recent@, input, resynced_error, at_once).1);
                return out;
            }
        }
        let state = self.settle_trim(trim_due);
        if state.handing_over(input, error, resynced_error) || state.entering_hot(input, error) {
            let out = state.tick_hot(p, recent, input, error, resynced_error);
            assert(out.0 == self.control_tick(p, recent@, input, resynced_error, at_once).0);
            assert(out.1 == self.control_tick(p, recent@, input, resynced_error, at_once).1);
            out
        } else {
            let out = state.tick_ordinary(p, input, error, resynced_error, at_once);
            assert(out.0 == self.control_tick(p, recent@, input, resynced_error, at_once).0);
            assert(out.1 == self.control_tick(p, recent@, input, resynced_error, at_once).1);
            out
        }
    }

    /// Counts the time of a tick.
    pub(crate) fn with_time(self, input: TickInput) -> (r: LoopState)
        ensures
            r == self.clocked(input),
    {
        LoopState { draw_clock_s: self.draw_clock_s + control_dt(input.dt_s), ..self }
    }

    /// Takes in the draw of a tick whose time is already counted.
    pub(crate) fn note_draw(self, recent: &mut VecDeque<(Num, Num)>, input: TickInput)
        ensures
            final(recent)@ == self.history(old(recent)@, input),
    {
        proof {
            reveal(LoopState::history);
        }
        let clock = self.draw_clock_s;
        let draw = match input.draw {
            Some(draw) => draw,
            None => {
                recent.clear();
                return ;
            },
        };
        if self.breaks_history(input) || !draw.is_finite() || !(draw > Num(ZERO)) {
            recent.clear();
            return ;
        }
        recent.push_back((clock, draw));
        let cut = clock - Num(DRAW_HISTORY_S);
        while recent.len() > 1 && recent[1].0 <= cut
            invariant
                trimmed(recent@, cut) == trimmed(old(recent)@.push((clock, draw)), cut),
            decreases recent@.len(),
        {
            let ghost before = recent@;
            let _ = recent.pop_front();
            assert(recent@ =~= before.skip(1));
        }
    }

    /// One tick, given the draw history that already holds its draw.
    pub(crate) fn advance(self, p: Plant, recent: &VecDeque<(Num, Num)>, input: TickInput) -> (r: (
        LoopState,
        DeviceDecision,
    ))
        requires
            self.wf(),
        ensures
            r.0 == self.advanced(p, recent@, input).0,
            r.1 == self.advanced(p, recent@, input).1,
            r.0.floor == bounds_of(input.floor, input.max).0,
            r.0.max == bounds_of(input.floor, input.max).1,
            r.0.wf(),
    {
        proof {
            reveal(LoopState::advanced);
            reveal(LoopState::mismatch_ends);
        }
        let clocked = self.with_time(input);
        let (bounded, at_once) = clocked.with_bounds(input);
        let state = bounded.with_evidence(input);
        let mismatch_recovered = self.mismatch_latched && !input.resumed && input.actuator
            == ActuatorState::Verified;
        if input.resumed {
            let out = state.tick_resumed(input);
            assert(out.0 == self.advanced(p, recent@, input).0);
            assert(out.1 == self.advanced(p, recent@, input).1);
            return out;
        }
        let group = match input.group_c {
            Some(group) => group,
            None => {
                let out = state.tick_missing(p, input);
                assert(out.0 == self.advanced(p, recent@, input).0);
                assert(out.1 == self.advanced(p, recent@, input).1);
                return out;
            },
        };
        let error = input.t_star - group;
        let (regained, resynced_error) = state.regain_group(p, input, error, mismatch_recovered);
        if regained.mismatch_latched {
            let out = regained.tick_mismatch(input, error);
            assert(out.0 == self.advanced(p, recent@, input).0);
            assert(out.1 == self.advanced(p, recent@, input).1);
            return out;
        }
        let out = regained.tick_control(p, recent, input, error, resynced_error, at_once);
        assert(out.0 == self.advanced(p, recent@, input).0);
        assert(out.1 == self.advanced(p, recent@, input).1);
        out
    }
}

fn quantize(p: Plant, value: Num) -> (r: Num)
    ensures
        r == on_grid(p, value),
{
    proof {
        reveal(on_grid);
    }
    (value / p.grid).round() * p.grid
}

} // verus!
