//! The temperature loop of one device.
//!
//! Each device (the CPU in watts, the GPU in megahertz) has a loop with two
//! candidates for its cap: a thermal one, from a velocity-form PI on the
//! distance of the device's temperature group from the target, and a shadow
//! one, which follows the measured draw plus a headroom. The cap is the lower
//! of the two, clamped to the bounds, slewed, and put on the actuator's grid.
//!
//! [`LoopState::ticked`] is the model: one tick of the loop as a function of
//! the state, the recent draw and the input. [`tuning`], [`motion`],
//! [`following`] and [`handover`] tell in exact values what gains it starts
//! from, and where a tick takes the candidates and the cap.
use crate::device_loop::sealed::Sealed;
use crate::num::{Num, ONE, TWO, ZERO};
use core::marker::PhantomData;
use std::collections::VecDeque;
use vstd::prelude::*;

mod engine;
pub mod following;
pub mod handover;
pub mod laws;
pub mod motion;
pub mod numbers;
mod sealed;
pub mod tuning;

verus! {

/// CPU sustained-power units (watts).
#[derive(Clone, Copy, Debug, PartialEq, Eq, Structural)]
pub struct W;

/// GPU maximum-clock units (megahertz).
#[derive(Clone, Copy, Debug, PartialEq, Eq, Structural)]
pub struct Mhz;

/// Plant constants and actuator resolution of a device.
#[derive(Clone, Copy, Debug)]
pub struct Plant {
    /// Time constant, s.
    pub tau_s: Num,
    /// Degrees per actuator unit.
    pub plant_gain: Num,
    /// Delay of the plant itself, s; the moving average adds to it.
    pub base_delay_s: Num,
    /// Actuator resolution.
    pub grid: Num,
    /// Fastest rise of the cap, per second.
    pub rise_rate: Num,
    /// Fastest fall of the cap, per second.
    pub fall_rate: Num,
    /// Headroom over the recent peak draw when a hot episode begins.
    pub hot_headroom: Num,
}

/// The unit of a device's actuator.
pub trait DeviceUnit: Sealed + Copy {
    /// The device's constants.
    spec fn plant() -> Plant;

    /// The device's constants.
    fn constants() -> (r: Plant)
        ensures
            r == Self::plant(),
    ;
}

/// 35.
pub const CPU_TAU_S: u64 = 0x4041_8000_0000_0000;

/// 0.8.
pub const CPU_PLANT_GAIN: u64 = 0x3fe9_9999_9999_999a;

/// 20.
pub const CPU_BASE_DELAY_S: u64 = 0x4034_0000_0000_0000;

/// 0.5.
pub const CPU_GRID: u64 = 0x3fe0_0000_0000_0000;

/// 10.
pub const CPU_RISE_RATE: u64 = 0x4024_0000_0000_0000;

/// Infinity: the CPU cap falls at once.
pub const CPU_FALL_RATE: u64 = 0x7ff0_0000_0000_0000;

/// 2.
pub const CPU_HOT_HEADROOM: u64 = 0x4000_0000_0000_0000;

/// 32.564086253945035, from a fit at a moving average of 60 s.
pub const GPU_TAU_S: u64 = 0x4040_4833_fa76_6896;

/// 0.009527650224779704, from the same fit.
pub const GPU_PLANT_GAIN: u64 = 0x3f83_833b_90fc_3926;

/// The fitted delay, 38.45154292954405, less the 30 that the moving average
/// contributed to it.
pub const GPU_BASE_DELAY_S: u64 = 0x4020_e730_a286_4370;

/// 1.
pub const GPU_GRID: u64 = 0x3ff0_0000_0000_0000;

/// 105.
pub const GPU_SLEW_RATE: u64 = 0x405a_4000_0000_0000;

/// 100.
pub const GPU_HOT_HEADROOM: u64 = 0x4059_0000_0000_0000;

/// 300: how fast the GPU's cap may follow a rising draw, per second.
pub const GPU_SHADOW_RISE_RATE: u64 = 0x4072_c000_0000_0000;

impl Sealed for W {

}

impl DeviceUnit for W {
    open spec fn plant() -> Plant {
        Plant {
            tau_s: Num(CPU_TAU_S),
            plant_gain: Num(CPU_PLANT_GAIN),
            base_delay_s: Num(CPU_BASE_DELAY_S),
            grid: Num(CPU_GRID),
            rise_rate: Num(CPU_RISE_RATE),
            fall_rate: Num(CPU_FALL_RATE),
            hot_headroom: Num(CPU_HOT_HEADROOM),
        }
    }

    fn constants() -> (r: Plant) {
        Plant {
            tau_s: Num(CPU_TAU_S),
            plant_gain: Num(CPU_PLANT_GAIN),
            base_delay_s: Num(CPU_BASE_DELAY_S),
            grid: Num(CPU_GRID),
            rise_rate: Num(CPU_RISE_RATE),
            fall_rate: Num(CPU_FALL_RATE),
            hot_headroom: Num(CPU_HOT_HEADROOM),
        }
    }
}

impl Sealed for Mhz {

}

impl DeviceUnit for Mhz {
    open spec fn plant() -> Plant {
        Plant {
            tau_s: Num(GPU_TAU_S),
            plant_gain: Num(GPU_PLANT_GAIN),
            base_delay_s: Num(GPU_BASE_DELAY_S),
            grid: Num(GPU_GRID),
            rise_rate: Num(GPU_SLEW_RATE),
            fall_rate: Num(GPU_SLEW_RATE),
            hot_headroom: Num(GPU_HOT_HEADROOM),
        }
    }

    fn constants() -> (r: Plant) {
        Plant {
            tau_s: Num(GPU_TAU_S),
            plant_gain: Num(GPU_PLANT_GAIN),
            base_delay_s: Num(GPU_BASE_DELAY_S),
            grid: Num(GPU_GRID),
            rise_rate: Num(GPU_SLEW_RATE),
            fall_rate: Num(GPU_SLEW_RATE),
            hot_headroom: Num(GPU_HOT_HEADROOM),
        }
    }
}

/// Velocity-form PI gains, in actuator units per degree.
#[derive(Clone, Copy, Debug, PartialEq)]
pub struct Gains {
    pub kc: Num,
    pub ti_s: Num,
}

impl Gains {
    /// Both gains are finite and positive.
    pub open spec fn valid(self) -> bool {
        self.kc.finite() && Num(ZERO).lt(self.kc) && self.ti_s.finite() && Num(ZERO).lt(self.ti_s)
    }

    /// Whether both gains are finite and positive.
    pub fn is_valid(&self) -> (r: bool)
        ensures
            r == self.valid(),
    {
        self.kc.is_finite() && self.kc > Num(ZERO) && self.ti_s.is_finite() && self.ti_s > Num(ZERO)
    }
}

/// 90: the least closed-loop time constant, s.
pub const MIN_LAMBDA_S: u64 = 0x4056_8000_0000_0000;

/// 3: the closed-loop time constant as a multiple of the delay.
pub const LAMBDA_DELAYS: u64 = 0x4008_0000_0000_0000;

/// Internal-model tuning of a plant whose temperature is averaged over
/// `ma_interval` seconds: half of the interval adds to the delay.
pub open spec fn imc_gains(p: Plant, ma_interval: u32) -> Gains {
    let theta = p.base_delay_s.plus(crate::num::of_int(ma_interval as nat).over(Num(TWO)));
    let lambda = Num(MIN_LAMBDA_S).greater(Num(LAMBDA_DELAYS).times(theta));
    Gains { kc: p.tau_s.over(p.plant_gain.times(lambda.plus(theta))), ti_s: p.tau_s }
}

/// Default gains for the live moving-average interval.
pub fn default_gains<U: DeviceUnit>(ma_interval: u32) -> (r: Gains)
    ensures
        r == imc_gains(U::plant(), ma_interval),
{
    let p = U::constants();
    let theta_eff = p.base_delay_s + Num::from_int(ma_interval as u64) / Num(TWO);
    let lambda = Num(MIN_LAMBDA_S).max(Num(LAMBDA_DELAYS) * theta_eff);
    Gains { kc: p.tau_s / (p.plant_gain * (lambda + theta_eff)), ti_s: p.tau_s }
}

/// 5: the PI advances once this many seconds have passed.
pub const PI_PERIOD_S: u64 = 0x4014_0000_0000_0000;

/// 60: how long a temperature group or a draw may be missing, s.
pub const GROUP_UNAVAILABLE_DWELL_S: u64 = 0x404e_0000_0000_0000;

/// 2: a longer step between samples counts as this.
pub const MAX_DT_S: u64 = 0x4000_0000_0000_0000;

/// 7: the longest time that one PI step integrates, s.
pub const MAX_PI_ELAPSED_S: u64 = 0x401c_0000_0000_0000;

/// 5: how far back the draw history reaches, s.
pub const DRAW_HISTORY_S: u64 = 0x4014_0000_0000_0000;

/// Whether the thermal candidate takes part.
#[derive(Clone, Copy, Debug, PartialEq, Eq, Structural)]
pub enum ThermalMode {
    Regulate,
    Bypass,
}

/// What the last write's read-back showed.
#[derive(Clone, Copy, Debug, PartialEq, Eq, Structural)]
pub enum ActuatorState {
    Verified,
    Mismatch,
    Unverifiable,
}

/// A bound of the cap.
#[derive(Clone, Copy, Debug, PartialEq, Eq, Structural)]
pub enum Bound {
    Floor,
    Max,
}

/// What keeps the cap from following the thermal candidate freely.
#[derive(Clone, Copy, Debug, PartialEq, Eq, Structural)]
pub enum Hold {
    /// Nothing.
    Free,
    Shadow,
    Clamp(Bound),
    ActuatorMismatch,
    GroupUnavailable,
    DrawUnavailable,
    Bypass,
}

/// Which candidate or bound the cap comes from.
#[derive(Clone, Copy, Debug, PartialEq, Eq, Structural)]
pub enum Selected {
    Thermal,
    Shadow,
    Floor,
    Max,
}

/// What a loop sees in one tick.
#[derive(Clone, Copy, Debug, PartialEq)]
pub struct TickInput {
    /// Target temperature, °C.
    pub t_star: Num,
    /// Temperature of the device's group, °C.
    pub group_c: Option<Num>,
    /// Measured draw.
    pub draw: Option<Num>,
    pub floor: Num,
    pub max: Num,
    pub mode: ThermalMode,
    pub actuator: ActuatorState,
    /// Seconds since the sample before.
    pub dt_s: Num,
    /// The machine has just resumed from a suspend.
    pub resumed: bool,
    /// How far the target moved since the sample before.
    pub delta_tstar: Num,
    /// Draw margin of the shadow candidate.
    pub shadow_headroom: Num,
    /// Fastest fall of the shadow candidate, per second.
    pub shadow_fall_rate: Num,
    /// Whether the shadow candidate takes part.
    pub shadow_enabled: bool,
}

/// What a loop decides in one tick.
#[derive(Clone, Copy, Debug, PartialEq)]
pub struct DeviceDecision {
    pub t_star: Num,
    pub group_c: Option<Num>,
    pub err_c: Option<Num>,
    pub thermal: Num,
    pub shadow: Num,
    pub cap: Num,
    pub selected: Selected,
    pub hold: Hold,
    /// False only for a group absent since the session began.
    pub write_allowed: bool,
    /// A group that was there has been missing for its whole dwell.
    pub group_lost: bool,
    /// A safety-bound move must not wait for the ordinary cadence.
    pub write_immediately: bool,
}

/// The lower of two candidates within the bounds, and where it comes from.
#[verifier::opaque]
pub open spec fn selection(thermal: Num, shadow: Num, floor: Num, max: Num) -> (Num, Selected) {
    let t = thermal.within(floor, max);
    let s = shadow.within(floor, max);
    let lower = t.lesser(s);
    (
        lower,
        if lower.same(floor) {
            Selected::Floor
        } else if lower.same(max) {
            Selected::Max
        } else if t.le(s) {
            Selected::Thermal
        } else {
            Selected::Shadow
        },
    )
}

/// Picks the lower candidate within the bounds, before any quantising.
pub fn select_candidates(thermal: Num, shadow: Num, floor: Num, max: Num) -> (r: (Num, Selected))
    requires
        floor.le(max),
    ensures
        r == selection(thermal, shadow, floor, max),
{
    proof {
        reveal(selection);
    }
    let thermal = thermal.clamp(floor, max);
    let shadow = shadow.clamp(floor, max);
    let requested = thermal.min(shadow);
    let selected = if requested == floor {
        Selected::Floor
    } else if requested == max {
        Selected::Max
    } else if thermal <= shadow {
        Selected::Thermal
    } else {
        Selected::Shadow
    };
    (requested, selected)
}

/// A usable time step: nothing for one that is negative or not finite, and at
/// most two seconds.
pub open spec fn usable_dt(dt_s: Num) -> Num {
    if dt_s.finite() && Num(ZERO).le(dt_s) {
        dt_s.lesser(Num(MAX_DT_S))
    } else {
        Num(ZERO)
    }
}

pub(crate) fn control_dt(dt_s: Num) -> (r: Num)
    ensures
        r == usable_dt(dt_s),
        r.finite(),
        Num(ZERO).le(r),
{
    proof {
        reveal(Num::le);
        reveal(Num::lt);
        reveal(Num::lesser);
    }
    if dt_s.is_finite() && dt_s >= Num(ZERO) {
        dt_s.min(Num(MAX_DT_S))
    } else {
        Num(ZERO)
    }
}

/// The number if it is finite, else 0.
pub open spec fn if_finite(x: Num) -> Num {
    if x.finite() {
        x
    } else {
        Num(ZERO)
    }
}

pub(crate) fn finite_or_zero(value: Num) -> (r: Num)
    ensures
        r == if_finite(value),
{
    if value.is_finite() {
        value
    } else {
        Num(ZERO)
    }
}

/// The number if it is finite and positive, else 0.
pub open spec fn if_positive(x: Num) -> Num {
    if x.finite() && Num(ZERO).lt(x) {
        x
    } else {
        Num(ZERO)
    }
}

pub(crate) fn positive_or_zero(value: Num) -> (r: Num)
    ensures
        r == if_positive(value),
{
    if value.is_finite() && value > Num(ZERO) {
        value
    } else {
        Num(ZERO)
    }
}

/// A draw plus its headroom, within the bounds.
pub open spec fn draw_target(draw: Num, headroom: Num, floor: Num, max: Num) -> Num {
    draw.plus(if_positive(headroom)).within(floor, max)
}

pub(crate) fn shadow_target(draw: Num, headroom: Num, floor: Num, max: Num) -> (r: Num)
    requires
        floor.le(max),
    ensures
        r == draw_target(draw, headroom, floor, max),
{
    (draw + positive_or_zero(headroom)).clamp(floor, max)
}

/// Finite bounds the right way round: a maximum that is not finite is 0, and
/// a floor never exceeds the maximum.
pub open spec fn bounds_of(floor: Num, max: Num) -> (Num, Num) {
    let max = if_finite(max);
    (
        if floor.finite() {
            floor.lesser(max)
        } else {
            max
        },
        max,
    )
}

pub(crate) fn ordered_bounds(floor: Num, max: Num) -> (r: (Num, Num))
    ensures
        r == bounds_of(floor, max),
        r.0.le(r.1),
        r.0.finite(),
        r.1.finite(),
{
    proof {
        reveal(Num::le);
        reveal(Num::lt);
        reveal(Num::lesser);
    }
    let max = finite_or_zero(max);
    let floor = if floor.is_finite() {
        floor.min(max)
    } else {
        max
    };
    (floor, max)
}

/// The first of two that is there, or else a third.
pub open spec fn first_of(a: Option<Num>, b: Option<Num>, c: Num) -> Num {
    match a {
        Some(x) => x,
        None => match b {
            Some(y) => y,
            None => c,
        },
    }
}

pub(crate) fn first_or(a: Option<Num>, b: Option<Num>, c: Num) -> (r: Num)
    ensures
        r == first_of(a, b, c),
{
    match a {
        Some(x) => x,
        None => match b {
            Some(y) => y,
            None => c,
        },
    }
}

/// A value on the actuator's grid.
#[verifier::opaque]
pub open spec fn on_grid(p: Plant, value: Num) -> Num {
    value.over(p.grid).rounded().times(p.grid)
}

/// Draw history within reach: a point goes once the one after it is as old
/// as the reach.
pub open spec fn trimmed(recent: Seq<(Num, Num)>, cut: Num) -> Seq<(Num, Num)>
    decreases recent.len(),
{
    if recent.len() > 1 && recent[1].0.le(cut) {
        trimmed(recent.skip(1), cut)
    } else {
        recent
    }
}

/// The highest draw of the history.
pub open spec fn peak_draw(recent: Seq<(Num, Num)>) -> Num
    decreases recent.len(),
{
    if recent.len() == 0 {
        Num(ZERO)
    } else {
        peak_draw(recent.drop_last()).greater(recent.last().1)
    }
}

/// The history reaches back as far as it ever will.
pub open spec fn history_full(recent: Seq<(Num, Num)>, clock: Num) -> bool {
    recent.len() > 0 && Num(DRAW_HISTORY_S).le(clock.minus(recent[0].0))
}

/// Everything a loop remembers but its draw history.
#[derive(Clone, Copy, Debug)]
pub struct LoopState {
    pub gains: Gains,
    /// Thermal candidate.
    pub thermal: Num,
    /// Shadow candidate.
    pub shadow: Num,
    /// The cap last decided.
    pub requested: Option<Num>,
    /// The cap last written with success.
    pub last_applied: Option<Num>,
    /// The error of the PI step before.
    pub e_prev: Num,
    /// Time since the PI step before.
    pub elapsed_s: Num,
    pub floor: Num,
    pub max: Num,
    pub bounds_initialised: bool,
    /// The group has had a temperature, in a resume's tick or in another.
    pub group_seen: bool,
    /// The group's error has started afresh since it was first there.
    pub group_entered: bool,
    pub group_missing: bool,
    pub group_lost: bool,
    /// The candidates go to the maximum as soon as no mismatch forbids it.
    pub group_reset_pending: bool,
    pub group_missing_s: Num,
    pub draw_missing_s: Num,
    pub draw_missing: bool,
    pub draw_clock_s: Num,
    pub mismatch_latched: bool,
    pub pending_immediate: bool,
    pub prev_group: Option<Num>,
    pub prev_t_star: Option<Num>,
    pub previous_selected: Option<Selected>,
    /// A hot episode may begin.
    pub hot_episode_armed: bool,
    /// A hot entry came before the draw history was full.
    pub hot_entry_trim_pending: bool,
    pub hot_rearm_s: Num,
    pub control_entry_pending: bool,
    pub entry_candidates_seeded: bool,
    pub last_mode: Option<ThermalMode>,
}

/// The state of a loop that has not run yet.
pub open spec fn fresh(gains: Gains) -> LoopState {
    LoopState {
        gains,
        thermal: Num(ZERO),
        shadow: Num(ZERO),
        requested: None,
        last_applied: None,
        e_prev: Num(ZERO),
        elapsed_s: Num(ZERO),
        floor: Num(0xfff0_0000_0000_0000),
        max: Num(0x7ff0_0000_0000_0000),
        bounds_initialised: false,
        group_seen: false,
        group_entered: false,
        group_missing: false,
        group_lost: false,
        group_reset_pending: false,
        group_missing_s: Num(ZERO),
        draw_missing_s: Num(ZERO),
        draw_missing: false,
        draw_clock_s: Num(ZERO),
        mismatch_latched: false,
        pending_immediate: false,
        prev_group: None,
        prev_t_star: None,
        previous_selected: None,
        hot_episode_armed: true,
        hot_entry_trim_pending: false,
        hot_rearm_s: Num(ZERO),
        control_entry_pending: true,
        entry_candidates_seeded: false,
        last_mode: None,
    }
}

/// The error of a tick whose group has a temperature.
pub open spec fn error_of(i: TickInput) -> Num {
    i.t_star.minus(i.group_c->0)
}

impl LoopState {
    /// The bounds are the right way round.
    pub open spec fn wf(self) -> bool {
        self.floor.le(self.max)
    }

    /// Pulled within the bounds.
    pub open spec fn held(self, x: Num) -> Num {
        x.within(self.floor, self.max)
    }

    /// The cap in force, as far as it is known, within the bounds.
    pub open spec fn in_force(self) -> Num {
        self.held(first_of(self.last_applied, self.requested, self.max))
    }

    /// Candidates given from outside.
    pub open spec fn seeded(self, thermal: Num, shadow: Num, applied: Option<Num>, error: Num) -> LoopState {
        LoopState {
            thermal,
            shadow,
            requested: Some(first_of(applied, None, thermal.lesser(shadow))),
            last_applied: applied,
            e_prev: error,
            elapsed_s: Num(ZERO),
            group_seen: true,
            group_entered: true,
            entry_candidates_seeded: true,
            ..self
        }
    }

    /// The thermal candidate taken over at `cap`.
    pub open spec fn thermal_at(self, cap: Num, error: Num) -> LoopState {
        LoopState { thermal: self.held(cap), e_prev: error, elapsed_s: Num(ZERO), ..self }
    }

    /// With a first measured draw behind the shadow candidate.
    #[verifier::opaque]
    pub open spec fn drawing(self, cap: Num) -> LoopState {
        LoopState {
            shadow: self.held(cap),
            draw_missing: false,
            draw_missing_s: Num(ZERO),
            ..self
        }
    }

    /// A number lowered to the maximum.
    pub open spec fn below_max(self, x: Num) -> Num {
        if self.max.lt(x) {
            self.max
        } else {
            x
        }
    }

    /// The maximum that a guard ceiling leads to.
    pub open spec fn ceiling(self, max: Num) -> Num {
        if !max.finite() {
            self.max
        } else if self.max.le(max) {
            max
        } else {
            max.greater(self.floor)
        }
    }

    /// A guard ceiling lowers the cap that was last decided.
    #[verifier::opaque]
    pub open spec fn lowers_request(self, max: Num) -> bool {
        &&& max.finite()
        &&& !self.max.le(max)
        &&& self.requested matches Some(r) && self.ceiling(max).lt(r)
    }

    /// A guard ceiling in force: candidates and request follow it down; what
    /// was applied stays on record.
    #[verifier::opaque]
    pub open spec fn capped(self, max: Num) -> LoopState {
        let c = LoopState { max: self.ceiling(max), ..self };
        if !max.finite() || self.max.le(max) {
            c
        } else {
            LoopState {
                thermal: c.below_max(self.thermal),
                shadow: c.below_max(self.shadow),
                requested: match self.requested {
                    Some(r) => Some(c.below_max(r)),
                    None => None,
                },
                pending_immediate: self.pending_immediate || self.lowers_request(max) || (
                self.last_applied matches Some(a) && c.max.lt(a)),
                ..c
            }
        }
    }

    /// Candidates and request pulled within the bounds.
    #[verifier::opaque]
    pub open spec fn clamped(self) -> LoopState {
        LoopState {
            thermal: self.held(self.thermal),
            shadow: self.held(self.shadow),
            requested: match self.requested {
                Some(r) => Some(self.held(r)),
                None => None,
            },
            ..self
        }
    }

    /// Clamping moves something, or what was applied lies outside.
    #[verifier::opaque]
    pub open spec fn clamp_moves(self) -> bool {
        ||| !self.held(self.thermal).same(self.thermal)
        ||| !self.held(self.shadow).same(self.shadow)
        ||| self.requested matches Some(r) && !self.held(r).same(r)
        ||| self.last_applied matches Some(a) && (a.lt(self.floor) || self.max.lt(a))
    }

    /// The floor of this tick is not the one before.
    #[verifier::opaque]
    pub open spec fn floor_changes(self, i: TickInput) -> bool {
        self.bounds_initialised && !bounds_of(i.floor, i.max).0.same(self.floor)
    }

    /// This tick's maximum lowers the cap that was last decided.
    #[verifier::opaque]
    pub open spec fn max_lowers_request(self, i: TickInput) -> bool {
        let (floor, max) = bounds_of(i.floor, i.max);
        self.bounds_initialised && max.lt(self.max) && (LoopState { floor, ..self }).lowers_request(max)
    }

    /// The bounds of this tick in force.
    #[verifier::opaque]
    pub open spec fn bounded(self, i: TickInput) -> LoopState {
        let (floor, max) = bounds_of(i.floor, i.max);
        if !self.bounds_initialised {
            let c = LoopState { floor, max, bounds_initialised: true, ..self };
            LoopState { pending_immediate: self.pending_immediate || c.clamp_moves(), ..c.clamped() }
        } else {
            let lowered = LoopState { floor, ..self };
            let c = if max.lt(self.max) {
                lowered.capped(max)
            } else {
                LoopState { max, ..lowered }
            };
            LoopState {
                pending_immediate: c.pending_immediate || (self.floor_changes(i) && c.clamp_moves()),
                ..c.clamped()
            }
        }
    }

    /// The draw history says nothing about this tick's operating point.
    #[verifier::opaque]
    pub open spec fn history_broken(self, i: TickInput) -> bool {
        ||| i.resumed
        ||| Num(MAX_DT_S).lt(i.dt_s)
        ||| usable_dt(i.dt_s).same(Num(ZERO))
        ||| i.group_c is None
        ||| i.actuator == ActuatorState::Mismatch
        ||| self.mismatch_latched && i.actuator != ActuatorState::Verified
    }

    /// The draw history after this tick; `self` already counts its time.
    #[verifier::opaque]
    pub open spec fn history(self, recent: Seq<(Num, Num)>, i: TickInput) -> Seq<(Num, Num)> {
        match i.draw {
            Some(d) if !self.history_broken(i) && d.finite() && Num(ZERO).lt(d) => trimmed(
                recent.push((self.draw_clock_s, d)),
                self.draw_clock_s.minus(Num(DRAW_HISTORY_S)),
            ),
            _ => Seq::empty(),
        }
    }

    /// A read-back confirms the cap after a mismatch.
    #[verifier::opaque]
    pub open spec fn mismatch_ends(self, i: TickInput) -> bool {
        self.mismatch_latched && !i.resumed && i.actuator == ActuatorState::Verified
    }

    /// What the input says of the actuator and of a pending trim.
    #[verifier::opaque]
    pub open spec fn noted(self, i: TickInput) -> LoopState {
        LoopState {
            hot_entry_trim_pending: self.hot_entry_trim_pending && i.mode == ThermalMode::Regulate
                && i.shadow_enabled && !(i.group_c is Some && Num(ZERO).le(error_of(i))),
            mismatch_latched: match i.actuator {
                ActuatorState::Mismatch => true,
                ActuatorState::Verified => false,
                ActuatorState::Unverifiable => self.mismatch_latched && !i.resumed,
            },
            ..self
        }
    }

    /// The decision that reports `cap` and the two candidates.
    #[verifier::opaque]
    pub open spec fn decided(
        self,
        i: TickInput,
        cap: Num,
        thermal: Num,
        shadow: Num,
        write_allowed: bool,
        group_lost: bool,
    ) -> DeviceDecision {
        let selected = if i.group_c is None {
            if cap.same(self.floor) {
                Selected::Floor
            } else if cap.same(self.max) {
                Selected::Max
            } else {
                Selected::Thermal
            }
        } else {
            selection(thermal, shadow, self.floor, self.max).1
        };
        DeviceDecision {
            t_star: i.t_star,
            group_c: i.group_c,
            err_c: match i.group_c {
                Some(g) => Some(i.t_star.minus(g)),
                None => None,
            },
            thermal,
            shadow,
            cap,
            selected,
            hold: if i.group_c is None {
                Hold::GroupUnavailable
            } else if self.mismatch_latched {
                Hold::ActuatorMismatch
            } else if i.mode == ThermalMode::Bypass {
                Hold::Bypass
            } else if i.draw is None {
                Hold::DrawUnavailable
            } else {
                match selected {
                    Selected::Floor => Hold::Clamp(Bound::Floor),
                    Selected::Max => Hold::Clamp(Bound::Max),
                    Selected::Shadow => Hold::Shadow,
                    Selected::Thermal => Hold::Free,
                }
            },
            write_allowed,
            group_lost,
            write_immediately: self.pending_immediate,
        }
    }

    /// The state once a pending immediate write has been reported.
    pub open spec fn reported(self) -> LoopState {
        LoopState { pending_immediate: false, ..self }
    }

    /// The state that remembers a tick with a valid group.
    pub open spec fn recorded(self, i: TickInput, selected: Selected) -> LoopState {
        LoopState {
            prev_group: i.group_c,
            prev_t_star: Some(i.t_star),
            previous_selected: Some(selected),
            ..self
        }
    }

    /// The state whose last decided cap is `cap`.
    #[verifier::opaque]
    pub open spec fn requesting(self, cap: Num) -> LoopState {
        LoopState { requested: Some(cap), ..self }
    }

    /// The shadow candidate taken over at `cap`.
    #[verifier::opaque]
    pub open spec fn shadow_at(self, cap: Num) -> LoopState {
        LoopState { shadow: self.held(cap), ..self }
    }

    /// The thermal candidate taken over at `cap`; a hot episode may begin
    /// only if it is not hot now.
    #[verifier::opaque]
    pub open spec fn regulating_at(self, cap: Num, error: Num) -> LoopState {
        LoopState {
            hot_episode_armed: Num(ZERO).le(error),
            hot_rearm_s: Num(ZERO),
            ..self.thermal_at(cap, error)
        }
    }

    /// The state without a pending trim if that trim is due.
    #[verifier::opaque]
    pub open spec fn trim_settled(self, due: bool) -> LoopState {
        LoopState { hot_entry_trim_pending: self.hot_entry_trim_pending && !due, ..self }
    }

    /// The state that remembers a tick on which the loop controlled.
    #[verifier::opaque]
    pub open spec fn controlled(self, i: TickInput, selected: Selected) -> LoopState {
        LoopState {
            control_entry_pending: false,
            last_mode: Some(i.mode),
            ..self.reported().recorded(i, selected)
        }
    }

    /// The state right after a resume: clocks and history start afresh, and
    /// the cap in force stays.
    pub open spec fn resumed(self, i: TickInput) -> LoopState {
        let cap = self.in_force();
        LoopState {
            elapsed_s: Num(ZERO),
            group_seen: self.group_seen || i.group_c is Some,
            group_missing_s: Num(ZERO),
            group_missing: i.group_c is None,
            group_lost: false,
            group_reset_pending: false,
            draw_missing_s: Num(ZERO),
            draw_missing: false,
            hot_rearm_s: Num(ZERO),
            prev_group: None,
            prev_t_star: None,
            previous_selected: None,
            last_mode: Some(i.mode),
            e_prev: if i.group_c is Some {
                error_of(i)
            } else {
                self.e_prev
            },
            thermal: if self.entry_candidates_seeded {
                self.thermal
            } else {
                cap
            },
            shadow: if self.entry_candidates_seeded {
                self.shadow
            } else {
                cap
            },
            entry_candidates_seeded: true,
            requested: Some(cap),
            pending_immediate: i.group_c is Some || self.group_seen,
            ..self
        }
    }

    /// The tick of a resume.
    #[verifier::opaque]
    pub open spec fn resume_tick(self, i: TickInput) -> (LoopState, DeviceDecision) {
        let s = self.resumed(i);
        (
            s.reported(),
            s.decided(
                i,
                self.in_force(),
                s.thermal,
                s.shadow,
                i.group_c is Some || self.group_seen,
                false,
            ),
        )
    }

    /// The state after a tick without a temperature: the cap holds, and after
    /// the dwell the candidates go to the maximum.
    pub open spec fn missing(self, p: Plant, i: TickInput) -> LoopState {
        let missing_s = if self.group_seen {
            self.group_missing_s.plus(usable_dt(i.dt_s))
        } else {
            self.group_missing_s
        };
        let lost_now = self.group_seen && !self.group_lost && Num(GROUP_UNAVAILABLE_DWELL_S).le(
            missing_s,
        );
        let due = self.group_reset_pending || lost_now;
        let reset = due && !self.mismatch_latched;
        LoopState {
            elapsed_s: Num(ZERO),
            hot_rearm_s: Num(ZERO),
            group_missing: true,
            group_missing_s: missing_s,
            group_lost: self.group_lost || lost_now,
            requested: if lost_now {
                Some(on_grid(p, self.max))
            } else {
                self.requested
            },
            group_reset_pending: due && !reset,
            thermal: if reset {
                self.max
            } else {
                self.thermal
            },
            shadow: if reset {
                self.max
            } else {
                self.shadow
            },
            ..self
        }
    }

    /// The tick without a temperature.
    #[verifier::opaque]
    pub open spec fn missing_tick(self, p: Plant, i: TickInput) -> (LoopState, DeviceDecision) {
        let s = self.missing(p, i);
        let cap = if s.group_lost {
            s.max
        } else {
            first_of(s.last_applied, None, s.max)
        };
        (
            s.reported(),
            s.decided(i, s.held(on_grid(p, cap)), s.thermal, s.max, s.group_seen, s.group_lost),
        )
    }

    /// Where the shadow candidate heads.
    #[verifier::opaque]
    pub open spec fn shadow_goal(self, i: TickInput) -> Num {
        match i.draw {
            Some(d) if i.shadow_enabled => draw_target(d, i.shadow_headroom, self.floor, self.max),
            _ => self.max,
        }
    }

    /// The error starts afresh in this tick.
    pub open spec fn resyncs(self, mismatch_ended: bool) -> bool {
        !self.group_entered || self.group_missing || mismatch_ended
    }

    /// The state once the group's temperature is back.
    #[verifier::opaque]
    pub open spec fn regained(self, p: Plant, i: TickInput, mismatch_ended: bool) -> LoopState {
        let back = !self.group_entered || self.group_missing;
        let reset = self.group_reset_pending && !self.mismatch_latched;
        LoopState {
            group_seen: true,
            group_entered: true,
            group_missing: false,
            group_missing_s: if back {
                Num(ZERO)
            } else {
                self.group_missing_s
            },
            group_lost: if back {
                false
            } else {
                self.group_lost
            },
            thermal: if reset {
                self.max
            } else {
                self.thermal
            },
            shadow: if reset {
                self.shadow_goal(i)
            } else {
                self.shadow
            },
            requested: if reset {
                Some(on_grid(p, self.max))
            } else {
                self.requested
            },
            group_reset_pending: self.group_reset_pending && !reset,
            e_prev: if self.resyncs(mismatch_ended) {
                error_of(i)
            } else {
                self.e_prev
            },
            elapsed_s: if self.resyncs(mismatch_ended) {
                Num(ZERO)
            } else {
                self.elapsed_s
            },
            ..self
        }
    }

    /// The tick under a mismatch: the request holds.
    #[verifier::opaque]
    pub open spec fn mismatch_tick(self, i: TickInput) -> (LoopState, DeviceDecision) {
        let s = LoopState {
            elapsed_s: Num(ZERO),
            hot_rearm_s: if error_of(i).lt(Num(ZERO)) {
                Num(ZERO)
            } else {
                self.hot_rearm_s
            },
            ..self
        };
        let d = s.decided(
            i,
            self.held(first_of(self.requested, None, self.max)),
            s.thermal,
            s.shadow,
            true,
            false,
        );
        (s.reported().recorded(i, d.selected), d)
    }

    /// The tick on which the thermal candidate joins or leaves: the candidate
    /// that takes over starts from the cap in force.
    #[verifier::opaque]
    pub open spec fn mode_tick(self, p: Plant, i: TickInput) -> (LoopState, DeviceDecision) {
        let cap = self.in_force();
        let s = (match i.mode {
            ThermalMode::Bypass => self.shadow_at(cap),
            ThermalMode::Regulate => self.regulating_at(cap, error_of(i)),
        }).requesting(on_grid(p, cap));
        let thermal = if i.mode == ThermalMode::Bypass {
            s.max
        } else {
            s.thermal
        };
        let d = s.decided(i, cap, thermal, s.shadow, true, false);
        (
            s.controlled(i, d.selected),
            d,
        )
    }

    /// The most that the recent draw can use, within the bounds.
    #[verifier::opaque]
    pub open spec fn hot_ceiling(self, p: Plant, recent: Seq<(Num, Num)>, i: TickInput) -> Num {
        self.held(peak_draw(recent).plus(p.hot_headroom.lesser(i.shadow_headroom)))
    }

    /// The cap after the slew limits and on the grid.
    #[verifier::opaque]
    pub open spec fn slewed(
        self,
        p: Plant,
        target: Num,
        selected: Selected,
        dt: Num,
        at_once: bool,
    ) -> Num {
        let desired = self.held(on_grid(p, target));
        match self.requested {
            Some(previous) if !at_once => self.held(
                on_grid(p, moved_toward(p, desired, previous, selected, dt)),
            ),
            _ => desired,
        }
    }

    /// A pending trim may run.
    pub open spec fn trim_due(self, recent: Seq<(Num, Num)>, resynced: bool) -> bool {
        self.hot_entry_trim_pending && !resynced && history_full(recent, self.draw_clock_s)
    }

    /// The thermal candidate after a trim.
    #[verifier::opaque]
    pub open spec fn trim_level(self, p: Plant, recent: Seq<(Num, Num)>, i: TickInput) -> Num {
        self.thermal.lesser(self.in_force()).lesser(self.hot_ceiling(p, recent, i))
    }

    /// The thermal candidate trimmed, and the cap in force requested.
    #[verifier::opaque]
    pub open spec fn trimmed_to(self, thermal: Num, error: Num) -> LoopState {
        LoopState {
            hot_entry_trim_pending: false,
            requested: Some(self.in_force()),
            ..self.thermal_at(thermal, error)
        }
    }

    /// The tick that skips headroom which the draw does not use.
    #[verifier::opaque]
    pub open spec fn trim_tick(self, p: Plant, recent: Seq<(Num, Num)>, i: TickInput) -> (
        LoopState,
        DeviceDecision,
    ) {
        let thermal = self.trim_level(p, recent, i);
        let s = self.trimmed_to(thermal, error_of(i));
        let (target, selected) = selection(thermal, s.shadow, s.floor, s.max);
        let cap = s.slewed(p, target, selected, usable_dt(i.dt_s), false);
        let s = LoopState { requested: Some(cap), ..s };
        let d = s.decided(i, cap, thermal, s.shadow, true, false);
        (LoopState { last_mode: Some(i.mode), ..s.reported().recorded(i, d.selected) }, d)
    }

    /// A hot episode begins while the shadow candidate rules.
    #[verifier::opaque]
    pub open spec fn hands_over(self, i: TickInput, resynced: bool) -> bool {
        &&& i.mode == ThermalMode::Regulate
        &&& !resynced
        &&& self.hot_episode_armed
        &&& self.previous_selected == Some(Selected::Shadow)
        &&& !(self.draw_missing && i.draw is Some)
        &&& error_of(i).lt(Num(ZERO))
    }

    /// Control begins while it is already hot.
    #[verifier::opaque]
    pub open spec fn enters_hot(self, i: TickInput) -> bool {
        &&& self.control_entry_pending
        &&& i.mode == ThermalMode::Regulate
        &&& error_of(i).lt(Num(ZERO))
    }

    /// The cap from which a hot episode starts.
    #[verifier::opaque]
    pub open spec fn hot_start(self, i: TickInput) -> Num {
        if self.enters_hot(i) {
            match self.last_applied {
                Some(cap) => self.held(cap),
                None => if self.entry_candidates_seeded {
                    self.held(self.shadow)
                } else {
                    self.shadow_goal(i)
                },
            }
        } else {
            self.held(first_of(self.last_applied, self.requested, self.shadow))
        }
    }

    /// The thermal candidate at the start of a hot episode: the cap it starts
    /// from, less what a full history shows to be unused at a handover.
    #[verifier::opaque]
    pub open spec fn hot_level(
        self,
        p: Plant,
        recent: Seq<(Num, Num)>,
        i: TickInput,
        resynced: bool,
    ) -> Num {
        if self.hands_over(i, resynced) && history_full(recent, self.draw_clock_s) {
            self.hot_start(i).lesser(self.hot_ceiling(p, recent, i))
        } else {
            self.hot_start(i)
        }
    }

    /// The cap at the start of a hot episode: a lower thermal candidate is
    /// approached from the cap in force.
    #[verifier::opaque]
    pub open spec fn hot_cap(
        self,
        p: Plant,
        recent: Seq<(Num, Num)>,
        i: TickInput,
        resynced: bool,
    ) -> Num {
        let start = self.hot_start(i);
        let thermal = self.hot_level(p, recent, i, resynced);
        if thermal.lt(start) {
            (LoopState { requested: Some(start), ..self }).slewed(
                p,
                thermal,
                Selected::Thermal,
                usable_dt(i.dt_s),
                false,
            )
        } else {
            start
        }
    }

    /// The state in which a hot episode begins.
    #[verifier::opaque]
    pub open spec fn hot_state(
        self,
        p: Plant,
        recent: Seq<(Num, Num)>,
        i: TickInput,
        resynced: bool,
    ) -> LoopState {
        let cap = self.hot_cap(p, recent, i, resynced);
        LoopState {
            thermal: self.hot_level(p, recent, i, resynced),
            shadow: if self.enters_hot(i) {
                cap
            } else {
                self.shadow
            },
            hot_entry_trim_pending: if self.enters_hot(i) {
                i.shadow_enabled
            } else {
                self.hot_entry_trim_pending
            },
            requested: Some(on_grid(p, cap)),
            e_prev: error_of(i),
            elapsed_s: Num(ZERO),
            hot_episode_armed: false,
            hot_rearm_s: Num(ZERO),
            ..self
        }
    }

    /// The tick that begins a hot episode: the thermal candidate takes over.
    #[verifier::opaque]
    pub open spec fn hot_tick(
        self,
        p: Plant,
        recent: Seq<(Num, Num)>,
        i: TickInput,
        resynced: bool,
    ) -> (LoopState, DeviceDecision) {
        let s = self.hot_state(p, recent, i, resynced);
        let cap = self.hot_cap(p, recent, i, resynced);
        let d = s.decided(i, cap, s.thermal, s.shadow, true, false);
        (s.controlled(i, d.selected), d)
    }

    /// The arm of the next hot episode: it comes back after a full PI period
    /// that is not hot.
    #[verifier::opaque]
    pub open spec fn rearmed(self, i: TickInput) -> LoopState {
        if self.hot_episode_armed {
            self
        } else if Num(ZERO).le(error_of(i)) {
            let waited = self.hot_rearm_s.plus(usable_dt(i.dt_s));
            if Num(PI_PERIOD_S).le(waited) {
                LoopState { hot_episode_armed: true, hot_rearm_s: Num(ZERO), ..self }
            } else {
                LoopState { hot_rearm_s: waited, ..self }
            }
        } else {
            LoopState { hot_rearm_s: Num(ZERO), ..self }
        }
    }

    /// The shadow candidate one step nearer to `target`.
    #[verifier::opaque]
    pub open spec fn shadow_toward(self, p: Plant, target: Num, dt: Num, headroom: Num, fall_rate: Num) -> Num {
        let delta = target.minus(self.shadow);
        let step = if Num(ZERO).le(delta) {
            (if p.grid.same(Num(CPU_GRID)) {
                if_positive(headroom)
            } else {
                Num(GPU_SHADOW_RISE_RATE)
            }).times(dt)
        } else {
            if_positive(fall_rate).times(dt)
        };
        self.held(self.shadow.plus(delta.within(step.opposite(), step)))
    }

    /// The shadow candidate after an ordinary tick: it follows the draw
    /// unless it is hot, and heads for the maximum when the draw has been
    /// missing for its whole dwell.
    #[verifier::opaque]
    pub open spec fn shadowed(self, p: Plant, i: TickInput) -> LoopState {
        let dt = usable_dt(i.dt_s);
        let missing_s = if i.draw is None {
            self.draw_missing_s.plus(dt)
        } else {
            Num(ZERO)
        };
        LoopState {
            draw_missing: i.draw is None,
            draw_missing_s: missing_s,
            shadow: if i.draw is Some && self.draw_missing {
                self.held(first_of(self.last_applied, self.requested, self.shadow))
            } else if !i.shadow_enabled {
                self.max
            } else if i.draw is Some {
                if i.mode == ThermalMode::Bypass || Num(ZERO).le(error_of(i)) {
                    self.shadow_toward(
                        p,
                        self.shadow_goal(i),
                        dt,
                        i.shadow_headroom,
                        i.shadow_fall_rate,
                    )
                } else {
                    self.shadow
                }
            } else if Num(GROUP_UNAVAILABLE_DWELL_S).le(missing_s) {
                self.shadow_toward(p, self.max, dt, i.shadow_headroom, i.shadow_fall_rate)
            } else {
                self.shadow
            },
            ..self
        }
    }

    /// One PI step on the thermal candidate. The integral does not push
    /// further against a bound that the candidate is already at.
    #[verifier::opaque]
    pub open spec fn integrated(self, error: Num) -> LoopState {
        let elapsed = self.elapsed_s.lesser(Num(MAX_PI_ELAPSED_S));
        let proportional = self.gains.kc.times(error.minus(self.e_prev));
        let integral = self.gains.kc.times(elapsed).over(self.gains.ti_s).times(error);
        let farther = (self.thermal.le(self.floor) && integral.lt(Num(ZERO))) || (self.max.le(
            self.thermal,
        ) && Num(ZERO).lt(integral));
        LoopState {
            thermal: self.held(
                self.thermal.plus(proportional).plus(
                    if farther {
                        Num(ZERO)
                    } else {
                        integral
                    },
                ),
            ),
            e_prev: error,
            elapsed_s: Num(ZERO),
            ..self
        }
    }

    /// The thermal candidate after an ordinary tick. A move of the target is
    /// taken out of the proportional term.
    #[verifier::opaque]
    pub open spec fn regulated(self, i: TickInput, resynced: bool) -> LoopState {
        if i.mode == ThermalMode::Bypass {
            self
        } else {
            let s = LoopState {
                e_prev: if resynced {
                    self.e_prev
                } else {
                    self.e_prev.plus(if_finite(i.delta_tstar))
                },
                elapsed_s: self.elapsed_s.plus(usable_dt(i.dt_s)),
                ..self
            };
            if Num(PI_PERIOD_S).le(s.elapsed_s) {
                s.integrated(error_of(i))
            } else {
                s
            }
        }
    }

    /// An ordinary tick.
    #[verifier::opaque]
    pub open spec fn ordinary_tick(
        self,
        p: Plant,
        i: TickInput,
        resynced: bool,
        at_once: bool,
    ) -> (LoopState, DeviceDecision) {
        let s = self.rearmed(i).shadowed(p, i).regulated(i, resynced);
        let thermal = if i.mode == ThermalMode::Bypass {
            s.max
        } else {
            s.thermal
        };
        let (target, selected) = selection(thermal, s.shadow, s.floor, s.max);
        let cap = s.slewed(p, target, selected, usable_dt(i.dt_s), at_once);
        let s = s.requesting(cap);
        let d = s.decided(i, cap, thermal, s.shadow, true, false);
        (
            s.controlled(i, d.selected),
            d,
        )
    }

    /// The tick of a loop that controls: the group has a temperature and no
    /// mismatch is latched.
    #[verifier::opaque]
    pub open spec fn control_tick(
        self,
        p: Plant,
        recent: Seq<(Num, Num)>,
        i: TickInput,
        resynced: bool,
        at_once: bool,
    ) -> (LoopState, DeviceDecision) {
        if self.last_mode is Some && self.last_mode != Some(i.mode) {
            self.mode_tick(p, i)
        } else if self.trim_due(recent, resynced) && self.trim_level(p, recent, i).lt(self.thermal) {
            self.trim_tick(p, recent, i)
        } else {
            let s = self.trim_settled(self.trim_due(recent, resynced));
            if s.hands_over(i, resynced) || s.enters_hot(i) {
                s.hot_tick(p, recent, i, resynced)
            } else {
                s.ordinary_tick(p, i, resynced, at_once)
            }
        }
    }

    /// The state once the time of a tick is counted.
    pub open spec fn clocked(self, i: TickInput) -> LoopState {
        LoopState { draw_clock_s: self.draw_clock_s.plus(usable_dt(i.dt_s)), ..self }
    }

    /// One tick, given the draw history that already holds its draw.
    #[verifier::opaque]
    pub open spec fn advanced(self, p: Plant, recent: Seq<(Num, Num)>, i: TickInput) -> (
        LoopState,
        DeviceDecision,
    ) {
        let c = self.clocked(i);
        let s = c.bounded(i).noted(i);
        let at_once = c.floor_changes(i) || c.max_lowers_request(i);
        if i.resumed {
            s.resume_tick(i)
        } else if i.group_c is None {
            s.missing_tick(p, i)
        } else {
            let ended = c.mismatch_ends(i);
            let g = s.regained(p, i, ended);
            if g.mismatch_latched {
                g.mismatch_tick(i)
            } else {
                g.control_tick(p, recent, i, s.resyncs(ended), at_once)
            }
        }
    }

    /// One tick.
    pub open spec fn ticked(self, p: Plant, recent: Seq<(Num, Num)>, i: TickInput) -> (
        LoopState,
        DeviceDecision,
    ) {
        self.advanced(p, self.history_after(recent, i), i)
    }

    /// The draw history after a tick.
    pub open spec fn history_after(self, recent: Seq<(Num, Num)>, i: TickInput) -> Seq<(Num, Num)> {
        self.clocked(i).history(recent, i)
    }
}

/// How far the cap moves from `previous` toward `desired` in one step.
#[verifier::opaque]
pub open spec fn moved_toward(p: Plant, desired: Num, previous: Num, selected: Selected, dt: Num) -> Num {
    let rise = if selected == Selected::Shadow && p.grid.same(Num(ONE)) {
        Num(GPU_SHADOW_RISE_RATE)
    } else {
        p.rise_rate
    };
    if previous.lt(desired) {
        desired.lesser(previous.plus(rise.times(dt)))
    } else {
        desired.greater(previous.minus(p.fall_rate.times(dt)))
    }
}

/// The loop of one device.
pub struct DeviceLoop<U: DeviceUnit> {
    pub state: LoopState,
    /// Recent draw, each with the time it was read at.
    pub recent_draw: VecDeque<(Num, Num)>,
    pub unit: PhantomData<U>,
}

impl<U: DeviceUnit> DeviceLoop<U> {
    /// The bounds are the right way round.
    pub open spec fn wf(self) -> bool {
        self.state.wf()
    }

    /// A loop that has not run yet.
    pub fn new(gains: Gains) -> (r: DeviceLoop<U>)
        ensures
            r.wf(),
            r.state == fresh(gains),
            r.recent_draw@ == Seq::<(Num, Num)>::empty(),
    {
        proof {
            reveal(Num::le);
        }
        DeviceLoop {
            state: LoopState {
                gains,
                thermal: Num(ZERO),
                shadow: Num(ZERO),
                requested: None,
                last_applied: None,
                e_prev: Num(ZERO),
                elapsed_s: Num(ZERO),
                floor: Num(0xfff0_0000_0000_0000),
                max: Num(0x7ff0_0000_0000_0000),
                bounds_initialised: false,
                group_seen: false,
                group_entered: false,
                group_missing: false,
                group_lost: false,
                group_reset_pending: false,
                group_missing_s: Num(ZERO),
                draw_missing_s: Num(ZERO),
                draw_missing: false,
                draw_clock_s: Num(ZERO),
                mismatch_latched: false,
                pending_immediate: false,
                prev_group: None,
                prev_t_star: None,
                previous_selected: None,
                hot_episode_armed: true,
                hot_entry_trim_pending: false,
                hot_rearm_s: Num(ZERO),
                control_entry_pending: true,
                entry_candidates_seeded: false,
                last_mode: None,
            },
            recent_draw: VecDeque::new(),
            unit: PhantomData,
        }
    }

    /// New gains for a strategy or moving-average change, without a new
    /// control entry: nothing else changes, so the cap does not step.
    pub fn set_gains(&mut self, gains: Gains)
        ensures
            final(self).state == (LoopState { gains, ..old(self).state }),
            final(self).recent_draw@ == old(self).recent_draw@,
    {
        self.state.gains = gains;
    }

    /// Ends an engagement; only the gains stay.
    pub fn reset_engagement(&mut self)
        ensures
            final(self).wf(),
            final(self).state == fresh(old(self).state.gains),
            final(self).recent_draw@ == Seq::<(Num, Num)>::empty(),
    {
        *self = DeviceLoop::new(self.state.gains);
    }

    /// Starts from a cap already in force.
    pub fn seed(&mut self, cap: Num, error: Num)
        ensures
            final(self).state == old(self).state.seeded(cap, cap, Some(cap), error),
            final(self).recent_draw@ == old(self).recent_draw@,
    {
        self.seed_candidates(cap, cap, Some(cap), error);
    }

    /// Starts from given candidates.
    pub fn seed_candidates(&mut self, thermal: Num, shadow: Num, applied: Option<Num>, error: Num)
        ensures
            final(self).state == old(self).state.seeded(thermal, shadow, applied, error),
            final(self).recent_draw@ == old(self).recent_draw@,
    {
        self.state =
        LoopState {
            thermal,
            shadow,
            requested: Some(first_or(applied, None, thermal.min(shadow))),
            last_applied: applied,
            e_prev: error,
            elapsed_s: Num(ZERO),
            group_seen: true,
            group_entered: true,
            entry_candidates_seeded: true,
            ..self.state
        };
    }

    /// The thermal candidate takes over at `cap`, without a kick.
    pub fn transfer_thermal(&mut self, cap: Num, error: Num)
        requires
            old(self).wf(),
        ensures
            final(self).state == old(self).state.thermal_at(cap, error),
            final(self).recent_draw@ == old(self).recent_draw@,
    {
        self.state =
        LoopState {
            thermal: cap.clamp(self.state.floor, self.state.max),
            e_prev: error,
            elapsed_s: Num(ZERO),
            ..self.state
        };
    }

    /// Sets the shadow candidate; the PI is untouched.
    pub fn transfer_shadow(&mut self, cap: Num)
        requires
            old(self).wf(),
        ensures
            final(self).state == (LoopState { shadow: old(self).state.held(cap), ..old(self).state }),
            final(self).recent_draw@ == old(self).recent_draw@,
    {
        self.state.shadow = cap.clamp(self.state.floor, self.state.max);
    }

    /// Installs the first measured draw candidate after an entry without one.
    pub fn seed_initial_shadow(&mut self, cap: Num)
        requires
            old(self).wf(),
        ensures
            final(self).state == old(self).state.drawing(cap),
            final(self).recent_draw@ == old(self).recent_draw@,
            final(self).wf(),
    {
        proof {
            reveal(LoopState::drawing);
        }
        self.state =
        LoopState {
            shadow: cap.clamp(self.state.floor, self.state.max),
            draw_missing: false,
            draw_missing_s: Num(ZERO),
            ..self.state
        };
    }

    /// Makes the proportional term start from `error`.
    pub fn resync_error(&mut self, error: Num)
        ensures
            final(self).state == (LoopState { e_prev: error, ..old(self).state }),
            final(self).recent_draw@ == old(self).recent_draw@,
    {
        self.state.e_prev = error;
    }

    /// Records a cap that was written with success.
    pub fn note_applied(&mut self, cap: Num)
        requires
            old(self).wf(),
        ensures
            final(self).state == (LoopState {
                last_applied: Some(old(self).state.held(cap)),
                ..old(self).state
            }),
            final(self).recent_draw@ == old(self).recent_draw@,
    {
        self.state.last_applied = Some(cap.clamp(self.state.floor, self.state.max));
    }

    /// The thermal candidate.
    pub fn thermal(&self) -> (r: Num)
        ensures
            r == self.state.thermal,
    {
        self.state.thermal
    }

    /// The cap last decided.
    pub fn requested(&self) -> (r: Option<Num>)
        ensures
            r == self.state.requested,
    {
        self.state.requested
    }

    /// Applies a guard ceiling; whether it lowered the cap last decided.
    pub fn clamp_max(&mut self, max: Num) -> (r: bool)
        requires
            old(self).wf(),
        ensures
            final(self).wf(),
            final(self).state == old(self).state.capped(max),
            final(self).recent_draw@ == old(self).recent_draw@,
            r == old(self).state.lowers_request(max),
    {
        let (state, lowered) = self.state.with_ceiling(max);
        self.state = state;
        lowered
    }

    /// One tick: takes in the input and decides the cap.
    pub fn tick(&mut self, input: TickInput) -> (r: DeviceDecision)
        requires
            old(self).wf(),
        ensures
            final(self).wf(),
            final(self).state == old(self).state.ticked(
                U::plant(),
                old(self).recent_draw@,
                input,
            ).0,
            r == old(self).state.ticked(U::plant(), old(self).recent_draw@, input).1,
            final(self).recent_draw@ == old(self).state.history_after(
                old(self).recent_draw@,
                input,
            ),
    {
        let clocked = self.state.with_time(input);
        clocked.note_draw(&mut self.recent_draw, input);
        let (state, decision) = self.state.advance(U::constants(), &self.recent_draw, input);
        self.state = state;
        decision
    }
}

} // verus!
