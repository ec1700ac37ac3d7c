//! The single budget integrator.
//!
//! Velocity-form PI on a [`LoopError`] (temperature or fan speed) that
//! produces the total CPU and GPU power budget `u`, in watts. One integrator
//! serves both error kinds: a switch only changes what error feeds the next
//! increment, so it is bumpless ([`lemma_switch_is_bumpless`]).
//!
//! Anti-windup has two parts. The accumulator `v` is fed back
//! `(Ts/Tt) * (u - v)` with `Tt = Ti`, so it bleeds toward the clamped `u`
//! while saturated ([`crate::windup`]). And [`Freeze::DemandLimited`] drops an
//! increment that would ask for more power than the devices draw, while one
//! that lowers the budget passes ([`lemma_demand_limit_never_raises`]).

use crate::num::{Num, ONE, ZERO};
use crate::table::Table;
use vstd::prelude::*;

verus! {

/// Integrator cadence, in seconds.
pub const PI_PERIOD_S: u64 = 0x4014_0000_0000_0000;

/// The cadence as a whole number of seconds, for the dwell counters.
pub const PI_PERIOD_WHOLE_S: u64 = 5;

/// Reference curve slope of the gain schedule, in percent per degree.
pub const SLOPE_REF_PCT_PER_C: u64 = 0x3ff0_0000_0000_0000;

/// Conservative end of the gain schedule: what the steepest curve gets, and
/// what applies while no curve has been resolved.
pub const RPM_GAIN_SCALE_FLOOR: u64 = 0x3fd0_0000_0000_0000;

/// PI gains of both legs.
#[derive(Clone, Copy, Debug, PartialEq)]
pub struct LoopGains {
    /// Proportional gain on temperature, W/°C.
    pub kc_w_per_c: Num,
    /// Integral time on temperature, s.
    pub ti_s: Num,
    /// Proportional gain on fan speed, W/RPM, before the slope schedule.
    pub kc_w_per_rpm: Num,
    /// Integral time on fan speed, s.
    pub ti_rpm_s: Num,
}

/// Default proportional gain on temperature: 0.22.
pub const DEFAULT_KC_W_PER_C: u64 = 0x3fcc_28f5_c28f_5c29;

/// Default integral time on either leg: 35.
pub const DEFAULT_TI_S: u64 = 0x4041_8000_0000_0000;

/// Default proportional gain on fan speed: 0.0028.
pub const DEFAULT_KC_W_PER_RPM: u64 = 0x3f66_f006_8db8_bac7;

impl Default for LoopGains {
    fn default() -> (r: LoopGains)
        ensures
            r == (LoopGains {
                kc_w_per_c: Num(DEFAULT_KC_W_PER_C),
                ti_s: Num(DEFAULT_TI_S),
                kc_w_per_rpm: Num(DEFAULT_KC_W_PER_RPM),
                ti_rpm_s: Num(DEFAULT_TI_S),
            }),
    {
        LoopGains {
            kc_w_per_c: Num(DEFAULT_KC_W_PER_C),
            ti_s: Num(DEFAULT_TI_S),
            kc_w_per_rpm: Num(DEFAULT_KC_W_PER_RPM),
            ti_rpm_s: Num(DEFAULT_TI_S),
        }
    }
}

/// The error that feeds the integrator in one tick.
#[derive(Clone, Copy, Debug, PartialEq)]
pub enum LoopError {
    /// Target minus measured temperature.
    Temp { e_c: Num },
    /// Target minus measured fan speed.
    Rpm { e_rpm: Num },
}

/// Which quantity an error is about.
#[derive(Clone, Copy, Debug, PartialEq, Eq, Structural)]
pub enum ErrorKind {
    Temp,
    Rpm,
}

impl LoopError {
    /// The error itself.
    pub open spec fn amount(self) -> Num {
        match self {
            LoopError::Temp { e_c } => e_c,
            LoopError::Rpm { e_rpm } => e_rpm,
        }
    }

    /// What the error is about.
    pub open spec fn about(self) -> ErrorKind {
        match self {
            LoopError::Temp { .. } => ErrorKind::Temp,
            LoopError::Rpm { .. } => ErrorKind::Rpm,
        }
    }

    fn value(self) -> (r: Num)
        ensures
            r == self.amount(),
    {
        match self {
            LoopError::Temp { e_c } => e_c,
            LoopError::Rpm { e_rpm } => e_rpm,
        }
    }

    fn kind(self) -> (r: ErrorKind)
        ensures
            r == self.about(),
    {
        match self {
            LoopError::Temp { .. } => ErrorKind::Temp,
            LoopError::Rpm { .. } => ErrorKind::Rpm,
        }
    }
}

/// Why accumulation is held, or partly held.
#[derive(Clone, Copy, Debug, PartialEq, Eq, Structural)]
pub enum Freeze {
    /// A write and its read-back disagree.
    ActuatorMismatch,
    /// A calibration session is running.
    Calibrating,
    /// Released to stock.
    Released,
    /// Some actuator cannot use more of the budget that the error asks for.
    /// Only an increment that deepens the condition is dropped; `u` still
    /// follows one that lowers it.
    DemandLimited,
}

/// The integrator. `u` stays within `[lo, hi]`.
#[derive(Clone, Copy, Debug)]
pub struct Budget {
    pub gains: LoopGains,
    pub lo: Num,
    pub hi: Num,
    /// The commanded budget, clamped, in watts.
    pub u: Num,
    /// The unclamped accumulator; equal to `u` while unsaturated.
    pub v: Num,
    /// The error of the tick before.
    pub e_prev: Num,
    pub last_kind: Option<ErrorKind>,
    pub last_freeze: Option<Freeze>,
    /// Multiplier on the fan-speed gain.
    pub rpm_gain_scale: Num,
    /// Seconds spent clamped at the lower bound.
    pub lower_bound_dwell: u64,
    /// Seconds spent clamped at the upper bound.
    pub upper_bound_dwell: u64,
}

/// The freeze holds the budget exactly.
pub open spec fn holds_exactly(freeze: Option<Freeze>) -> bool {
    freeze is Some && freeze != Some(Freeze::DemandLimited)
}

/// The gain for a curve of this slope at the operating point.
pub open spec fn slope_scale(slope: Option<Num>) -> Num {
    match slope {
        None => Num(RPM_GAIN_SCALE_FLOOR),
        Some(s) => Num(SLOPE_REF_PCT_PER_C).over(s.greater(Num(SLOPE_REF_PCT_PER_C))).within(
            Num(RPM_GAIN_SCALE_FLOOR),
            Num(ONE),
        ),
    }
}

/// Some axis draws all that it may.
pub open spec fn pinned(axes: Seq<(Num, Num)>) -> bool {
    exists|i: int| 0 <= i < axes.len() && (#[trigger] axes[i]).1.le(axes[i].0)
}

impl Budget {
    /// The bounds are ordered, and the budget lies within them unless it is
    /// not a number.
    pub open spec fn wf(self) -> bool {
        &&& self.lo.le(self.hi)
        &&& self.u.nan() || (self.lo.le(self.u) && self.u.le(self.hi))
    }

    /// The dwell counters can take another tick.
    pub open spec fn dwell_room(self) -> bool {
        &&& self.lower_bound_dwell + PI_PERIOD_WHOLE_S <= u64::MAX
        &&& self.upper_bound_dwell + PI_PERIOD_WHOLE_S <= u64::MAX
    }

    /// Gain and integral time for an error kind.
    pub open spec fn leg(self, kind: ErrorKind) -> (Num, Num) {
        match kind {
            ErrorKind::Temp => (self.gains.kc_w_per_c, self.gains.ti_s),
            ErrorKind::Rpm => (
                self.gains.kc_w_per_rpm.times(self.rpm_gain_scale),
                self.gains.ti_rpm_s,
            ),
        }
    }

    /// The error source jumped, so the proportional term starts afresh.
    pub open spec fn jumps(self, err: LoopError, freeze: Option<Freeze>) -> bool {
        ||| self.last_kind is Some && self.last_kind != Some(err.about())
        ||| self.last_freeze is Some && freeze is None
    }

    /// The PI increment of an error.
    pub open spec fn increment(self, err: LoopError) -> Num {
        let (kc, ti) = self.leg(err.about());
        kc.times(err.amount().minus(self.e_prev)).plus(
            kc.times(Num(PI_PERIOD_S)).over(ti).times(err.amount()),
        )
    }

    /// The increment that is let through.
    pub open spec fn gated(self, err: LoopError, freeze: Option<Freeze>) -> Num {
        let du = self.increment(err);
        if freeze == Some(Freeze::DemandLimited) && Num(ZERO).lt(du) {
            Num(ZERO)
        } else {
            du
        }
    }

    /// The accumulator after an increment and the pull toward `u`.
    pub open spec fn accumulated(self, err: LoopError, freeze: Option<Freeze>) -> Num {
        let ti = self.leg(err.about()).1;
        let back = Num(PI_PERIOD_S).over(ti).times(self.u.minus(self.v));
        self.v.plus(self.gated(err, freeze)).plus(back)
    }

    /// The integrator once it knows what the tick brings.
    pub open spec fn noted(self, err: LoopError, freeze: Option<Freeze>) -> Budget {
        Budget {
            last_kind: Some(err.about()),
            last_freeze: freeze,
            e_prev: if self.jumps(err, freeze) {
                err.amount()
            } else {
                self.e_prev
            },
            ..self
        }
    }

    /// The integrator after one tick.
    pub open spec fn stepped(self, err: LoopError, freeze: Option<Freeze>) -> Budget {
        let noted = self.noted(err, freeze);
        if holds_exactly(freeze) {
            Budget { lower_bound_dwell: 0, upper_bound_dwell: 0, ..noted }
        } else {
            let v = noted.accumulated(err, freeze);
            Budget {
                v,
                u: v.within(self.lo, self.hi),
                e_prev: err.amount(),
                lower_bound_dwell: if v.le(self.lo) {
                    (self.lower_bound_dwell + PI_PERIOD_WHOLE_S) as u64
                } else {
                    0
                },
                upper_bound_dwell: if self.hi.le(v) {
                    (self.upper_bound_dwell + PI_PERIOD_WHOLE_S) as u64
                } else {
                    0
                },
                ..noted
            }
        }
    }

    /// An integrator with nothing to command: bounds `[0, 0]`, no dwell.
    pub fn new(gains: &LoopGains) -> (r: Budget)
        ensures
            r.wf(),
            r == (Budget {
                gains: *gains,
                lo: Num(ZERO),
                hi: Num(ZERO),
                u: Num(ZERO),
                v: Num(ZERO),
                e_prev: Num(ZERO),
                last_kind: None,
                last_freeze: None,
                rpm_gain_scale: Num(RPM_GAIN_SCALE_FLOOR),
                lower_bound_dwell: 0,
                upper_bound_dwell: 0,
            }),
    {
        proof {
            reveal(Num::le);
            reveal(Num::lt);
        }
        Budget {
            gains: *gains,
            lo: Num(ZERO),
            hi: Num(ZERO),
            u: Num(ZERO),
            v: Num(ZERO),
            e_prev: Num(ZERO),
            last_kind: None,
            last_freeze: None,
            rpm_gain_scale: Num(RPM_GAIN_SCALE_FLOOR),
            lower_bound_dwell: 0,
            upper_bound_dwell: 0,
        }
    }

    /// Loads new gains; a gain change alone is not a setpoint jump.
    pub fn set_gains(&mut self, gains: &LoopGains)
        ensures
            *final(self) == (Budget { gains: *gains, ..*old(self) }),
    {
        self.gains = *gains;
    }

    /// Sets the bounds and clamps `u` at once; the accumulator corrects
    /// itself on the next tick.
    pub fn set_bounds(&mut self, lo: Num, hi: Num)
        requires
            lo.le(hi),
        ensures
            *final(self) == (Budget { lo, hi, u: old(self).u.within(lo, hi), ..*old(self) }),
            final(self).wf(),
    {
        proof {
            reveal(Num::le);
            reveal(Num::lt);
            reveal(Num::within);
        }
        self.lo = lo;
        self.hi = hi;
        self.u = self.u.clamp(lo, hi);
    }

    /// Starts from `u`, clamped, with no latent windup.
    pub fn seed(&mut self, u: Num)
        requires
            old(self).wf(),
        ensures
            *final(self) == (Budget {
                u: u.within(old(self).lo, old(self).hi),
                v: u.within(old(self).lo, old(self).hi),
                ..*old(self)
            }),
            final(self).wf(),
    {
        proof {
            reveal(Num::le);
            reveal(Num::lt);
            reveal(Num::within);
        }
        let u = u.clamp(self.lo, self.hi);
        self.u = u;
        self.v = u;
    }

    /// Makes the next tick's proportional term start from `e`.
    pub fn resync_error(&mut self, e: Num)
        ensures
            *final(self) == (Budget { e_prev: e, ..*old(self) }),
    {
        self.e_prev = e;
    }

    /// Applies the curve-slope schedule to the fan-speed gain and returns
    /// the multiplier, which lies in `[0.25, 1]` whatever the slope.
    pub fn scale_rpm_gain(&mut self, slope: Option<Num>) -> (r: Num)
        ensures
            r == slope_scale(slope),
            *final(self) == (Budget { rpm_gain_scale: r, ..*old(self) }),
            Num(RPM_GAIN_SCALE_FLOOR).le(r),
            r.le(Num(ONE)),
    {
        proof {
            reveal(Num::le);
            reveal(Num::lt);
        }
        proof {
            lemma_schedule_range(slope);
        }
        let scale = match slope {
            None => Num(RPM_GAIN_SCALE_FLOOR),
            Some(s) => (Num(SLOPE_REF_PCT_PER_C) / s.max(Num(SLOPE_REF_PCT_PER_C))).clamp(
                Num(RPM_GAIN_SCALE_FLOOR),
                Num(ONE),
            ),
        };
        self.rpm_gain_scale = scale;
        scale
    }

    /// Whether the error asks for more while some axis already draws all
    /// that it may. Each axis is a pair of draw and cap, judged on its own.
    pub fn set_demand_state(&mut self, axes: &[(Num, Num)], error_sign: Num) -> (r: bool)
        ensures
            r == (Num(ZERO).lt(error_sign) && pinned(axes@)),
            *final(self) == *old(self),
    {
        let mut any: bool = false;
        let mut i: usize = 0;
        while i < axes.len()
            invariant
                i <= axes@.len(),
                any == pinned(axes@.take(i as int)),
            decreases axes@.len() - i,
        {
            let (draw, cap) = axes[i];
            let here = draw >= cap;
            proof {
                let before = axes@.take(i as int);
                let after = axes@.take(i + 1);
                if any {
                    let j = choose|j: int|
                        0 <= j < before.len() && (#[trigger] before[j]).1.le(before[j].0);
                    assert(after[j] == before[j]);
                }
                if here {
                    assert(after[i as int].1.le(after[i as int].0));
                }
                if pinned(after) && !here {
                    let j = choose|j: int|
                        0 <= j < after.len() && (#[trigger] after[j]).1.le(after[j].0);
                    assert(before[j] == after[j]);
                }
            }
            any = any || here;
            i += 1;
        }
        assert(axes@.take(axes@.len() as int) =~= axes@);
        error_sign > Num(ZERO) && any
    }

    fn gains_for(&self, kind: ErrorKind) -> (r: (Num, Num))
        ensures
            r == self.leg(kind),
    {
        match kind {
            ErrorKind::Temp => (self.gains.kc_w_per_c, self.gains.ti_s),
            ErrorKind::Rpm => (self.gains.kc_w_per_rpm * self.rpm_gain_scale, self.gains.ti_rpm_s),
        }
    }

    /// One tick; returns the new `u`, in watts.
    pub fn step(&mut self, err: LoopError, freeze: Option<Freeze>) -> (r: Num)
        requires
            old(self).wf(),
            holds_exactly(freeze) || old(self).dwell_room(),
        ensures
            *final(self) == old(self).stepped(err, freeze),
            r == final(self).u,
            final(self).wf(),
    {
        proof {
            lemma_budget_stays_in_bounds(*self, err, freeze);
        }
        let kind_switched = match self.last_kind {
            Some(k) => k != err.kind(),
            None => false,
        };
        let leaving_freeze = self.last_freeze.is_some() && freeze.is_none();
        self.last_kind = Some(err.kind());
        self.last_freeze = freeze;
        if kind_switched || leaving_freeze {
            self.resync_error(err.value());
        }
        let demand_limited = match freeze {
            Some(Freeze::DemandLimited) => true,
            Some(_) => {
                self.lower_bound_dwell = 0;
                self.upper_bound_dwell = 0;
                return self.u;
            },
            None => false,
        };

        let e_k = err.value();
        let (kc, ti) = self.gains_for(err.kind());
        let raw_du = kc * (e_k - self.e_prev) + (kc * Num(PI_PERIOD_S) / ti) * e_k;
        let du = if demand_limited && raw_du > Num(ZERO) {
            Num(ZERO)
        } else {
            raw_du
        };
        let back_calc = (Num(PI_PERIOD_S) / ti) * (self.u - self.v);
        let v_new = self.v + du + back_calc;
        let u_new = v_new.clamp(self.lo, self.hi);

        self.lower_bound_dwell = if v_new <= self.lo {
            self.lower_bound_dwell + PI_PERIOD_WHOLE_S
        } else {
            0
        };
        self.upper_bound_dwell = if v_new >= self.hi {
            self.upper_bound_dwell + PI_PERIOD_WHOLE_S
        } else {
            0
        };
        self.v = v_new;
        self.u = u_new;
        self.e_prev = e_k;
        u_new
    }

    /// Seconds for which `u` has been clamped at the lower bound without a
    /// break. Being off that bound ends the run, and so does a tick that
    /// holds the budget exactly: only ticks that ran the clamp count.
    pub fn at_lower_bound_for(&self) -> (r: u64)
        ensures
            r == self.lower_bound_dwell,
    {
        self.lower_bound_dwell
    }

    /// Seconds for which `u` has been clamped at the upper bound.
    pub fn at_upper_bound_for(&self) -> (r: u64)
        ensures
            r == self.upper_bound_dwell,
    {
        self.upper_bound_dwell
    }
}

/// The slope schedule never leaves `[0.25, 1]`.
proof fn lemma_schedule_range(slope: Option<Num>)
    ensures
        Num(RPM_GAIN_SCALE_FLOOR).le(slope_scale(slope)),
        slope_scale(slope).le(Num(ONE)),
{
    reveal(Num::le);
    reveal(Num::lt);
    reveal(Num::within);
    reveal(Num::greater);
    if let Some(s) = slope {
        let wide = s.greater(Num(SLOPE_REF_PCT_PER_C));
        assert(!wide.nan() && wide.magnitude() > 0);
        assert(!Num(SLOPE_REF_PCT_PER_C).over(wide).nan()) by {
            reveal(Num::over);
        }
    }
}

/// A hard freeze holds the budget and the accumulator exactly, so nothing
/// winds up behind it.
pub proof fn lemma_hard_freeze_holds(b: Budget, err: LoopError, freeze: Option<Freeze>)
    requires
        holds_exactly(freeze),
    ensures
        b.stepped(err, freeze).u == b.u,
        b.stepped(err, freeze).v == b.v,
{
}

/// On an error-kind switch, and on leaving a freeze, the tick does not depend
/// on the error before it: there is no proportional kick.
pub proof fn lemma_switch_is_bumpless(b: Budget, err: LoopError, freeze: Option<Freeze>, e: Num)
    requires
        b.jumps(err, freeze),
    ensures
        b.stepped(err, freeze) == (Budget { e_prev: e, ..b }).stepped(err, freeze),
        b.stepped(err, freeze) == (Budget { e_prev: err.amount(), ..b }).stepped(err, freeze),
{
}

/// A difference of a number with itself is zero.
pub proof fn lemma_no_difference(x: Num)
    requires
        x.finite(),
    ensures
        x.minus(x).magnitude() == 0,
{
    reveal(Num::minus);
    reveal(Num::plus);
    assert(x.opposite().value() == -x.value());
}

/// A finite multiple of zero is zero.
pub proof fn lemma_times_nothing(a: Num, z: Num)
    requires
        a.finite(),
        z.magnitude() == 0,
    ensures
        a.times(z).magnitude() == 0,
{
    reveal(Num::times);
    crate::order::lemma_steps_zero(z);
    assert(a.steps() * z.steps() == 0) by (nonlinear_arith)
        requires
            z.steps() == 0,
    ;
    crate::order::lemma_round_exact(Num(ZERO));
    crate::order::lemma_steps_zero(Num(ZERO));
    vstd::arithmetic::power2::lemma_pow2_pos(1074);
    crate::order::lemma_round_cancel(0, crate::num::unit());
}

/// Equal terms have equal sums.
proof fn lemma_plus_same(a: Num, b: Num, c: Num)
    requires
        !b.nan(),
        !c.nan(),
        b.key() == c.key(),
        !a.plus(b).nan(),
        !a.plus(c).nan(),
    ensures
        a.plus(b).key() == a.plus(c).key(),
{
    reveal(Num::le);
    crate::order::lemma_plus_monotone(a, b, c);
    crate::order::lemma_plus_monotone(a, c, b);
}

/// The integral part of an error's increment.
pub open spec fn integral(b: Budget, err: LoopError) -> Num {
    let (kc, ti) = b.leg(err.about());
    kc.times(Num(PI_PERIOD_S)).over(ti).times(err.amount())
}

/// What a limited demand lets through of an increment.
pub open spec fn let_through(du: Num, freeze: Option<Freeze>) -> Num {
    if freeze == Some(Freeze::DemandLimited) && Num(ZERO).lt(du) {
        Num(ZERO)
    } else {
        du
    }
}

/// On an error-kind switch, and on leaving a freeze, an unsaturated budget
/// moves by one integral increment and no more, within its bounds; where the
/// demand is limited, only by one that does not raise it.
pub proof fn lemma_switch_moves_by_the_integral(b: Budget, err: LoopError, freeze: Option<Freeze>)
    requires
        b.jumps(err, freeze),
        !holds_exactly(freeze),
        b.u == b.v,
        b.u.finite(),
        err.amount().finite(),
        b.leg(err.about()).0.finite(),
        Num(PI_PERIOD_S).over(b.leg(err.about()).1).finite(),
        !integral(b, err).nan(),
        b.lo.le(b.hi),
    ensures
        ({
            let moved = b.u.plus(let_through(integral(b, err), freeze));
            let next = b.stepped(err, freeze);
            next.v.same(moved) && next.u.same(moved.within(b.lo, b.hi))
        }),
{
    reveal(Num::same);
    reveal(Num::le);
    reveal(Num::lt);
    reveal(Num::within);
    let noted = b.noted(err, freeze);
    let e = err.amount();
    let (kc, ti) = b.leg(err.about());
    let part = integral(b, err);
    lemma_no_difference(e);
    lemma_times_nothing(kc, e.minus(e));
    let kick = kc.times(e.minus(e));
    crate::order::lemma_plus_zero(part, kick);
    crate::order::lemma_plus_commutes(kick, part);
    assert(noted.increment(err) == kick.plus(part));
    let passed = let_through(part, freeze);
    let du = noted.gated(err, freeze);
    crate::order::lemma_plus_nan(b.u, passed);
    crate::order::lemma_plus_nan(b.u, du);
    lemma_plus_same(b.u, du, passed);
    let first = b.u.plus(du);
    lemma_no_difference(b.u);
    let back = Num(PI_PERIOD_S).over(ti).times(b.u.minus(b.u));
    lemma_times_nothing(Num(PI_PERIOD_S).over(ti), b.u.minus(b.u));
    crate::order::lemma_plus_zero(first, back);
}

/// While the demand is limited an unsaturated budget never rises.
pub proof fn lemma_demand_limit_never_raises(b: Budget, err: LoopError)
    requires
        b.wf(),
        b.u == b.v,
        b.u.finite(),
    ensures
        ({
            let next = b.stepped(err, Some(Freeze::DemandLimited)).u;
            next.nan() || next.le(b.u)
        }),
{
    reveal(Num::le);
    reveal(Num::lt);
    reveal(Num::within);
    let freeze = Some(Freeze::DemandLimited);
    let noted = b.noted(err, freeze);
    let du = noted.gated(err, freeze);
    let ti = noted.leg(err.about()).1;
    let back = Num(PI_PERIOD_S).over(ti).times(b.u.minus(b.v));
    lemma_no_difference(b.u);
    assert(back.nan() || back.magnitude() == 0) by {
        reveal(Num::times);
        let a = Num(PI_PERIOD_S).over(ti);
        if a.finite() {
            lemma_times_nothing(a, b.u.minus(b.v));
        }
    }
    let first = b.v.plus(du);
    crate::order::lemma_plus_nan(b.v, du);
    crate::order::lemma_plus_nan(first, back);
    if !first.nan() && !back.nan() {
        crate::order::lemma_plus_zero(b.v, Num(ZERO));
        crate::order::lemma_plus_monotone(b.v, du, Num(ZERO));
        crate::order::lemma_plus_zero(first, back);
    }
}

/// A limited demand never blocks the way back: an increment that does not
/// raise the budget acts as it does without any freeze, so the condition
/// cannot hold itself in place.
pub proof fn lemma_demand_limit_lets_recover(b: Budget, err: LoopError)
    requires
        !Num(ZERO).lt(b.noted(err, Some(Freeze::DemandLimited)).increment(err)),
        b.last_freeze is None,
    ensures
        ({
            let limited = b.stepped(err, Some(Freeze::DemandLimited));
            limited == (Budget { last_freeze: limited.last_freeze, ..b.stepped(err, None) })
        }),
{
}

/// Every tick leaves the budget within its bounds.
pub proof fn lemma_budget_stays_in_bounds(b: Budget, err: LoopError, freeze: Option<Freeze>)
    requires
        b.wf(),
    ensures
        b.stepped(err, freeze).wf(),
{
    reveal(Num::le);
    reveal(Num::lt);
    reveal(Num::within);
}

/// The warm-start table: the last settled budget by key.
pub type WarmTable = Table<Num>;

/// Warm-start keys and lookups.
pub struct WarmStart;

/// The key of a strategy, a target duty and a power source.
pub open spec fn warm_key(strategy: Seq<char>, duty: u8, on_ac: bool) -> Seq<char> {
    strategy + ":"@ + crate::text::decimal(duty as nat) + ":"@ + if on_ac {
        "ac"@
    } else {
        "batt"@
    }
}

/// Every character of a number in decimal is a digit.
proof fn lemma_digits(n: nat, i: int)
    requires
        0 <= i < crate::text::decimal(n).len(),
    ensures
        crate::text::decimal(n)[i] != ':',
    decreases n,
{
    if n >= 10 {
        let d = crate::text::decimal(n / 10);
        if i < d.len() {
            lemma_digits(n / 10, i);
        }
    }
}

/// Different numbers have different decimals.
proof fn lemma_decimal_injective(a: nat, b: nat)
    requires
        crate::text::decimal(a) == crate::text::decimal(b),
    ensures
        a == b,
    decreases a,
{
    let (da, db) = (crate::text::decimal(a), crate::text::decimal(b));
    assert(da.last() == db.last());
    if a >= 10 && b >= 10 {
        assert(da.drop_last() =~= crate::text::decimal(a / 10));
        assert(db.drop_last() =~= crate::text::decimal(b / 10));
        lemma_decimal_injective(a / 10, b / 10);
    } else if a >= 10 {
        lemma_decimal_nonempty(a / 10);
        assert(da.len() > 1);
    } else if b >= 10 {
        lemma_decimal_nonempty(b / 10);
        assert(db.len() > 1);
    }
}

proof fn lemma_decimal_nonempty(n: nat)
    ensures
        crate::text::decimal(n).len() > 0,
    decreases n,
{
}

/// Changing any of the three inputs changes the key, whatever characters the
/// strategy's name holds.
pub proof fn lemma_warm_keys_are_distinct(
    strategy_a: Seq<char>,
    duty_a: u8,
    ac_a: bool,
    strategy_b: Seq<char>,
    duty_b: u8,
    ac_b: bool,
)
    requires
        warm_key(strategy_a, duty_a, ac_a) == warm_key(strategy_b, duty_b, ac_b),
    ensures
        strategy_a == strategy_b,
        duty_a == duty_b,
        ac_a == ac_b,
{
    reveal_strlit(":");
    reveal_strlit("ac");
    reveal_strlit("batt");
    let (ka, kb) = (warm_key(strategy_a, duty_a, ac_a), warm_key(strategy_b, duty_b, ac_b));
    assert(ka.last() == kb.last());
    assert(ac_a == ac_b);
    let (da, db) = (crate::text::decimal(duty_a as nat), crate::text::decimal(duty_b as nat));
    let tail: int = if ac_a {
        3
    } else {
        5
    };
    let (la, lb) = (strategy_a.len() as int, strategy_b.len() as int);
    assert(ka.len() == la + 1 + da.len() + tail);
    assert(kb.len() == lb + 1 + db.len() + tail);
    assert(ka[la] == ':');
    assert(kb[lb] == ':');
    if la < lb {
        let i = lb - la - 1;
        assert(ka[lb] == da[i]);
        lemma_digits(duty_a as nat, i);
    } else if lb < la {
        let i = la - lb - 1;
        assert(kb[la] == db[i]);
        lemma_digits(duty_b as nat, i);
    }
    assert forall|i: int| 0 <= i < la implies strategy_a[i] == strategy_b[i] by {
        assert(ka[i] == strategy_a[i]);
        assert(kb[i] == strategy_b[i]);
    }
    assert(strategy_a =~= strategy_b);
    assert forall|i: int| 0 <= i < da.len() implies da[i] == db[i] by {
        assert(ka[la + 1 + i] == da[i]);
        assert(kb[la + 1 + i] == db[i]);
    }
    assert(da =~= db);
    lemma_decimal_injective(duty_a as nat, duty_b as nat);
}

impl WarmStart {
    /// `strategy:duty:ac` or `strategy:duty:batt`.
    pub fn key(strategy: &str, duty: u8, on_ac: bool) -> (r: String)
        ensures
            r@ == warm_key(strategy@, duty, on_ac),
    {
        let mut s = strategy.to_string();
        s.append(":");
        crate::text::append_decimal(&mut s, duty as u64);
        s.append(":");
        s.append(if on_ac { "ac" } else { "batt" });
        s
    }

    /// The budget recorded for `key`.
    pub fn lookup(map: &WarmTable, key: &String) -> (r: Option<Num>)
        requires
            map.wf(),
        ensures
            r == (if map@.contains_key(key@) {
                Some(map@[key@])
            } else {
                None
            }),
    {
        map.get(key)
    }

    /// Records the last settled budget for `key`, replacing an earlier one.
    pub fn record(map: &mut WarmTable, key: String, u: Num)
        requires
            old(map).wf(),
        ensures
            final(map).wf(),
            final(map)@ == old(map)@.insert(key@, u),
    {
        map.insert(key, u);
    }
}

} // verus!
