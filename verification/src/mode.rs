//! The mode arbiter.
//!
//! [`Arbiter::decide`] is called once per allocator tick and picks the loop
//! that owns actuation. It scores the embedded controller against the fan
//! daemon's view, judges whether the target can be reached, and re-derives
//! the target temperature when the curve or the duty changes.
//!
//! Entry into the temperature loop takes three good ticks in a row; leaving
//! takes one bad one ([`lemma_temp_loop_is_earned`]). Reconciliation is a
//! gate of its own and not part of that streak, so a cleared mismatch lets
//! the loop back in on the same tick.
use crate::num::{Num, ZERO};
use crate::status::StatusFlag;
use crate::types::{EcReading, EcSensor, FanctrlView, Freshness};
use vstd::prelude::*;

verus! {

/// Good ticks in a row before the temperature loop is entered.
pub const ENTRY_HYSTERESIS_TICKS: u32 = 3;

/// Scored views in a row that latch a mismatch, or clear it.
pub const MISMATCH_STRIKES: u8 = 3;

/// 1: a larger difference from the view is a mismatch, °C.
pub const MISMATCH_ABS_DIFF_C: u64 = 0x3ff0_0000_0000_0000;

/// 2: a larger difference of the moving averages fails their check, °C.
pub const MA_ABS_DIFF_C: u64 = 0x4000_0000_0000_0000;

/// 0.5: a view is skipped at this slope, °C/s.
pub const SKIP_SLOPE_C_PER_S: u64 = 0x3fe0_0000_0000_0000;

/// 2: a view is skipped at this age, s.
pub const SKIP_GAP_S: u64 = 0x4000_0000_0000_0000;

/// Ticks in a row before an uncontrollable hottest sensor counts.
pub const ARGMAX_DEBOUNCE_TICKS: u8 = 3;

/// 1: an uncontrollable sensor that leads by more counts at once, °C.
pub const ARGMAX_LEAD_C: u64 = 0x3ff0_0000_0000_0000;

/// 5: how far the target must lie above every uncontrollable sensor, °C.
pub const FEASIBLE_MARGIN_C: u64 = 0x4014_0000_0000_0000;

/// 2: a steeper curve is reported, %/°C.
pub const STEEP_SLOPE_PCT_PER_C: u64 = 0x4000_0000_0000_0000;

/// Feasible ticks in a row that clear an infeasible target.
pub const FEASIBLE_CLEAR_TICKS: u32 = 12;

/// Seconds at a bound before the target counts as unreachable.
pub const BOUND_HOLD_S: u64 = 60;

/// Minus infinity: the hottest of no sensors.
pub const NO_READING: u64 = 0xfff0_0000_0000_0000;

/// Which loop owns actuation.
#[derive(Clone, Copy, Debug, PartialEq, Eq, Structural)]
pub enum LoopMode {
    /// Temperature.
    TempLoop,
    /// Fan speed.
    RpmLoop,
    /// Neither; released to stock.
    Released,
}

/// Why a tick was decided as it was.
#[derive(Clone, Copy, Debug, PartialEq)]
pub enum Reason {
    /// The curve is invalid.
    CurveInvalid,
    /// The target duty is below the lowest tread.
    BelowFloor { duty: u8, floor: u8 },
    /// The target temperature is too close to the hottest uncontrollable
    /// sensor.
    TooCold { t_star: Num, ambient: Num },
    /// Held at the lower bound for this many seconds.
    HeldAtFloor { secs: u64 },
    /// Held at the upper bound for this many seconds.
    HeldAtCeiling { secs: u64 },
    /// The fan daemon's view is not fresh.
    FanctrlLost,
    /// The fan daemon is not active.
    FanctrlInactive,
    /// There is no embedded-controller reading.
    EcInvalid,
    /// The hottest sensor is one the loops cannot move.
    ArgmaxUncontrollable,
    /// The target cannot be held.
    Infeasible,
    /// No view has been scored yet.
    Unreconciled,
    /// A mismatch is latched.
    EcMismatch,
}

/// The tread of a curve that a duty resolves to.
#[derive(Clone, Copy, Debug)]
pub struct Tread {
    /// Its centre, °C.
    pub t_star: Num,
    /// The slope there, %/°C.
    pub slope: Num,
}

/// What a valid curve says of a target duty.
#[derive(Clone, Copy, Debug)]
pub struct CurveFacts {
    /// There is a tread at or below the duty.
    pub has_tread: bool,
    /// The nearest such tread, if it has a centre.
    pub tread: Option<Tread>,
    /// The duty of the lowest tread.
    pub min_tread_duty: u8,
}

/// What the arbiter sees in one tick.
pub struct ArbiterInput<'a> {
    pub fanctrl: Option<&'a FanctrlView>,
    pub freshness: Freshness,
    /// The view is new in this tick.
    pub view_changed: bool,
    pub ec: Option<&'a EcReading>,
    /// The local moving average, °C.
    pub ec_ma: Option<Num>,
    pub fan_valid: bool,
    pub target_duty: u8,
    /// Seconds at the lower bound.
    pub at_lower_bound_for: u64,
    /// Seconds at the upper bound.
    pub at_upper_bound_for: u64,
    /// Positive asks for more heat.
    pub error_sign: Num,
    /// False if the view's points make no curve.
    pub curve_valid: bool,
    /// What the view's curve says of the target duty; nothing if its points
    /// make no curve.
    pub resolved: Option<CurveFacts>,
    /// Slope of the replica over the last 5 s, °C/s.
    pub replica_slope_5s_c_per_s: Num,
    /// Age of the view when the sample was taken, s.
    pub view_to_sample_gap_s: Num,
}

/// The verdict of one tick.
pub struct Decision {
    pub mode: LoopMode,
    /// The target temperature, if a curve and its tread resolve.
    pub t_star: Option<Num>,
    /// The slope there.
    pub slope: Option<Num>,
    pub reasons: Vec<Reason>,
    pub flags: Vec<StatusFlag>,
    /// The moving average is to be seeded again from this value.
    pub reseed_ma: Option<Num>,
    pub ec_mismatch: bool,
    /// The target was derived anew in this tick.
    pub t_star_changed: bool,
}

/// The counters and latches.
#[derive(Clone, Copy, Debug, PartialEq, Eq, Structural)]
pub struct ArbiterState {
    pub entry_streak: u32,
    pub reconciled: bool,
    pub ec_mismatch: bool,
    pub mismatch_streak: u8,
    pub match_streak: u8,
    pub ma_fail_streak: u8,
    pub infeasible_latched: bool,
    pub feasible_streak: u32,
    pub argmax_fail_streak: u8,
    /// The cached points made a curve.
    pub has_curve: bool,
    pub cached_target_duty: Option<u8>,
}

/// The arbiter of one session.
pub struct Arbiter {
    pub state: ArbiterState,
    pub cached_points: Vec<(Num, u8)>,
}

/// One more, held at the largest count.
pub open spec fn more8(n: u8) -> u8 {
    if n == u8::MAX {
        n
    } else {
        (n + 1) as u8
    }
}

/// One more, held at the largest count.
pub open spec fn more32(n: u32) -> u32 {
    if n == u32::MAX {
        n
    } else {
        (n + 1) as u32
    }
}

fn count8(n: u8) -> (r: u8)
    ensures
        r == more8(n),
{
    if n == u8::MAX {
        n
    } else {
        n + 1
    }
}

fn count32(n: u32) -> (r: u32)
    ensures
        r == more32(n),
{
    if n == u32::MAX {
        n
    } else {
        n + 1
    }
}

/// Two lists of points are numerically equal.
pub open spec fn same_points(a: Seq<(Num, u8)>, b: Seq<(Num, u8)>) -> bool {
    &&& a.len() == b.len()
    &&& forall|i: int| 0 <= i < a.len() ==> (#[trigger] a[i]).0.same(b[i].0) && a[i].1 == b[i].1
}

fn equal_points(a: &Vec<(Num, u8)>, b: &Vec<(Num, u8)>) -> (r: bool)
    ensures
        r == same_points(a@, b@),
{
    if a.len() != b.len() {
        return false;
    }
    let mut i: usize = 0;
    while i < a.len()
        invariant
            i <= a@.len() == b@.len(),
            forall|j: int| 0 <= j < i ==> (#[trigger] a@[j]).0.same(b@[j].0) && a@[j].1 == b@[j].1,
        decreases a@.len() - i,
    {
        let (x, y) = (a[i], b[i]);
        if !(x.0 == y.0) || x.1 != y.1 {
            assert(!(a@[i as int].0.same(b@[i as int].0) && a@[i as int].1 == b@[i as int].1));
            return false;
        }
        i += 1;
    }
    true
}

/// The hottest sensor of a kind.
pub open spec fn hottest(all: Seq<EcSensor>, controllable: bool) -> Num
    decreases all.len(),
{
    if all.len() == 0 {
        Num(NO_READING)
    } else if all.last().group.controllable() == controllable {
        hottest(all.drop_last(), controllable).greater(all.last().c)
    } else {
        hottest(all.drop_last(), controllable)
    }
}

fn hottest_of(all: &Vec<EcSensor>, controllable: bool) -> (r: Num)
    ensures
        r == hottest(all@, controllable),
{
    let mut best = Num(NO_READING);
    let mut i: usize = 0;
    while i < all.len()
        invariant
            i <= all@.len(),
            best == hottest(all@.take(i as int), controllable),
        decreases all@.len() - i,
    {
        proof {
            let next = all@.take(i + 1);
            assert(next.drop_last() =~= all@.take(i as int));
            assert(next.last() == all@[i as int]);
        }
        let sensor = &all[i];
        if sensor.group.is_controllable() == controllable {
            best = best.max(sensor.c);
        }
        i += 1;
    }
    assert(all@.take(all@.len() as int) =~= all@);
    best
}

/// The view of this tick is new, fair and comparable.
pub open spec fn scorable(i: ArbiterInput<'_>) -> bool {
    &&& i.view_changed
    &&& i.fanctrl is Some
    &&& i.ec is Some
    &&& i.replica_slope_5s_c_per_s.lt(Num(SKIP_SLOPE_C_PER_S))
    &&& i.view_to_sample_gap_s.lt(Num(SKIP_GAP_S))
}

/// The view's temperature lies away from the embedded controller's.
pub open spec fn mismatched(i: ArbiterInput<'_>) -> bool {
    Num(MISMATCH_ABS_DIFF_C).lt(i.ec->0.max_c.minus(i.fanctrl->0.temperature).size())
}

/// The moving averages lie apart.
pub open spec fn averages_differ(i: ArbiterInput<'_>) -> bool {
    i.ec_ma matches Some(ma) && Num(MA_ABS_DIFF_C).lt(
        ma.minus(i.fanctrl->0.ma_temperature).size(),
    )
}

/// The target cannot be told from the heat around it.
pub open spec fn too_cold(t_star: Num, ec: EcReading) -> bool {
    !hottest(ec.all@, false).plus(Num(FEASIBLE_MARGIN_C)).le(t_star)
}

/// One entry if the condition holds.
pub open spec fn when<T>(c: bool, x: T) -> Seq<T> {
    if c {
        seq![x]
    } else {
        Seq::empty()
    }
}

/// Without repetitions in a row.
pub open spec fn without_repeats(s: Seq<StatusFlag>) -> Seq<StatusFlag>
    decreases s.len(),
{
    if s.len() <= 1 {
        s
    } else if s[s.len() - 1] == s[s.len() - 2] {
        without_repeats(s.drop_last())
    } else {
        without_repeats(s.drop_last()).push(s.last())
    }
}

impl ArbiterState {
    /// After a view has been scored.
    pub open spec fn scored(self, i: ArbiterInput<'_>) -> ArbiterState {
        if !scorable(i) {
            self
        } else {
            let misses: u8 = if mismatched(i) {
                more8(self.mismatch_streak)
            } else {
                0
            };
            let matches: u8 = if mismatched(i) {
                0
            } else {
                more8(self.match_streak)
            };
            let latched = self.ec_mismatch || misses >= MISMATCH_STRIKES;
            let clears = latched && matches >= MISMATCH_STRIKES;
            let ma_fails: u8 = if i.ec_ma is None {
                self.ma_fail_streak
            } else if averages_differ(i) && more8(self.ma_fail_streak) < MISMATCH_STRIKES {
                more8(self.ma_fail_streak)
            } else {
                0
            };
            ArbiterState {
                reconciled: true,
                ec_mismatch: latched && !clears,
                mismatch_streak: misses,
                match_streak: if clears {
                    0
                } else {
                    matches
                },
                ma_fail_streak: ma_fails,
                ..self
            }
        }
    }

    /// The moving average that scoring asks for: when a mismatch clears, and
    /// when the averages have differed three times in a row.
    pub open spec fn reseeds(self, i: ArbiterInput<'_>) -> Option<Num> {
        let clears = scorable(i) && !mismatched(i) && self.ec_mismatch && more8(
            self.match_streak,
        ) >= MISMATCH_STRIKES;
        let drifts = scorable(i) && averages_differ(i) && more8(self.ma_fail_streak)
            >= MISMATCH_STRIKES;
        if clears || drifts {
            Some(i.fanctrl->0.ma_temperature)
        } else {
            None
        }
    }

    /// A curve is in force in this tick.
    pub open spec fn curve_in_force(i: ArbiterInput<'_>) -> bool {
        i.curve_valid && i.fanctrl is Some && i.resolved is Some
    }

    /// The points differ from the cached ones.
    pub open spec fn points_change(cached: Seq<(Num, u8)>, i: ArbiterInput<'_>) -> bool {
        i.fanctrl is Some && !same_points(i.fanctrl->0.curve@, cached)
    }

    /// The target is derived anew: the curve became invalid, its points
    /// changed, or the duty did.
    pub open spec fn rederives(self, cached: Seq<(Num, u8)>, i: ArbiterInput<'_>) -> bool {
        if !i.curve_valid {
            self.has_curve
        } else {
            ArbiterState::curve_in_force(i) && (ArbiterState::points_change(cached, i)
                || self.cached_target_duty != Some(i.target_duty))
        }
    }

    /// After the curve has been looked at.
    pub open spec fn curved(self, cached: Seq<(Num, u8)>, i: ArbiterInput<'_>) -> ArbiterState {
        if !i.curve_valid {
            ArbiterState { has_curve: false, cached_target_duty: None, ..self }
        } else if i.fanctrl is None {
            self
        } else {
            ArbiterState {
                has_curve: i.resolved is Some,
                cached_target_duty: if self.rederives(cached, i) {
                    Some(i.target_duty)
                } else {
                    self.cached_target_duty
                },
                ..self
            }
        }
    }

    /// The points that are cached afterwards.
    pub open spec fn points_after(self, cached: Seq<(Num, u8)>, i: ArbiterInput<'_>) -> Seq<(Num, u8)> {
        if !i.curve_valid {
            Seq::empty()
        } else if ArbiterState::curve_in_force(i) && (ArbiterState::points_change(cached, i)
            || !self.has_curve) {
            i.fanctrl->0.curve@
        } else {
            cached
        }
    }

    /// The tread of this tick.
    pub open spec fn tread(i: ArbiterInput<'_>) -> Option<Tread> {
        if ArbiterState::curve_in_force(i) && i.resolved->0.has_tread {
            i.resolved->0.tread
        } else {
            None
        }
    }

    /// The target duty is below the curve's lowest tread.
    pub open spec fn below_floor(i: ArbiterInput<'_>) -> bool {
        ArbiterState::curve_in_force(i) && !i.resolved->0.has_tread
    }

    /// After feasibility has been judged.
    pub open spec fn judged(self, i: ArbiterInput<'_>) -> ArbiterState {
        match (ArbiterState::tread(i), i.ec) {
            (Some(tread), Some(ec)) => if too_cold(tread.t_star, *ec) {
                ArbiterState { infeasible_latched: true, feasible_streak: 0, ..self }
            } else {
                ArbiterState {
                    feasible_streak: more32(self.feasible_streak),
                    infeasible_latched: self.infeasible_latched && more32(self.feasible_streak)
                        < FEASIBLE_CLEAR_TICKS,
                    ..self
                }
            },
            _ => self,
        }
    }

    /// An uncontrollable sensor leads clearly.
    pub open spec fn leads(i: ArbiterInput<'_>) -> bool {
        i.ec matches Some(ec) && !ec.argmax_group.controllable() && Num(ARGMAX_LEAD_C).lt(
            ec.max_c.minus(hottest(ec.all@, true)),
        )
    }

    /// After the hottest sensor has been looked at.
    pub open spec fn debounced(self, i: ArbiterInput<'_>) -> ArbiterState {
        match i.ec {
            Some(ec) => if ec.argmax_group.controllable() {
                ArbiterState { argmax_fail_streak: 0, ..self }
            } else if ArbiterState::leads(i) {
                self
            } else {
                ArbiterState { argmax_fail_streak: more8(self.argmax_fail_streak), ..self }
            },
            None => self,
        }
    }

    /// The hottest sensor is no reason to leave the temperature loop; `self`
    /// has already been debounced.
    pub open spec fn argmax_ok(self, i: ArbiterInput<'_>) -> bool {
        match i.ec {
            Some(ec) => ec.argmax_group.controllable() || (!ArbiterState::leads(i)
                && self.argmax_fail_streak < ARGMAX_DEBOUNCE_TICKS),
            None => true,
        }
    }

    /// The inputs that the temperature loop cannot do without.
    pub open spec fn hard_ok(i: ArbiterInput<'_>) -> bool {
        &&& i.freshness == Freshness::Fresh
        &&& i.fanctrl is Some && i.fanctrl->0.active
        &&& i.ec is Some
        &&& i.curve_valid
    }

    /// The target can be held; `self` has already been judged.
    pub open spec fn feasible_ok(self, i: ArbiterInput<'_>) -> bool {
        ArbiterState::tread(i) is Some && !self.infeasible_latched && !ArbiterState::below_floor(i)
    }

    /// A good tick.
    pub open spec fn core_ok(self, i: ArbiterInput<'_>) -> bool {
        ArbiterState::hard_ok(i) && self.argmax_ok(i) && self.feasible_ok(i)
    }

    /// After everything but the streak.
    pub open spec fn weighed(self, cached: Seq<(Num, u8)>, i: ArbiterInput<'_>) -> ArbiterState {
        self.scored(i).curved(cached, i).judged(i).debounced(i)
    }

    /// The state after a tick.
    pub open spec fn after(self, cached: Seq<(Num, u8)>, i: ArbiterInput<'_>) -> ArbiterState {
        let s = self.weighed(cached, i);
        ArbiterState {
            entry_streak: if s.core_ok(i) {
                more32(s.entry_streak)
            } else {
                0
            },
            ..s
        }
    }

    /// The loop that a state after a tick selects.
    pub open spec fn selects(self, i: ArbiterInput<'_>) -> LoopMode {
        if self.entry_streak >= ENTRY_HYSTERESIS_TICKS && self.reconciled && !self.ec_mismatch {
            LoopMode::TempLoop
        } else if i.fan_valid {
            LoopMode::RpmLoop
        } else {
            LoopMode::Released
        }
    }

    /// Why the temperature loop is not in force, if there is a reason.
    pub open spec fn row_reason(self, i: ArbiterInput<'_>) -> Option<Reason> {
        if self.selects(i) == LoopMode::TempLoop {
            None
        } else if i.freshness != Freshness::Fresh {
            Some(Reason::FanctrlLost)
        } else if !(i.fanctrl is Some && i.fanctrl->0.active) {
            Some(Reason::FanctrlInactive)
        } else if i.ec is None {
            Some(Reason::EcInvalid)
        } else if !self.argmax_ok(i) {
            Some(Reason::ArgmaxUncontrollable)
        } else if !self.feasible_ok(i) && i.curve_valid {
            Some(Reason::Infeasible)
        } else if !self.reconciled {
            Some(Reason::Unreconciled)
        } else if self.ec_mismatch {
            Some(Reason::EcMismatch)
        } else {
            None
        }
    }

    /// The target is reported as infeasible.
    pub open spec fn reports_cold(self, i: ArbiterInput<'_>) -> bool {
        ArbiterState::tread(i) is Some && i.ec is Some && self.infeasible_latched
    }

    /// The lower bound has been held too long.
    pub open spec fn held_low(i: ArbiterInput<'_>) -> bool {
        i.at_lower_bound_for >= BOUND_HOLD_S && i.error_sign.lt(Num(ZERO))
    }

    /// The upper bound has been held too long.
    pub open spec fn held_high(i: ArbiterInput<'_>) -> bool {
        i.at_upper_bound_for >= BOUND_HOLD_S && Num(ZERO).lt(i.error_sign)
    }

    /// The curve is steep at the target.
    pub open spec fn steep(i: ArbiterInput<'_>) -> bool {
        ArbiterState::tread(i) matches Some(tread) && Num(STEEP_SLOPE_PCT_PER_C).lt(tread.slope)
    }

    /// The flags of a tick, in the order in which they are raised.
    pub open spec fn raised(self, i: ArbiterInput<'_>) -> Seq<StatusFlag> {
        when(self.ec_mismatch, StatusFlag::EcMismatch) + when(
            !i.curve_valid,
            StatusFlag::CurveInvalid,
        ) + when(ArbiterState::below_floor(i), StatusFlag::TargetUnreachable) + when(
            ArbiterState::steep(i),
            StatusFlag::SteepCurve,
        ) + when(self.reports_cold(i), StatusFlag::TargetUnreachable) + when(
            ArbiterState::held_low(i),
            StatusFlag::TargetUnreachable,
        ) + when(ArbiterState::held_high(i), StatusFlag::TargetUnreachable) + when(
            i.freshness != Freshness::Fresh,
            StatusFlag::FanctrlLost,
        ) + when(self.selects(i) == LoopMode::Released, StatusFlag::SensorLost)
    }

    /// The reasons of a tick, in the order in which they are found.
    pub open spec fn explains(self, i: ArbiterInput<'_>) -> Seq<Reason> {
        when(!i.curve_valid, Reason::CurveInvalid) + when(
            ArbiterState::below_floor(i),
            Reason::BelowFloor { duty: i.target_duty, floor: i.resolved->0.min_tread_duty },
        ) + when(
            self.reports_cold(i),
            Reason::TooCold {
                t_star: ArbiterState::tread(i)->0.t_star,
                ambient: hottest(i.ec->0.all@, false),
            },
        ) + when(
            ArbiterState::held_low(i),
            Reason::HeldAtFloor { secs: i.at_lower_bound_for },
        ) + when(
            ArbiterState::held_high(i),
            Reason::HeldAtCeiling { secs: i.at_upper_bound_for },
        ) + match self.row_reason(i) {
            Some(reason) => seq![reason],
            None => Seq::empty(),
        }
    }

    fn score(self, i: &ArbiterInput<'_>) -> (r: (ArbiterState, Option<Num>))
        ensures
            r.0 == self.scored(*i),
            r.1 == self.reseeds(*i),
    {
        let (view, ec) = match (i.fanctrl, i.ec) {
            (Some(view), Some(ec)) => (view, ec),
            _ => {
                return (self, None);
            },
        };
        if !i.view_changed || !(i.replica_slope_5s_c_per_s < Num(SKIP_SLOPE_C_PER_S)) || !(
        i.view_to_sample_gap_s < Num(SKIP_GAP_S)) {
            return (self, None);
        }
        let differs = (ec.max_c - view.temperature).abs() > Num(MISMATCH_ABS_DIFF_C);
        let (misses, matches): (u8, u8) = if differs {
            (count8(self.mismatch_streak), 0)
        } else {
            (0, count8(self.match_streak))
        };
        let latched = self.ec_mismatch || misses >= MISMATCH_STRIKES;
        let clears = latched && matches >= MISMATCH_STRIKES;
        let (ma_fails, drifts): (u8, bool) = match i.ec_ma {
            Some(ec_ma) => {
                if (ec_ma - view.ma_temperature).abs() > Num(MA_ABS_DIFF_C) {
                    let fails: u8 = count8(self.ma_fail_streak);
                    if fails >= MISMATCH_STRIKES {
                        (0, true)
                    } else {
                        (fails, false)
                    }
                } else {
                    (0, false)
                }
            },
            None => (self.ma_fail_streak, false),
        };
        let state = ArbiterState {
            reconciled: true,
            ec_mismatch: latched && !clears,
            mismatch_streak: misses,
            match_streak: if clears {
                0
            } else {
                matches
            },
            ma_fail_streak: ma_fails,
            ..self
        };
        let reseed_ma = if clears || drifts {
            Some(view.ma_temperature)
        } else {
            None
        };
        (state, reseed_ma)
    }

    fn judge(self, i: &ArbiterInput<'_>, tread: Option<Tread>) -> (r: ArbiterState)
        requires
            tread == ArbiterState::tread(*i),
        ensures
            r == self.judged(*i),
    {
        match (tread, i.ec) {
            (Some(tread), Some(ec)) => {
                let bar = hottest_of(&ec.all, false) + Num(FEASIBLE_MARGIN_C);
                if tread.t_star >= bar {
                    let streak: u32 = count32(self.feasible_streak);
                    ArbiterState {
                        feasible_streak: streak,
                        infeasible_latched: self.infeasible_latched && streak
                            < FEASIBLE_CLEAR_TICKS,
                        ..self
                    }
                } else {
                    ArbiterState { infeasible_latched: true, feasible_streak: 0, ..self }
                }
            },
            _ => self,
        }
    }

    /// Looks at the hottest sensor; also returns whether it is no reason to
    /// leave the temperature loop.
    fn debounce(self, i: &ArbiterInput<'_>) -> (r: (ArbiterState, bool))
        ensures
            r.0 == self.debounced(*i),
            r.1 == r.0.argmax_ok(*i),
    {
        match i.ec {
            Some(ec) => {
                if ec.argmax_group.is_controllable() {
                    return (ArbiterState { argmax_fail_streak: 0, ..self }, true);
                }
                let lead = ec.max_c - hottest_of(&ec.all, true);
                if lead > Num(ARGMAX_LEAD_C) {
                    return (self, false);
                }
                let streak: u8 = count8(self.argmax_fail_streak);
                (
                    ArbiterState { argmax_fail_streak: streak, ..self },
                    streak < ARGMAX_DEBOUNCE_TICKS,
                )
            },
            None => (self, true),
        }
    }

    fn select(self, i: &ArbiterInput<'_>) -> (r: LoopMode)
        ensures
            r == self.selects(*i),
    {
        if self.entry_streak >= ENTRY_HYSTERESIS_TICKS && self.reconciled && !self.ec_mismatch {
            LoopMode::TempLoop
        } else if i.fan_valid {
            LoopMode::RpmLoop
        } else {
            LoopMode::Released
        }
    }

    fn row(self, i: &ArbiterInput<'_>, argmax_ok: bool, feasible_ok: bool) -> (r: Option<Reason>)
        requires
            argmax_ok == self.argmax_ok(*i),
            feasible_ok == self.feasible_ok(*i),
        ensures
            r == self.row_reason(*i),
    {
        let active = match i.fanctrl {
            Some(view) => view.active,
            None => false,
        };
        if self.select(i) == LoopMode::TempLoop {
            None
        } else if i.freshness != Freshness::Fresh {
            Some(Reason::FanctrlLost)
        } else if !active {
            Some(Reason::FanctrlInactive)
        } else if i.ec.is_none() {
            Some(Reason::EcInvalid)
        } else if !argmax_ok {
            Some(Reason::ArgmaxUncontrollable)
        } else if !feasible_ok && i.curve_valid {
            Some(Reason::Infeasible)
        } else if !self.reconciled {
            Some(Reason::Unreconciled)
        } else if self.ec_mismatch {
            Some(Reason::EcMismatch)
        } else {
            None
        }
    }

    fn raise(self, i: &ArbiterInput<'_>, tread: Option<Tread>, below_floor: bool) -> (r: Vec<StatusFlag>)
        requires
            tread == ArbiterState::tread(*i),
            below_floor == ArbiterState::below_floor(*i),
        ensures
            r@ == without_repeats(self.raised(*i)),
    {
        let mut flags: Vec<StatusFlag> = Vec::new();
        let ghost mut all: Seq<StatusFlag> = Seq::empty();
        assert(flags@ =~= without_repeats(all));
        let steep = match tread {
            Some(tread) => tread.slope > Num(STEEP_SLOPE_PCT_PER_C),
            None => false,
        };
        let cold = tread.is_some() && i.ec.is_some() && self.infeasible_latched;
        let low = i.at_lower_bound_for >= BOUND_HOLD_S && i.error_sign < Num(ZERO);
        let high = i.at_upper_bound_for >= BOUND_HOLD_S && i.error_sign > Num(ZERO);
        let lost = i.freshness != Freshness::Fresh;
        let released = self.select(i) == LoopMode::Released;
        note(&mut flags, self.ec_mismatch, StatusFlag::EcMismatch, Ghost(all));
        proof {
            all = all + when(self.ec_mismatch, StatusFlag::EcMismatch);
        }
        note(&mut flags, !i.curve_valid, StatusFlag::CurveInvalid, Ghost(all));
        proof {
            all = all + when(!i.curve_valid, StatusFlag::CurveInvalid);
        }
        note(&mut flags, below_floor, StatusFlag::TargetUnreachable, Ghost(all));
        proof {
            all = all + when(below_floor, StatusFlag::TargetUnreachable);
        }
        note(&mut flags, steep, StatusFlag::SteepCurve, Ghost(all));
        proof {
            all = all + when(steep, StatusFlag::SteepCurve);
        }
        note(&mut flags, cold, StatusFlag::TargetUnreachable, Ghost(all));
        proof {
            all = all + when(cold, StatusFlag::TargetUnreachable);
        }
        note(&mut flags, low, StatusFlag::TargetUnreachable, Ghost(all));
        proof {
            all = all + when(low, StatusFlag::TargetUnreachable);
        }
        note(&mut flags, high, StatusFlag::TargetUnreachable, Ghost(all));
        proof {
            all = all + when(high, StatusFlag::TargetUnreachable);
        }
        note(&mut flags, lost, StatusFlag::FanctrlLost, Ghost(all));
        proof {
            all = all + when(lost, StatusFlag::FanctrlLost);
        }
        note(&mut flags, released, StatusFlag::SensorLost, Ghost(all));
        proof {
            all = all + when(released, StatusFlag::SensorLost);
            assert(Seq::<StatusFlag>::empty() + when(self.ec_mismatch, StatusFlag::EcMismatch)
                =~= when(self.ec_mismatch, StatusFlag::EcMismatch));
            assert(all =~= self.raised(*i));
        }
        flags
    }

    fn explain(
        self,
        i: &ArbiterInput<'_>,
        tread: Option<Tread>,
        below_floor: bool,
        row: Option<Reason>,
    ) -> (r: Vec<Reason>)
        requires
            tread == ArbiterState::tread(*i),
            below_floor == ArbiterState::below_floor(*i),
            row == self.row_reason(*i),
        ensures
            r@ == self.explains(*i),
    {
        let mut reasons: Vec<Reason> = Vec::new();
        if !i.curve_valid {
            reasons.push(Reason::CurveInvalid);
        }
        let ghost a = when(!i.curve_valid, Reason::CurveInvalid);
        assert(reasons@ =~= a);
        if below_floor {
            if let Some(facts) = i.resolved {
                reasons.push(
                    Reason::BelowFloor { duty: i.target_duty, floor: facts.min_tread_duty },
                );
            }
        }
        let ghost b = a + when(
            below_floor,
            Reason::BelowFloor { duty: i.target_duty, floor: i.resolved->0.min_tread_duty },
        );
        assert(reasons@ =~= b);
        if self.infeasible_latched {
            if let (Some(tread), Some(ec)) = (tread, i.ec) {
                reasons.push(
                    Reason::TooCold { t_star: tread.t_star, ambient: hottest_of(&ec.all, false) },
                );
            }
        }
        let ghost c = b + when(
            self.reports_cold(*i),
            Reason::TooCold {
                t_star: ArbiterState::tread(*i)->0.t_star,
                ambient: hottest(i.ec->0.all@, false),
            },
        );
        assert(reasons@ =~= c);
        if i.at_lower_bound_for >= BOUND_HOLD_S && i.error_sign < Num(ZERO) {
            reasons.push(Reason::HeldAtFloor { secs: i.at_lower_bound_for });
        }
        let ghost d = c + when(
            ArbiterState::held_low(*i),
            Reason::HeldAtFloor { secs: i.at_lower_bound_for },
        );
        assert(reasons@ =~= d);
        if i.at_upper_bound_for >= BOUND_HOLD_S && i.error_sign > Num(ZERO) {
            reasons.push(Reason::HeldAtCeiling { secs: i.at_upper_bound_for });
        }
        let ghost e = d + when(
            ArbiterState::held_high(*i),
            Reason::HeldAtCeiling { secs: i.at_upper_bound_for },
        );
        assert(reasons@ =~= e);
        if let Some(reason) = row {
            reasons.push(reason);
        }
        assert(reasons@ =~= self.explains(*i));
        reasons
    }
}

/// Raises a flag if the condition holds, unless it was just raised.
fn note(flags: &mut Vec<StatusFlag>, c: bool, flag: StatusFlag, Ghost(all): Ghost<Seq<StatusFlag>>)
    requires
        old(flags)@ == without_repeats(all),
    ensures
        final(flags)@ == without_repeats(all + when(c, flag)),
{
    proof {
        lemma_last_survives(all);
        assert(all + Seq::<StatusFlag>::empty() =~= all);
        assert(all + seq![flag] =~= all.push(flag));
        assert(all.push(flag).drop_last() =~= all);
    }
    if c {
        let n: usize = flags.len();
        if n == 0 || flags[n - 1] != flag {
            flags.push(flag);
            assert(flags@ =~= without_repeats(all.push(flag)));
        }
    }
}

proof fn lemma_last_survives(s: Seq<StatusFlag>)
    ensures
        s.len() > 0 ==> without_repeats(s).len() > 0 && without_repeats(s).last() == s.last(),
        s.len() == 0 ==> without_repeats(s).len() == 0,
    decreases s.len(),
{
    if s.len() > 1 {
        lemma_last_survives(s.drop_last());
    }
}

impl Default for Arbiter {
    fn default() -> (r: Arbiter)
        ensures
            r.state == new_state(),
            r.cached_points@.len() == 0,
    {
        Arbiter::new()
    }
}

/// The state of a new session.
pub open spec fn new_state() -> ArbiterState {
    ArbiterState {
        entry_streak: 0,
        reconciled: false,
        ec_mismatch: false,
        mismatch_streak: 0,
        match_streak: 0,
        ma_fail_streak: 0,
        infeasible_latched: false,
        feasible_streak: 0,
        argmax_fail_streak: 0,
        has_curve: false,
        cached_target_duty: None,
    }
}

impl Arbiter {
    /// The arbiter of a new session.
    pub fn new() -> (r: Arbiter)
        ensures
            r.state == new_state(),
            r.cached_points@.len() == 0,
    {
        Arbiter {
            state: ArbiterState {
                entry_streak: 0,
                reconciled: false,
                ec_mismatch: false,
                mismatch_streak: 0,
                match_streak: 0,
                ma_fail_streak: 0,
                infeasible_latched: false,
                feasible_streak: 0,
                argmax_fail_streak: 0,
                has_curve: false,
                cached_target_duty: None,
            },
            cached_points: Vec::new(),
        }
    }

    /// Looks at the curve; returns whether the target was derived anew.
    fn note_curve(&mut self, input: &ArbiterInput<'_>) -> (r: bool)
        ensures
            final(self).state == old(self).state.curved(old(self).cached_points@, *input),
            final(self).cached_points@ == old(self).state.points_after(
                old(self).cached_points@,
                *input,
            ),
            r == old(self).state.rederives(old(self).cached_points@, *input),
    {
        if !input.curve_valid {
            let had = self.state.has_curve;
            self.state = ArbiterState { has_curve: false, cached_target_duty: None, ..self.state };
            self.cached_points = Vec::new();
            return had;
        }
        let view = match input.fanctrl {
            Some(view) => view,
            None => {
                return false;
            },
        };
        let points_changed = !equal_points(&view.curve, &self.cached_points);
        let resolved = input.resolved.is_some();
        if resolved && (points_changed || !self.state.has_curve) {
            self.cached_points = copy_points(&view.curve);
        }
        let duty_changed = match self.state.cached_target_duty {
            Some(duty) => duty != input.target_duty,
            None => true,
        };
        let rederived = resolved && (points_changed || duty_changed);
        self.state =
        ArbiterState {
            has_curve: resolved,
            cached_target_duty: if rederived {
                Some(input.target_duty)
            } else {
                self.state.cached_target_duty
            },
            ..self.state
        };
        rederived
    }

    /// One tick.
    pub fn decide(&mut self, input: &ArbiterInput<'_>) -> (r: Decision)
        ensures
            final(self).state == old(self).state.after(old(self).cached_points@, *input),
            final(self).cached_points@ == old(self).state.points_after(
                old(self).cached_points@,
                *input,
            ),
            r.mode == final(self).state.selects(*input),
            r.t_star == (match ArbiterState::tread(*input) {
                Some(tread) => Some(tread.t_star),
                None => None,
            }),
            r.slope == (match ArbiterState::tread(*input) {
                Some(tread) => Some(tread.slope),
                None => None,
            }),
            r.reasons@ == final(self).state.explains(*input),
            r.flags@ == without_repeats(final(self).state.raised(*input)),
            r.reseed_ma == old(self).state.reseeds(*input),
            r.ec_mismatch == final(self).state.ec_mismatch,
            r.t_star_changed == old(self).state.rederives(old(self).cached_points@, *input),
    {
        let (scored, reseed_ma) = self.state.score(input);
        self.state = scored;
        let t_star_changed = self.note_curve(input);
        let mut tread: Option<Tread> = None;
        let mut below_floor = false;
        if input.curve_valid && input.fanctrl.is_some() {
            if let Some(facts) = input.resolved {
                if facts.has_tread {
                    tread = facts.tread;
                } else {
                    below_floor = true;
                }
            }
        }
        let (weighed, argmax_ok) = self.state.judge(input, tread).debounce(input);
        let active = match input.fanctrl {
            Some(view) => view.active,
            None => false,
        };
        let hard_ok = input.freshness == Freshness::Fresh && active && input.ec.is_some()
            && input.curve_valid;
        let feasible_ok = tread.is_some() && !weighed.infeasible_latched && !below_floor;
        let core_ok = hard_ok && argmax_ok && feasible_ok;
        let state = ArbiterState {
            entry_streak: if core_ok {
                count32(weighed.entry_streak)
            } else {
                0
            },
            ..weighed
        };
        assert(state == old(self).state.after(old(self).cached_points@, *input));
        self.state = state;
        let mode = state.select(input);
        let row = state.row(input, argmax_ok, feasible_ok);
        let flags = state.raise(input, tread, below_floor);
        let reasons = state.explain(input, tread, below_floor, row);
        Decision {
            mode,
            t_star: match tread {
                Some(tread) => Some(tread.t_star),
                None => None,
            },
            slope: match tread {
                Some(tread) => Some(tread.slope),
                None => None,
            },
            reasons,
            flags,
            reseed_ma,
            ec_mismatch: state.ec_mismatch,
            t_star_changed,
        }
    }
}

fn copy_points(points: &Vec<(Num, u8)>) -> (r: Vec<(Num, u8)>)
    ensures
        r@ == points@,
{
    let mut out: Vec<(Num, u8)> = Vec::new();
    let mut i: usize = 0;
    while i < points.len()
        invariant
            i <= points@.len(),
            out@ == points@.take(i as int),
        decreases points@.len() - i,
    {
        out.push(points[i]);
        i += 1;
        assert(out@ =~= points@.take(i as int));
    }
    assert(points@.take(points@.len() as int) =~= points@);
    out
}

/// The temperature loop is in force only after three good ticks in a row, the
/// present one among them, and with a reconciled view and no mismatch: one
/// bad tick is enough to leave it.
pub proof fn lemma_temp_loop_is_earned(s: ArbiterState, cached: Seq<(Num, u8)>, i: ArbiterInput<'_>)
    requires
        s.after(cached, i).selects(i) == LoopMode::TempLoop,
    ensures
        s.weighed(cached, i).core_ok(i),
        s.entry_streak + 1 >= ENTRY_HYSTERESIS_TICKS,
        s.after(cached, i).reconciled,
        !s.after(cached, i).ec_mismatch,
        ArbiterState::hard_ok(i),
{
}

/// A streak grows by at most one in a tick, so from a bad tick on it takes
/// three more to enter.
pub proof fn lemma_streak_grows_by_one(s: ArbiterState, cached: Seq<(Num, u8)>, i: ArbiterInput<'_>)
    ensures
        s.after(cached, i).entry_streak <= s.entry_streak + 1,
        !s.weighed(cached, i).core_ok(i) ==> s.after(cached, i).entry_streak == 0,
{
}

/// Three scored views in a row latch a mismatch, and three matching ones
/// clear it and ask for a new moving average.
pub proof fn lemma_mismatch_takes_three(s: ArbiterState, i: ArbiterInput<'_>)
    requires
        scorable(i),
    ensures
        mismatched(i) && s.mismatch_streak + 1 >= MISMATCH_STRIKES ==> s.scored(i).ec_mismatch,
        mismatched(i) && s.mismatch_streak + 1 < MISMATCH_STRIKES ==> s.scored(i).ec_mismatch
            == s.ec_mismatch,
        !mismatched(i) && s.ec_mismatch && s.match_streak + 1 >= MISMATCH_STRIKES
            ==> !s.scored(i).ec_mismatch && s.reseeds(i) is Some,
        !mismatched(i) && s.match_streak + 1 < MISMATCH_STRIKES ==> s.scored(i).ec_mismatch
            == s.ec_mismatch,
{
}

/// A view that is not fair to score changes no streak.
pub proof fn lemma_skipped_view_changes_nothing(s: ArbiterState, i: ArbiterInput<'_>)
    requires
        !scorable(i),
    ensures
        s.scored(i) == s,
        s.reseeds(i) is None,
{
}

/// An invalid curve gives neither a target nor a steepness.
pub proof fn lemma_invalid_curve_is_never_steep(i: ArbiterInput<'_>)
    requires
        !i.curve_valid,
    ensures
        ArbiterState::tread(i) is None,
        !ArbiterState::steep(i),
{
}

/// Reconciliation is a gate of its own: what a view's scores have come to
/// changes nothing about the streak of good ticks.
pub proof fn lemma_reconciliation_is_its_own_gate(
    s: ArbiterState,
    other: ArbiterState,
    cached: Seq<(Num, u8)>,
    i: ArbiterInput<'_>,
)
    requires
        other == (ArbiterState {
            reconciled: other.reconciled,
            ec_mismatch: other.ec_mismatch,
            mismatch_streak: other.mismatch_streak,
            match_streak: other.match_streak,
            ma_fail_streak: other.ma_fail_streak,
            ..s
        }),
    ensures
        s.after(cached, i).entry_streak == other.after(cached, i).entry_streak,
        s.weighed(cached, i).core_ok(i) == other.weighed(cached, i).core_ok(i),
{
}

/// The third matching view in a row lets the temperature loop back in on the
/// same tick, with a new moving average, if the ticks have been good.
pub proof fn lemma_third_match_returns(s: ArbiterState, cached: Seq<(Num, u8)>, i: ArbiterInput<'_>)
    requires
        s.ec_mismatch,
        scorable(i) && !mismatched(i),
        s.match_streak + 1 >= MISMATCH_STRIKES,
        s.weighed(cached, i).core_ok(i),
        s.entry_streak + 1 >= ENTRY_HYSTERESIS_TICKS,
    ensures
        s.after(cached, i).selects(i) == LoopMode::TempLoop,
        s.reseeds(i) == Some(i.fanctrl->0.ma_temperature),
{
}

/// A target that cannot be told from the heat around it counts as infeasible
/// at once, and as feasible again only after a streak of ticks that say so.
pub proof fn lemma_feasible_again_takes_a_streak(s: ArbiterState, i: ArbiterInput<'_>)
    requires
        ArbiterState::tread(i) is Some,
        i.ec is Some,
    ensures
        too_cold(ArbiterState::tread(i)->0.t_star, *i.ec->0) ==> s.judged(i).infeasible_latched
            && s.judged(i).feasible_streak == 0,
        s.infeasible_latched && s.feasible_streak + 1 < FEASIBLE_CLEAR_TICKS ==> s.judged(
            i,
        ).infeasible_latched,
        s.judged(i).feasible_streak <= s.feasible_streak + 1,
{
}

proof fn lemma_same_points_chain(a: Seq<(Num, u8)>, b: Seq<(Num, u8)>, c: Seq<(Num, u8)>)
    requires
        same_points(b, c),
    ensures
        same_points(a, c) == same_points(a, b),
{
    reveal(Num::same);
    if same_points(a, c) {
        assert forall|k: int| 0 <= k < a.len() implies (#[trigger] a[k]).0.same(b[k].0) && a[k].1
            == b[k].1 by {
            assert(b[k].0.same(c[k].0));
        }
    }
    if same_points(a, b) {
        assert forall|k: int| 0 <= k < a.len() implies (#[trigger] a[k]).0.same(c[k].0) && a[k].1
            == c[k].1 by {
            assert(b[k].0.same(c[k].0));
        }
    }
}

/// Between two ticks with a curve in force, the target counts as changed
/// exactly if the points of the curve or the target duty differ from those of
/// the tick before. If it does not, and the curve resolves to the same facts,
/// the target temperature is the same.
pub proof fn lemma_target_changes_with_curve_and_duty(
    s: ArbiterState,
    cached: Seq<(Num, u8)>,
    first: ArbiterInput<'_>,
    then: ArbiterInput<'_>,
)
    requires
        ArbiterState::curve_in_force(first),
        ArbiterState::curve_in_force(then),
    ensures
        ({
            let changed = s.after(cached, first).rederives(s.points_after(cached, first), then);
            &&& changed <==> !same_points(then.fanctrl->0.curve@, first.fanctrl->0.curve@)
                || then.target_duty != first.target_duty
            &&& !changed && then.resolved == first.resolved ==> ArbiterState::tread(then)
                == ArbiterState::tread(first)
        }),
{
    let (a, b) = (then.fanctrl->0.curve@, first.fanctrl->0.curve@);
    if same_points(b, cached) {
        lemma_same_points_chain(a, b, cached);
    }
}

/// A tick that sees no view, or whose curve does not resolve, keeps what the
/// target was derived from and changes nothing: the next tick with a curve in
/// force is held against the last one that had it.
pub proof fn lemma_target_is_remembered(
    s: ArbiterState,
    cached: Seq<(Num, u8)>,
    i: ArbiterInput<'_>,
    then: ArbiterInput<'_>,
)
    requires
        i.curve_valid,
        !ArbiterState::curve_in_force(i),
        then.curve_valid,
    ensures
        !s.rederives(cached, i),
        s.points_after(cached, i) == cached,
        s.after(cached, i).rederives(s.points_after(cached, i), then) == s.rederives(cached, then),
{
}

/// The first tick with a curve in force derives the target, and so does the
/// first one after the curve was invalid.
pub proof fn lemma_first_curve_changes_the_target(
    s: ArbiterState,
    cached: Seq<(Num, u8)>,
    invalid: ArbiterInput<'_>,
    i: ArbiterInput<'_>,
)
    requires
        ArbiterState::curve_in_force(i),
        !invalid.curve_valid,
    ensures
        new_state().rederives(Seq::empty(), i),
        s.after(cached, invalid).rederives(s.points_after(cached, invalid), i),
{
}

} // verus!
