//! When the temperature loop may be trusted, told from the readings
//! themselves.

use crate::mode::{
    hottest, ArbiterInput, ArbiterState, LoopMode, ARGMAX_DEBOUNCE_TICKS, ARGMAX_LEAD_C,
    BOUND_HOLD_S, ENTRY_HYSTERESIS_TICKS, FEASIBLE_CLEAR_TICKS, FEASIBLE_MARGIN_C, MA_ABS_DIFF_C,
    MISMATCH_ABS_DIFF_C, MISMATCH_STRIKES, SKIP_GAP_S, SKIP_SLOPE_C_PER_S, STEEP_SLOPE_PCT_PER_C,
};
use crate::num::{Num, ZERO};
use crate::precision::apart;
use crate::status::StatusFlag;
use crate::types::{EcGroup, EcReading, EcSensor, Freshness};
use crate::values::{lemma_compare, lemma_difference_side, lemma_gap_side, lemma_sum_side, lemma_zero};
use vstd::prelude::*;

verus! {

/// One more, held at the largest count.
pub open spec fn one_more(n: int, most: int) -> int {
    if n < most {
        n + 1
    } else {
        most
    }
}

/// A view that is new, slow and young enough to be held against the
/// embedded controller, with finite readings.
pub open spec fn comparable(i: ArbiterInput<'_>) -> bool {
    &&& i.view_changed
    &&& i.fanctrl is Some && i.fanctrl->0.temperature.finite()
    &&& i.ec is Some && i.ec->0.max_c.finite()
    &&& i.replica_slope_5s_c_per_s.finite()
    &&& i.replica_slope_5s_c_per_s.value() < Num(SKIP_SLOPE_C_PER_S).value()
    &&& i.view_to_sample_gap_s.finite()
    &&& i.view_to_sample_gap_s.value() < Num(SKIP_GAP_S).value()
}

proof fn lemma_constants()
    ensures
        Num(MISMATCH_ABS_DIFF_C).finite() && Num(MISMATCH_ABS_DIFF_C).value() >= 0,
        Num(MA_ABS_DIFF_C).finite() && Num(MA_ABS_DIFF_C).value() >= 0,
        Num(SKIP_SLOPE_C_PER_S).finite(),
        Num(SKIP_GAP_S).finite(),
        Num(FEASIBLE_MARGIN_C).finite(),
        Num(ARGMAX_LEAD_C).finite(),
        Num(STEEP_SLOPE_PCT_PER_C).finite(),
{
}

/// A comparable view and the embedded controller agree if their temperatures
/// lie no more than the band apart, whichever is the higher: then the misses
/// start over, and the third match in a row takes a mismatch back.
pub proof fn lemma_close_readings_match(
    s: ArbiterState,
    cached: Seq<(Num, u8)>,
    i: ArbiterInput<'_>,
)
    requires
        comparable(i),
        apart(i.ec->0.max_c.value(), i.fanctrl->0.temperature.value()) <= Num(
            MISMATCH_ABS_DIFF_C,
        ).value(),
    ensures
        ({
            let after = s.after(cached, i);
            let matches = one_more(s.match_streak as int, 255);
            let clears = s.ec_mismatch && matches >= MISMATCH_STRIKES;
            &&& after.reconciled
            &&& after.mismatch_streak == 0
            &&& after.ec_mismatch == (s.ec_mismatch && !clears)
            &&& after.match_streak == if clears {
                0
            } else {
                matches
            }
            &&& clears ==> s.reseeds(i) == Some(i.fanctrl->0.ma_temperature)
        }),
{
    lemma_constants();
    lemma_compare(i.replica_slope_5s_c_per_s, Num(SKIP_SLOPE_C_PER_S));
    lemma_compare(i.view_to_sample_gap_s, Num(SKIP_GAP_S));
    lemma_gap_side(i.ec->0.max_c, i.fanctrl->0.temperature, Num(MISMATCH_ABS_DIFF_C));
    reveal(Num::le);
    reveal(Num::lt);
}

/// They disagree if their temperatures lie farther apart than that, by at
/// least the next number `z` after the band, whichever is the higher: then the
/// matches start over, and the third miss in a row latches a mismatch, which
/// keeps the temperature loop out and is flagged.
pub proof fn lemma_far_readings_mismatch(
    s: ArbiterState,
    cached: Seq<(Num, u8)>,
    i: ArbiterInput<'_>,
    z: Num,
)
    requires
        comparable(i),
        z.finite(),
        Num(MISMATCH_ABS_DIFF_C).value() < z.value(),
        z.value() <= apart(i.ec->0.max_c.value(), i.fanctrl->0.temperature.value()),
    ensures
        ({
            let after = s.after(cached, i);
            let misses = one_more(s.mismatch_streak as int, 255);
            &&& after.reconciled
            &&& after.match_streak == 0
            &&& after.mismatch_streak == misses
            &&& after.ec_mismatch == (s.ec_mismatch || misses >= MISMATCH_STRIKES)
            &&& after.ec_mismatch ==> after.selects(i) != LoopMode::TempLoop
            &&& after.ec_mismatch ==> after.raised(i).contains(StatusFlag::EcMismatch)
        }),
{
    lemma_constants();
    lemma_compare(i.replica_slope_5s_c_per_s, Num(SKIP_SLOPE_C_PER_S));
    lemma_compare(i.view_to_sample_gap_s, Num(SKIP_GAP_S));
    lemma_gap_side(i.ec->0.max_c, i.fanctrl->0.temperature, z);
    lemma_compare(Num(MISMATCH_ABS_DIFF_C), z);
    reveal(Num::le);
    reveal(Num::lt);
    let after = s.after(cached, i);
    if after.ec_mismatch {
        assert(after.raised(i)[0] == StatusFlag::EcMismatch);
    }
}

/// A view that is old, that comes while the temperature moves, that is not
/// new, or that has nothing to be held against, scores nothing.
pub proof fn lemma_unfair_views_score_nothing(
    s: ArbiterState,
    cached: Seq<(Num, u8)>,
    i: ArbiterInput<'_>,
)
    requires
        i.replica_slope_5s_c_per_s.finite(),
        i.view_to_sample_gap_s.finite(),
        !i.view_changed || i.fanctrl is None || i.ec is None || Num(SKIP_SLOPE_C_PER_S).value()
            <= i.replica_slope_5s_c_per_s.value() || Num(SKIP_GAP_S).value()
            <= i.view_to_sample_gap_s.value(),
    ensures
        ({
            let after = s.after(cached, i);
            &&& after.reconciled == s.reconciled
            &&& after.ec_mismatch == s.ec_mismatch
            &&& after.mismatch_streak == s.mismatch_streak
            &&& after.match_streak == s.match_streak
            &&& after.ma_fail_streak == s.ma_fail_streak
            &&& s.reseeds(i) is None
        }),
{
    lemma_constants();
    lemma_compare(i.replica_slope_5s_c_per_s, Num(SKIP_SLOPE_C_PER_S));
    lemma_compare(i.view_to_sample_gap_s, Num(SKIP_GAP_S));
}

/// The moving averages of a comparable view are held against each other in the
/// same way: close ones start their misses over; the third far one in a row
/// asks for a new average, and starts them over too.
pub proof fn lemma_averages_are_compared(
    s: ArbiterState,
    cached: Seq<(Num, u8)>,
    i: ArbiterInput<'_>,
    z: Num,
)
    requires
        comparable(i),
        i.ec_ma is Some && i.ec_ma->0.finite(),
        i.fanctrl->0.ma_temperature.finite(),
        z.finite(),
        Num(MA_ABS_DIFF_C).value() < z.value(),
    ensures
        ({
            let after = s.after(cached, i);
            let gap = apart(i.ec_ma->0.value(), i.fanctrl->0.ma_temperature.value());
            let misses = one_more(s.ma_fail_streak as int, 255);
            &&& gap <= Num(MA_ABS_DIFF_C).value() ==> after.ma_fail_streak == 0
            &&& z.value() <= gap && misses < MISMATCH_STRIKES ==> after.ma_fail_streak == misses
            &&& z.value() <= gap && misses >= MISMATCH_STRIKES ==> after.ma_fail_streak == 0
                && s.reseeds(i) == Some(i.fanctrl->0.ma_temperature)
        }),
{
    lemma_constants();
    lemma_compare(i.replica_slope_5s_c_per_s, Num(SKIP_SLOPE_C_PER_S));
    lemma_compare(i.view_to_sample_gap_s, Num(SKIP_GAP_S));
    lemma_gap_side(i.ec_ma->0, i.fanctrl->0.ma_temperature, Num(MA_ABS_DIFF_C));
    lemma_gap_side(i.ec_ma->0, i.fanctrl->0.ma_temperature, z);
    lemma_compare(Num(MA_ABS_DIFF_C), z);
    reveal(Num::le);
    reveal(Num::lt);
}

/// A sensor that the loops can move.
pub open spec fn movable(e: EcSensor) -> bool {
    e.group == EcGroup::Cpu || e.group == EcGroup::Gpu
}

/// Every sensor has a finite reading.
pub open spec fn all_finite(all: Seq<EcSensor>) -> bool {
    forall|k: int| 0 <= k < all.len() ==> (#[trigger] all[k]).c.finite()
}

proof fn lemma_hottest(all: Seq<EcSensor>, kind: bool)
    requires
        all_finite(all),
    ensures
        ({
            let h = hottest(all, kind);
            &&& !h.nan()
            &&& h.finite() || (h.infinite() && h.negative())
            &&& forall|k: int|
                0 <= k < all.len() && movable(#[trigger] all[k]) == kind ==> h.finite()
                    && all[k].c.value() <= h.value()
            &&& h.finite() ==> exists|k: int|
                0 <= k < all.len() && movable(#[trigger] all[k]) == kind && all[k].c.value()
                    == h.value()
        }),
    decreases all.len(),
{
    if all.len() > 0 {
        let rest = all.drop_last();
        let e = all.last();
        lemma_hottest(rest, kind);
        let h = hottest(rest, kind);
        let g = hottest(all, kind);
        reveal(Num::greater);
        reveal(Num::lt);
        if h.finite() {
            lemma_compare(h, e.c);
            let k = choose|k: int|
                0 <= k < rest.len() && movable(#[trigger] rest[k]) == kind && rest[k].c.value()
                    == h.value();
            assert(movable(all[k]) == kind);
        }
        assert(all[all.len() - 1] == e);
        assert forall|k: int| 0 <= k < all.len() && movable(#[trigger] all[k]) == kind implies
            g.finite() && all[k].c.value() <= g.value() by {
            if k < rest.len() {
                assert(movable(rest[k]) == kind);
            }
        }
    }
}

/// The target of a tick is known: a valid curve resolves to a tread with a
/// centre.
pub open spec fn target_of(i: ArbiterInput<'_>) -> Option<Num> {
    if i.curve_valid && i.fanctrl is Some && i.resolved is Some && i.resolved->0.has_tread
        && i.resolved->0.tread is Some {
        Some(i.resolved->0.tread->0.t_star)
    } else {
        None
    }
}

/// A target that lies the margin or more above every sensor that the loops
/// cannot move is feasible; after a streak of such ticks an infeasible one
/// counts as feasible again.
pub proof fn lemma_clear_targets_are_feasible(
    s: ArbiterState,
    cached: Seq<(Num, u8)>,
    i: ArbiterInput<'_>,
)
    requires
        target_of(i) is Some && target_of(i)->0.finite(),
        i.ec is Some && all_finite(i.ec->0.all@),
        forall|k: int|
            0 <= k < i.ec->0.all@.len() && !movable(#[trigger] i.ec->0.all@[k])
                ==> i.ec->0.all@[k].c.value() + Num(FEASIBLE_MARGIN_C).value() <= target_of(
                i,
            )->0.value(),
    ensures
        ({
            let after = s.after(cached, i);
            let streak = one_more(s.feasible_streak as int, u32::MAX as int);
            &&& after.feasible_streak == streak
            &&& after.infeasible_latched == (s.infeasible_latched && streak < FEASIBLE_CLEAR_TICKS)
        }),
{
    lemma_constants();
    let all = i.ec->0.all@;
    let t = target_of(i)->0;
    let h = hottest(all, false);
    lemma_hottest(all, false);
    reveal(Num::le);
    if h.finite() {
        lemma_sum_side(h, Num(FEASIBLE_MARGIN_C), t);
        let k = choose|k: int|
            0 <= k < all.len() && movable(#[trigger] all[k]) == false && all[k].c.value()
                == h.value();
        assert(!movable(all[k]));
    } else {
        reveal(Num::plus);
    }
}

/// One that lies less than the margin above such a sensor, by at least a number
/// `z` after the target, is infeasible at once, and keeps the temperature loop
/// out.
pub proof fn lemma_cold_targets_are_infeasible(
    s: ArbiterState,
    cached: Seq<(Num, u8)>,
    i: ArbiterInput<'_>,
    k: int,
    z: Num,
)
    requires
        target_of(i) is Some && target_of(i)->0.finite(),
        i.ec is Some && all_finite(i.ec->0.all@),
        0 <= k < i.ec->0.all@.len(),
        !movable(i.ec->0.all@[k]),
        z.finite(),
        target_of(i)->0.value() < z.value(),
        z.value() <= i.ec->0.all@[k].c.value() + Num(FEASIBLE_MARGIN_C).value(),
    ensures
        ({
            let after = s.after(cached, i);
            &&& after.infeasible_latched
            &&& after.feasible_streak == 0
            &&& after.entry_streak == 0
            &&& after.selects(i) != LoopMode::TempLoop
            &&& after.raised(i).contains(StatusFlag::TargetUnreachable)
        }),
{
    lemma_constants();
    let all = i.ec->0.all@;
    let t = target_of(i)->0;
    let h = hottest(all, false);
    lemma_hottest(all, false);
    assert(movable(all[k]) == false);
    lemma_sum_side(h, Num(FEASIBLE_MARGIN_C), z);
    lemma_compare(t, z);
    reveal(Num::le);
    reveal(Num::lt);
    let after = s.after(cached, i);
    assert(after.reports_cold(i));
    lemma_raised_parts(after, i, StatusFlag::TargetUnreachable);
}

proof fn lemma_in_sum(a: Seq<StatusFlag>, b: Seq<StatusFlag>, f: StatusFlag)
    ensures
        (a + b).contains(f) == (a.contains(f) || b.contains(f)),
{
    let c = a + b;
    if a.contains(f) {
        let k = choose|k: int| 0 <= k < a.len() && a[k] == f;
        assert(c[k] == f);
    }
    if b.contains(f) {
        let k = choose|k: int| 0 <= k < b.len() && b[k] == f;
        assert(c[a.len() + k] == f);
    }
    if c.contains(f) {
        let k = choose|k: int| 0 <= k < c.len() && c[k] == f;
        if k < a.len() {
            assert(a[k] == f);
        } else {
            assert(b[k - a.len()] == f);
        }
    }
}

proof fn lemma_when(c: bool, x: StatusFlag, f: StatusFlag)
    ensures
        crate::mode::when(c, x).contains(f) == (c && x == f),
{
    if c && x == f {
        assert(crate::mode::when(c, x)[0] == f);
    }
}

proof fn lemma_raised_parts(s: ArbiterState, i: ArbiterInput<'_>, f: StatusFlag)
    ensures
        s.raised(i).contains(f) == ({
            ||| s.ec_mismatch && f == StatusFlag::EcMismatch
            ||| !i.curve_valid && f == StatusFlag::CurveInvalid
            ||| ArbiterState::below_floor(i) && f == StatusFlag::TargetUnreachable
            ||| ArbiterState::steep(i) && f == StatusFlag::SteepCurve
            ||| s.reports_cold(i) && f == StatusFlag::TargetUnreachable
            ||| ArbiterState::held_low(i) && f == StatusFlag::TargetUnreachable
            ||| ArbiterState::held_high(i) && f == StatusFlag::TargetUnreachable
            ||| i.freshness != Freshness::Fresh && f == StatusFlag::FanctrlLost
            ||| s.selects(i) == LoopMode::Released && f == StatusFlag::SensorLost
        }),
{
    let far = StatusFlag::TargetUnreachable;
    let w1 = crate::mode::when(s.ec_mismatch, StatusFlag::EcMismatch);
    let w2 = crate::mode::when(!i.curve_valid, StatusFlag::CurveInvalid);
    let w3 = crate::mode::when(ArbiterState::below_floor(i), far);
    let w4 = crate::mode::when(ArbiterState::steep(i), StatusFlag::SteepCurve);
    let w5 = crate::mode::when(s.reports_cold(i), far);
    let w6 = crate::mode::when(ArbiterState::held_low(i), far);
    let w7 = crate::mode::when(ArbiterState::held_high(i), far);
    let w8 = crate::mode::when(i.freshness != Freshness::Fresh, StatusFlag::FanctrlLost);
    let w9 = crate::mode::when(s.selects(i) == LoopMode::Released, StatusFlag::SensorLost);
    lemma_when(s.ec_mismatch, StatusFlag::EcMismatch, f);
    lemma_when(!i.curve_valid, StatusFlag::CurveInvalid, f);
    lemma_when(ArbiterState::below_floor(i), far, f);
    lemma_when(ArbiterState::steep(i), StatusFlag::SteepCurve, f);
    lemma_when(s.reports_cold(i), far, f);
    lemma_when(ArbiterState::held_low(i), far, f);
    lemma_when(ArbiterState::held_high(i), far, f);
    lemma_when(i.freshness != Freshness::Fresh, StatusFlag::FanctrlLost, f);
    lemma_when(s.selects(i) == LoopMode::Released, StatusFlag::SensorLost, f);
    lemma_in_sum(w1, w2, f);
    lemma_in_sum(w1 + w2, w3, f);
    lemma_in_sum(w1 + w2 + w3, w4, f);
    lemma_in_sum(w1 + w2 + w3 + w4, w5, f);
    lemma_in_sum(w1 + w2 + w3 + w4 + w5, w6, f);
    lemma_in_sum(w1 + w2 + w3 + w4 + w5 + w6, w7, f);
    lemma_in_sum(w1 + w2 + w3 + w4 + w5 + w6 + w7, w8, f);
    lemma_in_sum(w1 + w2 + w3 + w4 + w5 + w6 + w7 + w8, w9, f);
}

/// Each flag of a tick is raised exactly where the state and the readings say
/// so: a latched mismatch; points that make no curve; a steep curve at the
/// target; a daemon that is not fresh; nothing to regulate on; and an
/// unreachable target, be it below the curve, too cold, or held at a bound for
/// too long in the direction of that bound.
pub proof fn lemma_flags_tell_the_readings(s: ArbiterState, i: ArbiterInput<'_>)
    requires
        i.error_sign.finite(),
        target_of(i) is Some ==> i.resolved->0.tread->0.slope.finite(),
    ensures
        s.raised(i).contains(StatusFlag::EcMismatch) == s.ec_mismatch,
        s.raised(i).contains(StatusFlag::CurveInvalid) == !i.curve_valid,
        s.raised(i).contains(StatusFlag::FanctrlLost) == (i.freshness != Freshness::Fresh),
        s.raised(i).contains(StatusFlag::SteepCurve) == (target_of(i) is Some && Num(
            STEEP_SLOPE_PCT_PER_C,
        ).value() < i.resolved->0.tread->0.slope.value()),
        s.raised(i).contains(StatusFlag::SensorLost) == (!i.fan_valid && s.selects(i)
            != LoopMode::TempLoop),
        s.raised(i).contains(StatusFlag::TargetUnreachable) == ({
            ||| i.curve_valid && i.fanctrl is Some && i.resolved is Some
                && !i.resolved->0.has_tread
            ||| target_of(i) is Some && i.ec is Some && s.infeasible_latched
            ||| i.at_lower_bound_for >= BOUND_HOLD_S && i.error_sign.value() < 0
            ||| i.at_upper_bound_for >= BOUND_HOLD_S && i.error_sign.value() > 0
        }),
{
    lemma_constants();
    lemma_zero();
    lemma_compare(i.error_sign, Num(ZERO));
    lemma_compare(Num(ZERO), i.error_sign);
    if target_of(i) is Some {
        lemma_compare(Num(STEEP_SLOPE_PCT_PER_C), i.resolved->0.tread->0.slope);
    }
    lemma_raised_parts(s, i, StatusFlag::EcMismatch);
    lemma_raised_parts(s, i, StatusFlag::CurveInvalid);
    lemma_raised_parts(s, i, StatusFlag::FanctrlLost);
    lemma_raised_parts(s, i, StatusFlag::SteepCurve);
    lemma_raised_parts(s, i, StatusFlag::SensorLost);
    lemma_raised_parts(s, i, StatusFlag::TargetUnreachable);
}

/// A sensor that the loops cannot move is the hottest, and leads every one
/// that they can by at least a number `z` over the margin.
pub open spec fn leads_by(ec: EcReading, z: Num) -> bool {
    forall|k: int|
        0 <= k < ec.all@.len() && movable(#[trigger] ec.all@[k]) ==> ec.all@[k].c.value()
            + z.value() <= ec.max_c.value()
}

/// A sensor that the loops cannot move and that leads clearly keeps the
/// temperature loop out at once.
pub proof fn lemma_clear_lead_acts_at_once(
    s: ArbiterState,
    cached: Seq<(Num, u8)>,
    i: ArbiterInput<'_>,
    z: Num,
)
    requires
        i.ec is Some && all_finite(i.ec->0.all@) && i.ec->0.max_c.finite(),
        i.ec->0.argmax_group == EcGroup::Uncontrollable || i.ec->0.argmax_group
            == EcGroup::Unknown,
        z.finite(),
        Num(ARGMAX_LEAD_C).value() < z.value(),
        leads_by(*i.ec->0, z),
    ensures
        s.after(cached, i).entry_streak == 0,
        s.after(cached, i).selects(i) != LoopMode::TempLoop,
{
    lemma_constants();
    let ec = i.ec->0;
    let all = ec.all@;
    let h = hottest(all, true);
    lemma_hottest(all, true);
    lemma_compare(Num(ARGMAX_LEAD_C), z);
    reveal(Num::lt);
    reveal(Num::le);
    if h.finite() {
        let k = choose|k: int|
            0 <= k < all.len() && movable(#[trigger] all[k]) == true && all[k].c.value()
                == h.value();
        assert(movable(all[k]));
        lemma_difference_side(ec.max_c, h, z);
    } else {
        reveal(Num::minus);
        reveal(Num::plus);
        assert(h.opposite().infinite() && !h.opposite().negative());
    }
    assert(ArbiterState::leads(i));
}

/// One that does not lead clearly is waited for: it counts, and keeps the
/// temperature loop out only from the debounce on. A hottest sensor that the
/// loops can move starts the count over.
pub proof fn lemma_small_lead_is_debounced(
    s: ArbiterState,
    cached: Seq<(Num, u8)>,
    i: ArbiterInput<'_>,
    k: int,
)
    requires
        i.ec is Some && all_finite(i.ec->0.all@) && i.ec->0.max_c.finite(),
    ensures
        ({
            let after = s.after(cached, i);
            let ec = i.ec->0;
            let count = one_more(s.argmax_fail_streak as int, 255);
            if ec.argmax_group == EcGroup::Cpu || ec.argmax_group == EcGroup::Gpu {
                after.argmax_fail_streak == 0
            } else {
                0 <= k < ec.all@.len() && movable(ec.all@[k]) && ec.max_c.value()
                    - ec.all@[k].c.value() <= Num(ARGMAX_LEAD_C).value() ==> {
                    &&& after.argmax_fail_streak == count
                    &&& count >= ARGMAX_DEBOUNCE_TICKS ==> after.entry_streak == 0
                        && after.selects(i) != LoopMode::TempLoop
                }
            }
        }),
{
    lemma_constants();
    let ec = i.ec->0;
    let all = ec.all@;
    if 0 <= k < all.len() && movable(all[k]) && ec.max_c.value() - all[k].c.value() <= Num(
        ARGMAX_LEAD_C,
    ).value() {
        let h = hottest(all, true);
        lemma_hottest(all, true);
        assert(movable(all[k]) == true);
        lemma_difference_side(ec.max_c, h, Num(ARGMAX_LEAD_C));
        reveal(Num::le);
        reveal(Num::lt);
    }
}

/// A tick is good for the temperature loop: the daemon's view is fresh and
/// active, the embedded controller is read, and the curve gives a target.
pub open spec fn well_informed(i: ArbiterInput<'_>) -> bool {
    &&& i.freshness == Freshness::Fresh
    &&& i.fanctrl is Some && i.fanctrl->0.active
    &&& i.ec is Some
    &&& target_of(i) is Some
}

/// The temperature loop acts after three good ticks in a row, with views
/// reconciled and no mismatch, and only then: a tick is good if it is well
/// informed, its target is feasible, and its hottest sensor is one that the
/// loops can move or one that has not been waited for too long. Otherwise the
/// fan loop acts, or, without a fan, nothing.
pub proof fn lemma_temperature_loop_acts(
    s: ArbiterState,
    cached: Seq<(Num, u8)>,
    i: ArbiterInput<'_>,
)
    ensures
        ({
            let after = s.after(cached, i);
            let streak = one_more(s.entry_streak as int, u32::MAX as int);
            &&& !well_informed(i) || after.infeasible_latched ==> after.entry_streak == 0
            &&& well_informed(i) && !after.infeasible_latched && (i.ec->0.argmax_group
                == EcGroup::Cpu || i.ec->0.argmax_group == EcGroup::Gpu) ==> after.entry_streak
                == streak
            &&& after.entry_streak == 0 || after.entry_streak == streak
            &&& after.selects(i) == if after.entry_streak >= ENTRY_HYSTERESIS_TICKS
                && after.reconciled && !after.ec_mismatch {
                LoopMode::TempLoop
            } else if i.fan_valid {
                LoopMode::RpmLoop
            } else {
                LoopMode::Released
            }
        }),
{
}

/// The target that a tick decides is the centre of the tread that a valid curve
/// resolves to, and there is none otherwise.
pub proof fn lemma_target_is_the_tread(i: ArbiterInput<'_>)
    ensures
        (match ArbiterState::tread(i) {
            Some(tread) => Some(tread.t_star),
            None => None,
        }) == target_of(i),
{
}

} // verus!
