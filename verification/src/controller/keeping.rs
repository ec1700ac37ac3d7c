//! What is written down is what is found again, and how long things are kept.

use crate::budget::{lemma_warm_keys_are_distinct, warm_key};
use crate::controller::auto::{AutoView, ON_AC_EDGE_SUPPRESS_S};
use crate::controller::bench::BenchView;
use crate::controller::config::{Config, FAN_TARGET_MAX_RPM, FAN_TARGET_MIN_RPM};
use crate::controller::intake::gain_key;
use crate::controller::lane::{GainsSource, LaneView};
use crate::controller::machine::{Model, StoreView};
use crate::controller::plain::{EC_HOT_C, REASSERT_PERIOD_S, RESUMED_FLAG_S, RESUMED_STRICT_S};
use crate::controller::samples::recorded_pair;
use crate::controller::steady::Lesson;
use crate::controller::trial::too_hot;
use crate::controller::writes::{clock_of, taught};
use crate::device_loop::{imc_gains, DeviceDecision, DeviceUnit, Gains, Mhz, W};
use crate::num::{unit, Num};
use crate::spending::{lemma_within_value, pulled};
use crate::types::Sample;
use crate::values::{lemma_compare, lemma_difference_side, lemma_sum_side, lemma_whole};
use vstd::arithmetic::power2::{lemma2_to64, lemma2_to64_rest, lemma_pow2_pos};
use vstd::prelude::*;

verus! {

/// A pair of caps that has been learned is found again under the strategy, the
/// duty and the power source that it was learned under. What is found under any
/// other stays as it was.
pub proof fn lemma_learned_pair_is_found_again(
    store: StoreView,
    s: Sample,
    duty: u8,
    lesson: Lesson,
    later: Sample,
    duty_later: u8,
)
    requires
        s.fanctrl is Some && later.fanctrl is Some,
    ensures
        ({
            let found = recorded_pair(taught(store, s, duty, lesson), later, duty_later);
            let same = later.fanctrl->0.strategy@ == s.fanctrl->0.strategy@ && duty_later == duty
                && later.on_ac == s.on_ac;
            &&& lesson.warm is Some && same ==> found == lesson.warm
            &&& lesson.warm is None || !same ==> found == recorded_pair(store, later, duty_later)
        }),
{
    reveal(taught);
    let (a, b) = (s.fanctrl->0.strategy@, later.fanctrl->0.strategy@);
    if warm_key(a, duty, s.on_ac) == warm_key(b, duty_later, later.on_ac) {
        lemma_warm_keys_are_distinct(a, duty, s.on_ac, b, duty_later, later.on_ac);
    }
}

/// A new view has both lanes take the configured gains, else those fitted under
/// its strategy and interval, else those of the plant at its interval. Any other
/// sample leaves the gains alone.
pub proof fn lemma_gains_are_configured_or_fitted(
    a: AutoView,
    s: Sample,
    c: Config,
    cpu: Map<Seq<char>, Gains>,
    gpu: Map<Seq<char>, Gains>,
)
    ensures
        ({
            let r = a.retuned(s, c, cpu, gpu);
            let v = s.fanctrl->0;
            let key = gain_key(v.strategy@, v.ma_interval);
            let looked_up = s.fanctrl is Some && (s.fanctrl_view_changed
                || !a.session.view_initialised);
            &&& !looked_up ==> r == a
            &&& looked_up && c.cpu_gains is Some ==> r.cpu.state.gains == c.cpu_gains->0
                && r.cpu.facts.gains_source == GainsSource::Config
            &&& looked_up && c.cpu_gains is None && cpu.contains_key(key) ==> r.cpu.state.gains
                == cpu[key] && r.cpu.facts.gains_source == GainsSource::Fitted
            &&& looked_up && c.cpu_gains is None && !cpu.contains_key(key) ==> r.cpu.state.gains
                == imc_gains(W::plant(), v.ma_interval) && r.cpu.facts.gains_source
                == GainsSource::Default
            &&& looked_up && c.gpu_gains is Some ==> r.gpu.state.gains == c.gpu_gains->0
                && r.gpu.facts.gains_source == GainsSource::Config
            &&& looked_up && c.gpu_gains is None && gpu.contains_key(key) ==> r.gpu.state.gains
                == gpu[key] && r.gpu.facts.gains_source == GainsSource::Fitted
            &&& looked_up && c.gpu_gains is None && !gpu.contains_key(key) ==> r.gpu.state.gains
                == imc_gains(Mhz::plant(), v.ma_interval) && r.gpu.facts.gains_source
                == GainsSource::Default
        }),
{
    reveal(AutoView::retuned);
    reveal(LaneView::tuned);
}

/// The seconds and limits that the controller goes by.
proof fn lemma_constants()
    ensures
        Num(ON_AC_EDGE_SUPPRESS_S).finite() && Num(ON_AC_EDGE_SUPPRESS_S).value() == 3 * unit(),
        Num(RESUMED_STRICT_S).finite() && Num(RESUMED_STRICT_S).value() == 60 * unit(),
        Num(RESUMED_FLAG_S).finite() && Num(RESUMED_FLAG_S).value() == 30 * unit(),
        Num(REASSERT_PERIOD_S).finite() && Num(REASSERT_PERIOD_S).value() == 10 * unit(),
        Num(EC_HOT_C).finite() && Num(EC_HOT_C).value() == 95 * unit(),
        Num(FAN_TARGET_MIN_RPM).finite() && Num(FAN_TARGET_MIN_RPM).value() == 1000 * unit(),
        Num(FAN_TARGET_MAX_RPM).finite() && Num(FAN_TARGET_MAX_RPM).value() == 7000 * unit(),
{
    lemma2_to64();
    lemma2_to64_rest();
    lemma_whole(Num(ON_AC_EDGE_SUPPRESS_S), 3, 51);
    lemma_whole(Num(RESUMED_STRICT_S), 60, 47);
    lemma_whole(Num(RESUMED_FLAG_S), 30, 48);
    lemma_whole(Num(REASSERT_PERIOD_S), 10, 49);
    lemma_whole(Num(EC_HOT_C), 95, 46);
    lemma_whole(Num(FAN_TARGET_MIN_RPM), 1000, 43);
    lemma_whole(Num(FAN_TARGET_MAX_RPM), 7000, 40);
}

/// Read-backs prove nothing for three seconds after the power source changed,
/// and prove something again from then on. `z` is any time before the end of
/// that.
pub proof fn lemma_read_backs_are_let_pass_for_three_seconds(
    a: AutoView,
    on_ac: bool,
    t: Num,
    later: Num,
    z: Num,
)
    requires
        t.finite() && later.finite() && z.finite(),
        a.session.last_on_ac is Some && a.session.last_on_ac->0 != on_ac,
        z.value() <= t.value() + 3 * unit(),
    ensures
        later.value() < z.value() ==> a.powered(on_ac, t).session.suppressed(later),
        later.value() >= t.value() + 3 * unit() ==> !a.powered(on_ac, t).session.suppressed(later),
{
    reveal(AutoView::powered);
    lemma_constants();
    lemma_sum_side(t, Num(ON_AC_EDGE_SUPPRESS_S), later);
    lemma_sum_side(t, Num(ON_AC_EDGE_SUPPRESS_S), z);
    lemma_compare(later, z);
    reveal(Num::le);
    reveal(Num::lt);
}

/// A resume has the limits watched strictly for a minute and is shown for half
/// of one. `later` is any time.
pub proof fn lemma_resume_is_watched_for_a_minute(m: Model, t: Num, later: Num)
    requires
        t.finite() && later.finite(),
    ensures
        ({
            let w = m.resumed(t).core.watch;
            &&& w.strict_until is Some && w.resumed_until is Some
            &&& later.value() <= t.value() + 60 * unit() ==> later.le(w.strict_until->0)
            &&& later.value() >= t.value() + 60 * unit() ==> w.strict_until->0.le(later)
            &&& later.value() <= t.value() + 30 * unit() ==> later.le(w.resumed_until->0)
            &&& later.value() >= t.value() + 30 * unit() ==> w.resumed_until->0.le(later)
        }),
{
    reveal(Model::resumed);
    lemma_constants();
    lemma_sum_side(t, Num(RESUMED_STRICT_S), later);
    lemma_sum_side(t, Num(RESUMED_FLAG_S), later);
}

/// The fan target is what was asked for, held between 1000 and 7000 RPM, in the
/// limits and in the configuration alike; one that is in force already changes
/// nothing.
pub proof fn lemma_fan_target_is_what_was_asked_for(m: Model, rpm: Num)
    requires
        rpm.finite(),
        m.core.limits.fan_target_rpm.finite(),
        m.config.fan_target_rpm == m.core.limits.fan_target_rpm,
    ensures
        ({
            let r = m.aimed(rpm);
            let target = pulled(rpm.value(), 1000 * unit() as int, 7000 * unit() as int);
            &&& r.core.limits.fan_target_rpm.value() == target
            &&& r.config.fan_target_rpm == r.core.limits.fan_target_rpm
            &&& m.core.limits.fan_target_rpm.value() == target ==> r == m
        }),
{
    reveal(Model::aimed);
    lemma_constants();
    lemma_pow2_pos(1074);
    lemma_within_value(rpm, Num(FAN_TARGET_MIN_RPM), Num(FAN_TARGET_MAX_RPM));
    let c = rpm.within(Num(FAN_TARGET_MIN_RPM), Num(FAN_TARGET_MAX_RPM));
    lemma_compare(c, m.core.limits.fan_target_rpm);
}

/// During a calibration the CPU's cap is looked at first of all, at its end, and
/// ten seconds after the last look, but not before. `z` is any number of seconds
/// below ten.
pub proof fn lemma_calibration_looks_every_ten_seconds(b: BenchView, t: Num, finishing: bool, z: Num)
    requires
        t.finite() && z.finite() && z.value() < 10 * unit(),
        b.facts.cpu_checked_at is Some ==> b.facts.cpu_checked_at->0.finite(),
    ensures
        finishing || b.facts.cpu_checked_at is None ==> b.cap_due(t, finishing),
        b.facts.cpu_checked_at is Some && t.value() - b.facts.cpu_checked_at->0.value() >= 10
            * unit() ==> b.cap_due(t, finishing),
        !finishing && b.facts.cpu_checked_at is Some && t.value()
            - b.facts.cpu_checked_at->0.value() <= z.value() ==> !b.cap_due(t, finishing),
{
    lemma_constants();
    if let Some(at) = b.facts.cpu_checked_at {
        lemma_difference_side(t, at, Num(REASSERT_PERIOD_S));
        lemma_difference_side(t, at, z);
        lemma_compare(z, Num(REASSERT_PERIOD_S));
    }
    reveal(Num::le);
    reveal(Num::lt);
}

/// A calibration is too hot exactly if a valid reading of the CPU or the GPU is
/// at its threshold, or one of the embedded controller at 95 degrees.
pub proof fn lemma_too_hot_is_at_a_threshold(s: Sample, c: Config)
    requires
        s.cpu_temp_c.finite() && s.gpu_temp_c.finite(),
        c.cpu_hot_c.finite() && c.gpu_hot_c.finite(),
        s.ec is Some ==> s.ec->0.max_c.finite(),
    ensures
        too_hot(s, c) <==> {
            ||| s.cpu_temp_valid && s.cpu_temp_c.value() >= c.cpu_hot_c.value()
            ||| s.gpu_temp_valid && s.gpu_temp_c.value() >= c.gpu_hot_c.value()
            ||| s.ec_valid && s.ec is Some && s.ec->0.max_c.value() >= 95 * unit()
        },
{
    lemma_constants();
    lemma_compare(c.cpu_hot_c, s.cpu_temp_c);
    lemma_compare(c.gpu_hot_c, s.gpu_temp_c);
    if s.ec is Some {
        lemma_compare(Num(EC_HOT_C), s.ec->0.max_c);
    }
}

/// A clock of the GPU that a loop allows is locked at once where the loop says
/// so or the lock is to be corrected; else once it is due, if another clock is
/// locked or none. It is never locked without the loop's leave.
pub proof fn lemma_gpu_is_locked_when_its_clock_moves(
    m: Model,
    a: AutoView,
    d: DeviceDecision,
    t: Num,
    corrective: bool,
)
    ensures
        ({
            let locks = m.locks_gpu(a, d, t, corrective);
            let other = m.core.limits.gpu_max_mhz is None || m.core.limits.gpu_max_mhz->0
                != clock_of(d.cap);
            &&& !d.write_allowed ==> !locks
            &&& d.write_allowed && (d.write_immediately || corrective) ==> locks
            &&& d.write_allowed && !d.write_immediately && !corrective ==> locks == (a.gpu.due(t)
                && other)
        }),
{
}

} // verus!
