//! What a sample's readings come to: times, comparisons, leads and writes.

use crate::controller::auto::{
    AutoView, FALLBACK_MARGIN_C, LONE_LEAD_C, NO_RUNNER_UP, ON_AC_EDGE_SUPPRESS_S,
    RECONCILIATION_BAND_C, RECONCILIATION_SKIP_GAP_S, RECONCILIATION_SKIP_SLOPE_C_PER_S,
};
use crate::controller::config::{milliwatts, Config, MW_PER_W};
use crate::controller::drive::target_of;
use crate::controller::intake::{
    comparable, labelled, lead_of, observation_of, runner_up, step_of, ReconciliationObservation,
};
use crate::controller::lane::{LaneInput, LaneView, WRITE_PERIOD_S};
use crate::controller::machine::Model;
use crate::controller::plain::{Next, Why, CAP_BAND_W, REASSERT_PERIOD_S, STICKINESS_MARGIN_W};
use crate::controller::report::SourceReply;
use crate::controller::writes::clock_of;
use crate::device_loop::DeviceDecision;
use crate::num::{unit, Num, ZERO};
use crate::order::lemma_steps_zero;
use crate::precision::{apart, grain, lemma_minus_error, lemma_plus_error, reach};
use crate::spending::{high, lemma_lesser_value, low};
use crate::types::{EcReading, EcSensor, Freshness, Sample};
use crate::values::{
    lemma_compare, lemma_difference_side, lemma_gap_side, lemma_sum_side, lemma_whole, lemma_zero,
};
use vstd::arithmetic::power2::{lemma2_to64, lemma2_to64_rest, lemma_pow2_adds, lemma_pow2_pos, pow2};
use vstd::prelude::*;

verus! {

/// The time of a sample is the time since the one before it, and nothing if
/// there is none or the clock did not move forward.
pub proof fn lemma_step_is_the_time_between(last: Option<Num>, t: Num)
    requires
        t.finite() && t.steps() <= reach(),
        last is Some ==> last->0.finite() && apart(t.value(), last->0.value()) <= reach(),
    ensures
        ({
            let step = step_of(last, t);
            &&& step.finite()
            &&& last is None || t.value() <= last->0.value() ==> step.value() == 0
            &&& last is Some && t.value() > last->0.value() ==> apart(
                step.value(),
                t.value() - last->0.value(),
            ) <= grain(t.value() - last->0.value())
        }),
{
    reveal(step_of);
    lemma_zero();
    if let Some(l) = last {
        lemma_minus_error(t, l);
        crate::order::lemma_minus_sign(t, l);
        lemma_difference_side(t, l, Num(ZERO));
        lemma_compare(Num(ZERO), t.minus(l));
    }
}

proof fn lemma_constants()
    ensures
        Num(RECONCILIATION_BAND_C).finite() && Num(RECONCILIATION_BAND_C).value() == unit(),
        Num(RECONCILIATION_SKIP_GAP_S).finite() && Num(RECONCILIATION_SKIP_GAP_S).value() == 2
            * unit(),
        Num(RECONCILIATION_SKIP_SLOPE_C_PER_S).finite() && 2 * Num(
            RECONCILIATION_SKIP_SLOPE_C_PER_S,
        ).value() == unit(),
        Num(FALLBACK_MARGIN_C).finite() && Num(FALLBACK_MARGIN_C).value() == 2 * unit(),
        Num(ON_AC_EDGE_SUPPRESS_S).finite() && Num(ON_AC_EDGE_SUPPRESS_S).value() == 3 * unit(),
        Num(REASSERT_PERIOD_S).finite() && Num(REASSERT_PERIOD_S).value() == 10 * unit(),
        Num(STICKINESS_MARGIN_W).finite() && Num(STICKINESS_MARGIN_W).value() == 5 * unit(),
        Num(WRITE_PERIOD_S).finite() && Num(WRITE_PERIOD_S).value() == 2 * unit(),
        Num(MW_PER_W).finite() && Num(MW_PER_W).value() == 1000 * unit(),
{
    lemma2_to64();
    lemma2_to64_rest();
    lemma_whole(Num(RECONCILIATION_BAND_C), 1, 52);
    lemma_whole(Num(RECONCILIATION_SKIP_GAP_S), 2, 51);
    lemma_whole(Num(FALLBACK_MARGIN_C), 2, 51);
    lemma_whole(Num(ON_AC_EDGE_SUPPRESS_S), 3, 51);
    lemma_whole(Num(REASSERT_PERIOD_S), 10, 49);
    lemma_whole(Num(STICKINESS_MARGIN_W), 5, 50);
    lemma_whole(Num(WRITE_PERIOD_S), 2, 51);
    lemma_whole(Num(MW_PER_W), 1000, 43);
    let half = Num(RECONCILIATION_SKIP_SLOPE_C_PER_S);
    lemma_pow2_adds(53, 1021);
    assert(half.significand() == 0x10_0000_0000_0000);
    assert(half.exponent() == 1021);
    assert(2 * (0x10_0000_0000_0000 * pow2(1021)) == 0x20_0000_0000_0000 * pow2(1021))
        by (nonlinear_arith);
}

/// A view is scored only if it is new and fresh, the local maximum rises by
/// less than half a degree per second and the view is younger than two seconds.
/// A reading within a degree of it agrees, on either side; one farther away, by
/// any `z` above a degree, does not.
pub proof fn lemma_views_are_scored_by_a_degree(
    s: Sample,
    rise: Num,
    gap_s: Num,
    ma: Option<Num>,
    z: Num,
)
    requires
        rise.finite() && gap_s.finite() && z.finite() && unit() < z.value(),
        s.fanctrl is Some ==> s.fanctrl->0.temperature.finite()
            && s.fanctrl->0.ma_temperature.finite(),
        s.ec is Some && s.ec->0.reconciliation_max_c is Some
            ==> s.ec->0.reconciliation_max_c->0.finite(),
        ma is Some ==> ma->0.finite(),
    ensures
        ({
            let o = observation_of(s, rise, gap_s, ma);
            let fair = comparable(s) && 2 * rise.value() < unit() && gap_s.value() < 2 * unit();
            &&& !fair ==> o is Skipped
            &&& fair ==> {
                let (v, e) = (s.fanctrl->0, s.ec->0);
                let (local, shown) = (e.reconciliation_max_c->0.value(), v.temperature.value());
                let (mean, shown_mean) = (ma->0.value(), v.ma_temperature.value());
                &&& o matches ReconciliationObservation::Scored { max_matches, ma_matches, socket_ma }
                    && {
                    &&& e.reconciliation_max_c is None ==> !max_matches
                    &&& e.reconciliation_max_c is Some && apart(local, shown) <= unit()
                        ==> max_matches
                    &&& e.reconciliation_max_c is Some && apart(local, shown) >= z.value()
                        ==> !max_matches
                    &&& ma is None ==> ma_matches is None
                    &&& ma is Some && apart(mean, shown_mean) <= unit() ==> ma_matches == Some(true)
                    &&& ma is Some && apart(mean, shown_mean) >= z.value() ==> ma_matches == Some(
                        false,
                    )
                    &&& socket_ma == v.ma_temperature
                }
            }
        }),
{
    reveal(observation_of);
    lemma_constants();
    lemma_pow2_pos(1074);
    lemma_compare(Num(RECONCILIATION_SKIP_SLOPE_C_PER_S), rise);
    lemma_compare(Num(RECONCILIATION_SKIP_GAP_S), gap_s);
    let one = Num(RECONCILIATION_BAND_C);
    lemma_compare(one, z);
    if comparable(s) {
        let (v, e) = (s.fanctrl->0, s.ec->0);
        if let Some(m) = e.reconciliation_max_c {
            lemma_gap_side(m, v.temperature, one);
            lemma_gap_side(m, v.temperature, z);
        }
        if let Some(m) = ma {
            lemma_gap_side(m, v.ma_temperature, one);
            lemma_gap_side(m, v.ma_temperature, z);
        }
    }
    reveal(Num::le);
    reveal(Num::lt);
}

/// The `j`-th sensor is not the one with the label.
pub open spec fn other(all: Seq<EcSensor>, label: Seq<char>, j: int) -> bool {
    0 <= j < all.len() && all[j].label@ != label
}

/// The `j`-th sensor is the hottest of the others.
pub open spec fn hottest_other(all: Seq<EcSensor>, label: Seq<char>, j: int) -> bool {
    &&& other(all, label, j)
    &&& forall|i: int| other(all, label, i) ==> (#[trigger] all[i]).c.value() <= all[j].c.value()
}

proof fn lemma_runner_up_is_the_hottest_other(all: Seq<EcSensor>, label: Seq<char>)
    requires
        forall|j: int| other(all, label, j) ==> (#[trigger] all[j]).c.finite(),
    ensures
        ({
            let r = runner_up(all, label);
            ||| (r == Num(NO_RUNNER_UP) && (forall|j: int| !other(all, label, j)))
            ||| exists|j: int| #[trigger] hottest_other(all, label, j) && r == all[j].c
        }),
    decreases all.len(),
{
    if all.len() > 0 {
        let rest = all.drop_last();
        let n = all.len() - 1;
        assert forall|j: int| other(rest, label, j) implies (#[trigger] rest[j]).c.finite() by {
            assert(other(all, label, j));
            assert(rest[j] == all[j]);
        }
        lemma_runner_up_is_the_hottest_other(rest, label);
        let before = runner_up(rest, label);
        let r = runner_up(all, label);
        assert(forall|j: int| 0 <= j < n ==> #[trigger] rest[j] == all[j]);
        assert(forall|j: int|
            other(all, label, j) ==> (j == n && all.last().label@ != label) || other(
                rest,
                label,
                j,
            ));
        if all.last().label@ == label {
            if !(before == Num(NO_RUNNER_UP) && forall|j: int| !other(rest, label, j)) {
                let j = choose|j: int| #[trigger]
                    hottest_other(rest, label, j) && before == rest[j].c;
                assert(hottest_other(all, label, j) && r == all[j].c);
            }
        } else {
            let last = all.last().c;
            assert(other(all, label, n));
            assert(all[n].c.finite());
            if before == Num(NO_RUNNER_UP) && forall|j: int| !other(rest, label, j) {
                assert(r == last) by {
                    reveal(Num::greater);
                    reveal(Num::lt);
                }
                assert(hottest_other(all, label, n) && r == all[n].c);
            } else {
                let j = choose|j: int| #[trigger]
                    hottest_other(rest, label, j) && before == rest[j].c;
                assert(other(all, label, j));
                lemma_compare(before, last);
                reveal(Num::greater);
                if before.lt(last) {
                    assert(hottest_other(all, label, n) && r == all[n].c);
                } else {
                    assert(hottest_other(all, label, j) && r == all[j].c);
                }
            }
        }
    }
}

/// The lead of the hottest sensor is its distance from the hottest other one,
/// never negative. The only sensor has a fixed lead. `k` is the place of the
/// hottest sensor's label.
pub proof fn lemma_lead_is_over_the_hottest_other(ec: EcReading, k: int, b: nat)
    requires
        0 <= k < ec.all@.len() && ec.all@[k].label@ == ec.argmax@,
        forall|j: int| 0 <= j < k ==> (#[trigger] ec.all@[j]).label@ != ec.argmax@,
        forall|j: int|
            0 <= j < ec.all@.len() ==> (#[trigger] ec.all@[j]).c.finite() && ec.all@[j].c.steps()
                <= b,
        16 * b <= reach(),
    ensures
        (exists|j: int| other(ec.all@, ec.argmax@, j)) || lead_of(ec) == Num(LONE_LEAD_C),
        forall|j: int| #[trigger]
            hottest_other(ec.all@, ec.argmax@, j) ==> lead_of(ec).finite() && apart(
                lead_of(ec).value(),
                high(ec.all@[k].c.value() - ec.all@[j].c.value(), 0),
            ) <= 2 * grain(b as int),
{
    reveal(lead_of);
    let (all, label) = (ec.all@, ec.argmax@);
    lemma_labelled(all, label, 0, k);
    assert forall|j: int| other(all, label, j) implies (#[trigger] all[j]).c.finite() by {}
    lemma_runner_up_is_the_hottest_other(all, label);
    let next = runner_up(all, label);
    lemma_zero();
    if exists|j: int| other(all, label, j) {
        let m = choose|m: int| #[trigger] hottest_other(all, label, m) && next == all[m].c;
        let top = all[k].c;
        assert(other(all, label, m));
        assert(all[m].c.finite() && all[m].c.steps() <= b && top.steps() <= b);
        lemma_steps_zero(top);
        lemma_steps_zero(next);
        lemma_minus_error(top, next);
        lemma_lesser_value(top.minus(next), Num(ZERO));
        let d = top.minus(next).value();
        let exact = top.value() - next.value();
        assert(apart(d, exact) * 0x20_0000_0000_0000 <= 2 * b);
        assert(apart(d, exact) <= 2 * grain(b as int));
        assert(lead_of(ec).value() == high(d, 0));
        assert forall|j: int| #[trigger] hottest_other(all, label, j) implies lead_of(ec).finite()
            && apart(lead_of(ec).value(), high(top.value() - all[j].c.value(), 0)) <= 2 * grain(
            b as int,
        ) by {
            assert(other(all, label, j) && other(all, label, m));
            assert(all[j].c.value() == all[m].c.value());
        }
    } else {
        assert(!next.finite());
    }
}

proof fn lemma_labelled(all: Seq<EcSensor>, label: Seq<char>, i: int, k: int)
    requires
        0 <= i <= k < all.len(),
        all[k].label@ == label,
        forall|j: int| 0 <= j < k ==> (#[trigger] all[j]).label@ != label,
    ensures
        labelled(all, label, i) == Some(all[k].c),
    decreases k - i,
{
    if i < k {
        assert(all[i].label@ != label);
        lemma_labelled(all, label, i + 1, k);
    }
}

/// A rounded number is within a half of what it was rounded from, and so is
/// the whole number that it is.
pub proof fn lemma_whole_of_rounded(x: Num)
    requires
        x.finite() && 0 <= x.value() < 0x7fff_ffff * unit(),
    ensures
        2 * apart(x.rounded().whole() * unit(), x.value()) <= unit(),
{
    let u = unit() as int;
    lemma_pow2_pos(1074);
    lemma_steps_zero(x);
    crate::grid::lemma_rounded_value(x);
    let r = x.rounded();
    let n = choose|n: int| r.value() == #[trigger] (n * unit());
    assert(n >= 0) by (nonlinear_arith)
        requires
            2 * (n * u) >= -u,
            u > 0,
    ;
    assert(n <= 0x7fff_ffff) by (nonlinear_arith)
        requires
            2 * (n * u) <= 2 * (0x7fff_ffff * u) + u,
            u > 0,
    ;
    crate::values::lemma_whole_number(r, n);
}

/// A clock is locked at the whole number of MHz nearest to the cap.
pub proof fn lemma_clock_is_the_nearest(cap: Num)
    requires
        cap.finite() && 0 <= cap.value() < 0x7fff_ffff * unit(),
    ensures
        2 * apart(clock_of(cap) * unit(), cap.value()) <= unit(),
{
    lemma_whole_of_rounded(cap);
}

/// A power in milliwatts is a thousand times the power in watts, to the nearest
/// whole number.
pub proof fn lemma_milliwatts_are_thousandths(w: Num)
    requires
        w.finite() && 0 <= w.value() <= 1_000_000 * unit(),
    ensures
        2 * apart(milliwatts(w) * unit(), 1000 * w.value()) <= unit() + 2 * grain(
            1_000_000_000 * unit() as int,
        ),
{
    lemma_constants();
    lemma_pow2_pos(1074);
    crate::spending::lemma_scales();
    let u = unit() as int;
    let k = Num(MW_PER_W);
    lemma_steps_zero(w);
    lemma_steps_zero(k);
    let v = w.value();
    assert(w.steps() * k.steps() == 1000 * v * u) by (nonlinear_arith)
        requires
            w.steps() == v,
            k.steps() == 1000 * u,
    ;
    assert(1000 * v * u <= 1_000_000_000 * u * u) by (nonlinear_arith)
        requires
            v <= 1_000_000 * u,
            u > 0,
    ;
    assert(1_000_000_000 * u * u <= reach() * u) by (nonlinear_arith)
        requires
            reach() >= 0x20_0000_0000_0000 * u,
            u > 0,
    ;
    crate::precision::lemma_times_error(w, k);
    let p = w.times(k);
    let pv = p.value();
    let h: int = 0x10_0000_0000_0000;
    let q: int = 0x20_0000_0000_0000;
    assert(v * k.value() == 1000 * v * u) by (nonlinear_arith)
        requires
            k.value() == 1000 * u,
    ;
    let d = apart(pv, 1000 * v);
    assert(apart(pv * u, 1000 * v * u) == d * u) by (nonlinear_arith)
        requires
            d == apart(pv, 1000 * v),
            u > 0,
    ;
    assert(d * q <= 1000 * v + h) by (nonlinear_arith)
        requires
            d * u * q <= 1000 * v * u + u * h,
            u > 0,
    ;
    assert(d <= grain(1_000_000_000 * u));
    assert(pv < 0x7fff_ffff * u) by {
        assert(d <= u);
    }
    assert(pv >= 0) by {
        reveal(Num::times);
    }
    lemma_whole_of_rounded(p);
}

/// A draw violates the CPU's limit only if it exceeds it by more than five
/// watts, and one that does by any `z` above that counts as a violation: the
/// third in a row, or the second shortly after a resume, has the limit written
/// again if there is hardware to write to. A draw within five watts complies,
/// and ends the row.
pub proof fn lemma_limit_is_held_against_the_draw(m: Model, s: Sample, fenced: bool, z: Num)
    requires
        m.core.limits.cpu_limit_w is Some && m.core.limits.cpu_limit_w->0.finite(),
        s.cpu_pkg_w.finite() && 0 < s.cpu_pkg_w.value(),
        s.t_mono.finite(),
        m.core.watch.strict_until is Some ==> m.core.watch.strict_until->0.finite(),
        z.finite(),
        z.value() >= m.core.limits.cpu_limit_w->0.value() + 5 * unit(),
        m.core.watch.stick_violations < 255,
    ensures
        ({
            let r = m.measured(s, fenced);
            let limit = m.core.limits.cpu_limit_w->0;
            let strict = m.core.watch.strict_until is Some && s.t_mono.value()
                < m.core.watch.strict_until->0.value();
            let row = m.core.watch.stick_violations + 1;
            let last = row >= if strict {
                2int
            } else {
                3int
            };
            &&& s.cpu_pkg_w.value() <= limit.value() + 5 * unit() ==> {
                &&& r.0.core.watch.stick_violations == 0
                &&& !(r.1 matches Next::Reassert { why, .. } && why == Why::Stickiness)
            }
            &&& s.cpu_pkg_w.value() > z.value() && !last ==> {
                &&& r.0.core.watch.stick_violations == row
                &&& !(r.1 matches Next::Reassert { why, .. } && why == Why::Stickiness)
            }
            &&& s.cpu_pkg_w.value() > z.value() && last ==> {
                &&& r.0.core.watch.stick_violations == 0
                &&& !fenced && m.rig.cpu ==> (r.1 matches Next::Reassert { why, cpu_mw, .. } && why
                    == Why::Stickiness && cpu_mw == Some(milliwatts(limit)))
            }
        }),
{
    reveal(Model::measured);
    reveal(Model::scheduled);
    reveal(Model::closed);
    reveal(Model::complied);
    reveal(Model::unstuck);
    lemma_constants();
    lemma_zero();
    let limit = m.core.limits.cpu_limit_w->0;
    let margin = Num(STICKINESS_MARGIN_W);
    lemma_compare(Num(ZERO), s.cpu_pkg_w);
    lemma_sum_side(limit, margin, s.cpu_pkg_w);
    lemma_sum_side(limit, margin, z);
    lemma_compare(z, s.cpu_pkg_w);
    if let Some(until) = m.core.watch.strict_until {
        lemma_compare(s.t_mono, until);
    }
    reveal(Num::le);
    reveal(Num::lt);
}

/// With a limit in force, the first look starts the clock; from then on the
/// limits in force are written again ten seconds after the last time, and not
/// before. `z` is any number of seconds below ten.
pub proof fn lemma_limits_are_written_every_ten_seconds(m: Model, t: Num, fenced: bool, z: Num)
    requires
        t.finite() && z.finite() && z.value() < 10 * unit(),
        m.core.limits.cpu_limit_w is Some || m.core.limits.gpu_max_mhz is Some,
        m.core.watch.last_reassert is Some ==> m.core.watch.last_reassert->0.finite(),
    ensures
        ({
            let r = m.scheduled(t, fenced);
            let last = m.core.watch.last_reassert->0.value();
            let there = !fenced && ((m.core.limits.cpu_limit_w is Some && m.rig.cpu) || (
            m.core.limits.gpu_max_mhz is Some && m.rig.gpu));
            &&& m.core.watch.last_reassert is None ==> !(r.1 is Reassert)
                && r.0.core.watch.last_reassert == Some(t)
            &&& m.core.watch.last_reassert is Some && t.value() - last >= 10 * unit() ==> {
                &&& r.0.core.watch.last_reassert == Some(t)
                &&& there ==> r.1 == (Next::Reassert {
                    why: Why::Schedule,
                    cpu_mw: if m.core.limits.cpu_limit_w is Some && m.rig.cpu {
                        Some(milliwatts(m.core.limits.cpu_limit_w->0))
                    } else {
                        None
                    },
                    gpu_mhz: if m.rig.gpu {
                        m.core.limits.gpu_max_mhz
                    } else {
                        None
                    },
                })
                &&& !there ==> !(r.1 is Reassert)
            }
            &&& m.core.watch.last_reassert is Some && t.value() - last <= z.value() ==> !(r.1
                is Reassert) && r.0.core.watch.last_reassert == m.core.watch.last_reassert
        }),
{
    reveal(Model::scheduled);
    reveal(Model::closed);
    lemma_constants();
    if let Some(last) = m.core.watch.last_reassert {
        lemma_difference_side(t, last, Num(REASSERT_PERIOD_S));
        lemma_difference_side(t, last, z);
        lemma_compare(z, Num(REASSERT_PERIOD_S));
    }
    reveal(Num::le);
    reveal(Num::lt);
}

/// A lane's cap may be written two seconds after its last write, and not
/// before. `z` is any number of seconds below two.
pub proof fn lemma_writes_keep_two_seconds(l: LaneView, t: Num, z: Num)
    requires
        t.finite() && z.finite() && z.value() < 2 * unit(),
        l.facts.last_write is Some ==> l.facts.last_write->0.finite(),
    ensures
        l.facts.last_write is None ==> l.due(t),
        l.facts.last_write is Some && t.value() - l.facts.last_write->0.value() >= 2 * unit()
            ==> l.due(t),
        l.facts.last_write is Some && t.value() - l.facts.last_write->0.value() <= z.value()
            ==> !l.due(t),
{
    lemma_constants();
    if let Some(last) = l.facts.last_write {
        lemma_difference_side(t, last, Num(WRITE_PERIOD_S));
        lemma_difference_side(t, last, z);
        lemma_compare(z, Num(WRITE_PERIOD_S));
    }
    reveal(Num::le);
    reveal(Num::lt);
}

/// A cap of the CPU that a loop allows is written at once where the loop says
/// so. Else it is written once it is due, if none is in force, if it lies away
/// from the one in force to either side, or while a read-back is in trouble. A
/// cap is never written without the loop's leave. `z` is any number above the
/// band within which caps are the same.
pub proof fn lemma_cpu_is_written_when_it_moves(
    m: Model,
    a: AutoView,
    d: DeviceDecision,
    t: Num,
    z: Num,
)
    requires
        d.cap.finite() && z.finite(),
        z.value() > Num(CAP_BAND_W).value(),
        m.core.limits.cpu_limit_w is Some ==> m.core.limits.cpu_limit_w->0.finite(),
    ensures
        ({
            let writes = m.writes_cpu(a, d, t);
            let away = apart(m.core.limits.cpu_limit_w->0.value(), d.cap.value());
            let told = m.core.limits.cpu_limit_w is Some;
            &&& !d.write_allowed ==> !writes
            &&& d.write_allowed && d.write_immediately ==> writes
            &&& !d.write_immediately && !a.cpu.due(t) ==> !writes
            &&& d.write_allowed && a.cpu.due(t) && (!told || away >= z.value()
                || a.cpu.facts.verdict.episode()) ==> writes
            &&& !d.write_immediately && told && away <= Num(CAP_BAND_W).value()
                && !a.cpu.facts.verdict.episode() ==> !writes
        }),
{
    let band = Num(CAP_BAND_W);
    lemma_steps_zero(band);
    lemma_zero();
    lemma_compare(band, z);
    assert(band.finite() && !band.negative());
    if let Some(applied) = m.core.limits.cpu_limit_w {
        lemma_gap_side(applied, d.cap, band);
        lemma_gap_side(applied, d.cap, z);
    }
    reveal(Num::le);
    reveal(Num::lt);
}

/// Without a target of its own a lane aims two degrees below the CPU's hot
/// threshold. `t` is any temperature.
pub proof fn lemma_fallback_is_below_the_threshold(reply: SourceReply, c: Config, t: Num)
    requires
        c.cpu_hot_c.finite() && t.finite(),
    ensures
        reply.t_star is Some ==> target_of(reply, c) == reply.t_star->0,
        reply.t_star is None && t.value() <= c.cpu_hot_c.value() - 2 * unit() ==> t.le(
            target_of(reply, c),
        ),
        reply.t_star is None && t.value() >= c.cpu_hot_c.value() - 2 * unit() ==> target_of(
            reply,
            c,
        ).le(t),
{
    lemma_constants();
    lemma_difference_side(c.cpu_hot_c, Num(FALLBACK_MARGIN_C), t);
}

/// A change of the power source, either way, makes read-backs prove nothing for
/// three seconds; a sample on the same source changes nothing of that.
pub proof fn lemma_power_change_is_let_pass(a: AutoView, on_ac: bool, t: Num, later: Num)
    requires
        t.finite() && later.finite(),
    ensures
        ({
            let r = a.powered(on_ac, t).session;
            let changed = a.session.last_on_ac is Some && a.session.last_on_ac->0 != on_ac;
            &&& r.last_on_ac == Some(on_ac)
            &&& changed ==> r.suppress_until is Some && (later.value() <= t.value() + 3 * unit()
                ==> later.le(r.suppress_until->0)) && (later.value() >= t.value() + 3 * unit()
                ==> r.suppress_until->0.le(later))
            &&& !changed ==> r.suppress_until == a.session.suppress_until
        }),
{
    reveal(AutoView::powered);
    lemma_constants();
    lemma_sum_side(t, Num(ON_AC_EDGE_SUPPRESS_S), later);
}

/// The thermal candidate of an entry is the recorded cap if there is one and a
/// draw to hold it against, else the configured maximum; raised to the draw
/// with its headroom, or to the floor without a draw, and cut to the ceiling.
pub proof fn lemma_entry_starts_over_the_draw(i: LaneInput, max: Num, b: nat)
    requires
        max.finite() && i.top.finite() && i.floor.finite() && i.headroom.finite(),
        i.draw is Some ==> i.draw->0.finite() && i.draw->0.steps() <= b,
        i.headroom.steps() <= b,
        i.warm is Some ==> i.warm->0.finite(),
        16 * b <= reach(),
    ensures
        ({
            let wanted = if i.draw is Some && i.warm is Some {
                i.warm->0.value()
            } else {
                i.top.value()
            };
            let least = if i.draw is Some {
                i.draw->0.value() + i.headroom.value()
            } else {
                i.floor.value()
            };
            let r = i.entry_thermal(max);
            &&& r.finite()
            &&& apart(r.value(), low(high(wanted, least), max.value())) <= 2 * grain(b as int)
        }),
{
    reveal(LaneInput::entry_thermal);
    let wanted = match (i.draw, i.warm) {
        (Some(_), Some(w)) => w,
        _ => i.top,
    };
    if let Some(d) = i.draw {
        lemma_steps_zero(d);
        lemma_steps_zero(i.headroom);
        lemma_plus_error(d, i.headroom);
    }
    lemma_lesser_value(wanted, i.entry_floor());
    lemma_lesser_value(wanted.greater(i.entry_floor()), max);
}

/// The target's source is asked for the fan target to the nearest RPM, told the
/// higher of the two hot thresholds and the time since the sample before, and
/// shown the fan and the holds of both devices as they are; only a fresh view
/// may qualify it.
pub proof fn lemma_source_is_asked_for_the_fan_target(
    a: AutoView,
    s: Sample,
    c: Config,
    rpm: Num,
    trusted: bool,
    cpu_group: Option<Num>,
    gpu_group: Option<Num>,
)
    requires
        rpm.finite() && 0 <= rpm.value() < 0x7fff_ffff * unit(),
        c.cpu_hot_c.finite() && c.gpu_hot_c.finite(),
    ensures
        ({
            let r = a.source_request(s, c, rpm, trusted, cpu_group, gpu_group);
            let fresh = s.fanctrl is Some && s.fanctrl_freshness == Freshness::Fresh;
            &&& 2 * apart(r.requested_rpm * unit(), rpm.value()) <= unit()
            &&& r.seed_max_c.value() == high(c.cpu_hot_c.value(), c.gpu_hot_c.value())
            &&& r.dt_s == a.session.dt_s && r.begins == !a.session.source_initialised
            &&& r.may_qualify == fresh && r.fresh_view == fresh && r.replica_reconciled == trusted
            &&& s.fan_valid ==> r.fan_rpm == Some(s.max_fan_rpm)
            &&& !s.fan_valid ==> r.fan_rpm is None
            &&& r.cpu_hold == a.cpu.facts.prior_hold && r.gpu_hold == a.gpu.facts.prior_hold
            &&& r.cpu_group_c == cpu_group && r.gpu_group_c == gpu_group
            &&& s.ec is None ==> r.argmax_lead_c == Num(ZERO)
            &&& s.ec is Some ==> r.argmax_lead_c == lead_of(s.ec->0)
        }),
{
    reveal(AutoView::source_request);
    lemma_whole_of_rounded(rpm);
    lemma_lesser_value(c.cpu_hot_c, c.gpu_hot_c);
}

} // verus!
