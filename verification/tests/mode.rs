//! The mode arbiter.

use fw_fanctrl_loop::budget::{Budget, LoopError, LoopGains};
use fw_fanctrl_loop::mode as mode_lib;
use fw_fanctrl_loop::mode::{CurveFacts, LoopMode, Reason, Tread, ENTRY_HYSTERESIS_TICKS};
use fw_fanctrl_loop::num::Num;
use fw_fanctrl_loop::status::StatusFlag;
use fw_fanctrl_loop::types as types_lib;
use fw_fanctrl_loop::types::{EcGroup, EcSensor, Freshness};

fn n(x: f64) -> Num {
    Num::from_bits(x.to_bits())
}

fn f(x: Num) -> f64 {
    f64::from_bits(x.to_bits())
}

const QUIET16: &[(f64, u8)] = &[
    (0.0, 15),
    (55.0, 15),
    (65.0, 21),
    (75.0, 31),
    (82.0, 37),
    (88.0, 55),
    (95.0, 100),
];
const COOL16: &[(f64, u8)] = &[(0.0, 20), (50.0, 20), (60.0, 30), (70.0, 42), (85.0, 100)];

/// A fan daemon's view in plain numbers.
#[derive(Clone)]
struct FanctrlView {
    strategy: String,
    temperature: f64,
    ma_temperature: f64,
    curve: Vec<(f64, u8)>,
}

fn view(curve: &[(f64, u8)], temperature: f64, ma_temperature: f64) -> FanctrlView {
    FanctrlView {
        strategy: "quiet16".to_string(),
        temperature,
        ma_temperature,
        curve: curve.to_vec(),
    }
}

/// Sensors by name, with the hottest one's temperature rounded as the
/// embedded controller reports it.
#[derive(Clone)]
struct EcReading(Vec<(String, f64)>);

fn ec_reading(sensors: &[(&str, f64)]) -> EcReading {
    EcReading(sensors.iter().map(|(l, c)| (l.to_string(), *c)).collect())
}

fn group(label: &str) -> EcGroup {
    if label.starts_with("ambient") {
        EcGroup::Uncontrollable
    } else {
        EcGroup::Cpu
    }
}

fn happy_ec() -> EcReading {
    ec_reading(&[("ambient_f75303@4d", 40.0), ("cpu@4c", 75.0)])
}

/// What a curve says of a duty: the centre of the temperatures that round
/// down to it, and the slope of the segment there.
fn facts(points: &[(f64, u8)], duty: u8) -> CurveFacts {
    let floor = points[0].1;
    let duty_at = |t: f64| -> f64 {
        let k = points.iter().rposition(|p| p.0 <= t).unwrap_or(0);
        if k + 1 == points.len() {
            return f64::from(points[k].1);
        }
        let ((t0, d0), (t1, d1)) = (points[k], points[k + 1]);
        f64::from(d0) + (t - t0) / (t1 - t0) * (f64::from(d1) - f64::from(d0))
    };
    let mut best: Option<(f64, f64)> = None;
    let wanted = duty.min(99);
    let mut t = 0.0;
    while t < 95.0 {
        if duty_at(t).floor() as u8 == wanted {
            best = Some((best.map_or(t, |b| b.0), t));
        }
        t += 0.125;
    }
    let tread = best.map(|(lo, hi)| {
        let t_star = (lo + hi + 0.125) / 2.0;
        let slope = (duty_at(t_star + 0.1) - duty_at(t_star - 0.1)) / 0.2;
        Tread {
            t_star: n(t_star),
            slope: n(slope),
        }
    });
    CurveFacts {
        has_tread: duty >= floor && tread.is_some(),
        tread,
        min_tread_duty: floor,
    }
}

/// An input in plain numbers.
struct Input<'a> {
    fanctrl: Option<&'a FanctrlView>,
    freshness: Freshness,
    view_changed: bool,
    ec: Option<&'a EcReading>,
    ec_ma: Option<f64>,
    fan_valid: bool,
    target_duty: u8,
    at_lower_bound_for: u64,
    at_upper_bound_for: u64,
    error_sign: f64,
    curve_valid: bool,
    replica_slope_5s_c_per_s: f64,
    view_to_sample_gap_s: f64,
}

fn happy_input<'a>(v: &'a FanctrlView, ec: &'a EcReading) -> Input<'a> {
    Input {
        fanctrl: Some(v),
        freshness: Freshness::Fresh,
        view_changed: false,
        ec: Some(ec),
        ec_ma: Some(v.ma_temperature),
        fan_valid: true,
        target_duty: 31,
        at_lower_bound_for: 0,
        at_upper_bound_for: 0,
        error_sign: 0.0,
        curve_valid: true,
        replica_slope_5s_c_per_s: 0.0,
        view_to_sample_gap_s: 0.0,
    }
}

/// A decision in plain numbers.
struct Decision {
    mode: LoopMode,
    t_star: Option<f64>,
    slope: Option<f64>,
    reasons: Vec<Reason>,
    flags: Vec<StatusFlag>,
    reseed_ma: Option<f64>,
    ec_mismatch: bool,
    t_star_changed: bool,
}

/// An arbiter driven in plain numbers.
struct Arbiter(mode_lib::Arbiter);

impl Arbiter {
    fn new() -> Self {
        Arbiter(mode_lib::Arbiter::new())
    }

    fn decide(&mut self, i: &Input) -> Decision {
        let view = i.fanctrl.map(|v| types_lib::FanctrlView {
            strategy: v.strategy.clone(),
            active: true,
            speed_pct: 31,
            ma_interval: 60,
            temperature: n(v.temperature),
            ma_temperature: n(v.ma_temperature),
            curve: v.curve.iter().map(|p| (n(p.0), p.1)).collect(),
        });
        let ec = i.ec.map(|e| {
            let hottest = e.0.iter().fold(&e.0[0], |a, b| if b.1 > a.1 { b } else { a });
            types_lib::EcReading {
                max_c: n(hottest.1.floor()),
                argmax: hottest.0.clone(),
                argmax_group: group(&hottest.0),
                reconciliation_max_c: None,
                cpu_group_c: None,
                gpu_group_c: None,
                implausible: Vec::new(),
                all: e
                    .0
                    .iter()
                    .map(|(l, c)| EcSensor {
                        label: l.clone(),
                        group: group(l),
                        c: n(*c),
                    })
                    .collect(),
            }
        });
        let d = self.0.decide(&mode_lib::ArbiterInput {
            fanctrl: view.as_ref(),
            freshness: i.freshness,
            view_changed: i.view_changed,
            ec: ec.as_ref(),
            ec_ma: i.ec_ma.map(n),
            fan_valid: i.fan_valid,
            target_duty: i.target_duty,
            at_lower_bound_for: i.at_lower_bound_for,
            at_upper_bound_for: i.at_upper_bound_for,
            error_sign: n(i.error_sign),
            curve_valid: i.curve_valid,
            resolved: i.fanctrl.map(|v| facts(&v.curve, i.target_duty)),
            replica_slope_5s_c_per_s: n(i.replica_slope_5s_c_per_s),
            view_to_sample_gap_s: n(i.view_to_sample_gap_s),
        });
        Decision {
            mode: d.mode,
            t_star: d.t_star.map(f),
            slope: d.slope.map(f),
            reasons: d.reasons,
            flags: d.flags,
            reseed_ma: d.reseed_ma.map(f),
            ec_mismatch: d.ec_mismatch,
            t_star_changed: d.t_star_changed,
        }
    }
}

/// An arbiter that has scored a matching view and then seen enough good ticks
/// to be in the temperature loop.
fn warmed_up(v: &FanctrlView, ec: &EcReading) -> Arbiter {
    let mut a = Arbiter::new();
    let mut first = happy_input(v, ec);
    first.view_changed = true;
    let d = a.decide(&first);
    assert!(
        !d.reasons.contains(&Reason::Unreconciled),
        "a scorable view reconciles on its first tick; got {:?} (mode {:?})",
        d.reasons,
        d.mode
    );
    for _ in 0..ENTRY_HYSTERESIS_TICKS {
        a.decide(&happy_input(v, ec));
    }
    a
}

#[test]
fn arbiter_constants_are_the_intended_numbers() {
    for (bits, value) in [
        (mode_lib::MISMATCH_ABS_DIFF_C, 1.0),
        (mode_lib::MA_ABS_DIFF_C, 2.0),
        (mode_lib::SKIP_SLOPE_C_PER_S, 0.5),
        (mode_lib::SKIP_GAP_S, 2.0),
        (mode_lib::ARGMAX_LEAD_C, 1.0),
        (mode_lib::FEASIBLE_MARGIN_C, 5.0),
        (mode_lib::STEEP_SLOPE_PCT_PER_C, 2.0),
        (mode_lib::NO_READING, f64::NEG_INFINITY),
    ] {
        assert_eq!(f64::from_bits(bits), value);
    }
    assert_eq!(mode_lib::FEASIBLE_CLEAR_TICKS, 12);
    assert_eq!(mode_lib::BOUND_HOLD_S, 60);
}

#[test]
fn each_row_reason_names_its_cause() {
    let v = view(QUIET16, 75.0, 75.0);
    let ec = happy_ec();
    let reason = |change: fn(&mut Input)| {
        let mut a = warmed_up(&v, &ec);
        let mut i = happy_input(&v, &ec);
        change(&mut i);
        a.decide(&i).reasons.last().copied()
    };
    assert_eq!(reason(|_| {}), None);
    assert_eq!(
        reason(|i| i.freshness = Freshness::Stale),
        Some(Reason::FanctrlLost)
    );
    assert_eq!(reason(|i| i.fanctrl = None), Some(Reason::FanctrlInactive));
    assert_eq!(reason(|i| i.ec = None), Some(Reason::EcInvalid));
    assert_eq!(reason(|i| i.target_duty = 5), Some(Reason::Infeasible));
    assert_eq!(
        reason(|i| i.curve_valid = false),
        Some(Reason::CurveInvalid)
    );
}

#[test]
fn without_a_fan_the_released_mode_reports_a_lost_sensor() {
    let v = view(QUIET16, 75.0, 75.0);
    let ec = happy_ec();
    let mut a = Arbiter::new();
    let mut i = happy_input(&v, &ec);
    i.fan_valid = false;
    let d = a.decide(&i);
    assert_eq!(d.mode, LoopMode::Released);
    assert!(d.flags.contains(&StatusFlag::SensorLost));
}

#[test]
fn a_flag_raised_twice_in_a_row_is_kept_once() {
    let v = view(QUIET16, 75.0, 75.0);
    let ec = happy_ec();
    let mut a = Arbiter::new();
    let mut i = happy_input(&v, &ec);
    i.target_duty = 5;
    i.at_lower_bound_for = 60;
    i.error_sign = -1.0;
    let d = a.decide(&i);
    assert_eq!(d.flags, vec![StatusFlag::TargetUnreachable]);
}

// table-driven test, one case per row
#[test]
fn table_driven_row_selection() {
    let v = view(QUIET16, 75.0, 75.0);
    let ec = happy_ec();

    struct Case {
        name: &'static str,
        mutate: fn(&mut Input),
        want: LoopMode,
    }
    let cases = [
        Case {
            name: "TempLoop: every condition satisfied",
            mutate: |_| {},
            want: LoopMode::TempLoop,
        },
        Case {
            name: "RpmLoop: fan_valid alone, TempLoop preconditions broken",
            mutate: |i| i.curve_valid = false,
            want: LoopMode::RpmLoop,
        },
        Case {
            name: "Released: nothing to close a loop on",
            mutate: |i| {
                i.curve_valid = false;
                i.fan_valid = false;
            },
            want: LoopMode::Released,
        },
    ];

    for case in cases {
        let mut a = warmed_up(&v, &ec);
        let mut input = happy_input(&v, &ec);
        (case.mutate)(&mut input);
        let d = a.decide(&input);
        assert_eq!(d.mode, case.want, "row case: {}", case.name);
    }
}

// 3-tick entry hysteresis, immediate exit
#[test]
fn entry_hysteresis_needs_three_ticks_exit_is_immediate() {
    let v = view(QUIET16, 75.0, 75.0);
    let ec = happy_ec();
    let mut a = Arbiter::new();

    let mut first = happy_input(&v, &ec);
    first.view_changed = true;
    assert_eq!(a.decide(&first).mode, LoopMode::RpmLoop, "tick 1 of 3");
    assert_eq!(
        a.decide(&happy_input(&v, &ec)).mode,
        LoopMode::RpmLoop,
        "tick 2 of 3"
    );
    assert_eq!(
        a.decide(&happy_input(&v, &ec)).mode,
        LoopMode::TempLoop,
        "tick 3 of 3 enters"
    );

    // Immediate exit on a hard fault (freshness lost) — no grace.
    let mut faulted = happy_input(&v, &ec);
    faulted.freshness = Freshness::Absent;
    assert_eq!(
        a.decide(&faulted).mode,
        LoopMode::RpmLoop,
        "hard fault exits the same tick"
    );

    // Re-entry needs a fresh 3-tick climb.
    assert_eq!(a.decide(&happy_input(&v, &ec)).mode, LoopMode::RpmLoop);
    assert_eq!(a.decide(&happy_input(&v, &ec)).mode, LoopMode::RpmLoop);
    assert_eq!(a.decide(&happy_input(&v, &ec)).mode, LoopMode::TempLoop);
}

// three mismatches -> RpmLoop, three matches -> TempLoop
#[test]
fn three_mismatches_drop_to_rpmloop_three_matches_recover_with_reseed() {
    let v = view(QUIET16, 75.0, 75.0);
    let ec = happy_ec();
    let mut a = warmed_up(&v, &ec);
    assert_eq!(
        a.decide(&happy_input(&v, &ec)).mode,
        LoopMode::TempLoop,
        "precondition: stably in TempLoop"
    );

    let mismatched_view = view(QUIET16, 90.0, 90.0); // replica (75C) vs view (90C): |diff| > 1
    let mut mismatch_input = happy_input(&mismatched_view, &ec);
    mismatch_input.view_changed = true;

    let d1 = a.decide(&mismatch_input);
    assert!(!d1.ec_mismatch, "one mismatch does not latch");
    let d2 = a.decide(&mismatch_input);
    assert!(!d2.ec_mismatch, "two mismatches do not latch");
    let d3 = a.decide(&mismatch_input);
    assert!(d3.ec_mismatch, "third mismatch latches EC MISMATCH");
    assert_eq!(
        d3.mode,
        LoopMode::RpmLoop,
        "latched mismatch forces RpmLoop"
    );

    // Now three consecutive matching views clear it.
    let matched_view = view(QUIET16, 75.0, 75.0); // matches happy_ec's cpu argmax (75C)
    let mut match_input = happy_input(&matched_view, &ec);
    match_input.view_changed = true;
    let d1 = a.decide(&match_input);
    assert!(d1.ec_mismatch, "one match does not clear the latch");
    let d2 = a.decide(&match_input);
    assert!(d2.ec_mismatch, "two matches do not clear the latch");
    let d3 = a.decide(&match_input);
    assert!(!d3.ec_mismatch, "third match clears EC MISMATCH");
    assert_eq!(
        d3.reseed_ma,
        Some(75.0),
        "clearing sets reseed_ma from the view's ma_temperature"
    );
    assert_eq!(
        d3.mode,
        LoopMode::TempLoop,
        "the same tick the latch clears, TempLoop is reachable again"
    );
}

// skip rule
#[test]
fn skip_rule_ignores_a_view_when_slope_or_gap_is_too_high() {
    let v = view(QUIET16, 75.0, 75.0);
    let ec = happy_ec();
    let mismatched_view = view(QUIET16, 90.0, 90.0);

    // Fast-moving replica: skipped, not scored.
    let mut a = Arbiter::new();
    let mut input = happy_input(&mismatched_view, &ec);
    input.view_changed = true;
    input.replica_slope_5s_c_per_s = 0.5; // at the threshold: not scorable
    let d = a.decide(&input);
    assert!(
        d.reasons.contains(&Reason::Unreconciled),
        "a skipped view must not advance `reconciled`"
    );
    assert!(!d.ec_mismatch);

    // Stale gap: also skipped.
    let mut a2 = Arbiter::new();
    let mut input2 = happy_input(&mismatched_view, &ec);
    input2.view_changed = true;
    input2.view_to_sample_gap_s = 2.0; // at the threshold: not scorable
    let d2 = a2.decide(&input2);
    assert!(d2.reasons.contains(&Reason::Unreconciled));
    assert!(!d2.ec_mismatch);

    // Sanity: the same mismatched view, scorable, does score.
    let mut a3 = Arbiter::new();
    let mut input3 = happy_input(&mismatched_view, &ec);
    input3.view_changed = true;
    let d3 = a3.decide(&input3);
    assert!(!d3.reasons.contains(&Reason::Unreconciled));
    let _ = (v, d3);
}

// moving-average check: re-seed, not a latch
#[test]
fn ma_check_failing_three_times_requests_reseed_without_latching_mismatch() {
    let v = view(QUIET16, 75.0, 75.0);
    let matched_view = view(QUIET16, 75.0, 90.0); // max_c matches (75C), ma_temperature diverges
    let ec = happy_ec();
    let mut a = Arbiter::new();

    let mut input = happy_input(&matched_view, &ec);
    input.view_changed = true;
    input.ec_ma = Some(75.0); // |75 - 90| > 2: MA check fails

    let d1 = a.decide(&input);
    assert_eq!(
        d1.reseed_ma, None,
        "one failure does not yet request a reseed"
    );
    assert!(!d1.ec_mismatch);
    let d2 = a.decide(&input);
    assert_eq!(
        d2.reseed_ma, None,
        "two failures do not yet request a reseed"
    );
    assert!(!d2.ec_mismatch);
    let d3 = a.decide(&input);
    assert_eq!(
        d3.reseed_ma,
        Some(90.0),
        "third failure requests a reseed from the view's ma_temperature"
    );
    assert!(!d3.ec_mismatch, "the MA check never latches EC MISMATCH");
    let _ = v;
}

// infeasible target: TargetUnreachable, 60s clear
#[test]
fn infeasible_target_yields_target_unreachable_and_clears_after_60s() {
    // ambient at 61C (argmax; cpu at 20C stays controllable) and an
    // interior target duty of 21 -> T*=65.5 (quiet16's tread(21) is
    // (65, 66)); 65.5 < 61 + 5, so this is
    // genuinely infeasible.
    let ec = ec_reading(&[("ambient_f75303@4d", 61.0), ("cpu@4c", 20.0)]);
    let infeasible_target_view = view(QUIET16, 20.0, 20.0);
    let mut a = Arbiter::new();
    let mut input = happy_input(&infeasible_target_view, &ec);
    input.target_duty = 21;
    input.view_changed = true;

    let d = a.decide(&input);
    assert!(
        d.flags.contains(&StatusFlag::TargetUnreachable),
        "flags: {:?}",
        d.flags
    );
    assert!(
        d.reasons.iter().any(|r| matches!(r, Reason::TooCold { .. })),
        "explanatory text present: {:?}",
        d.reasons
    );

    // Feed feasible ticks; the flag must still be present before 12
    // ticks (60s) and gone at/after 12.
    let ok_ec = ec_reading(&[("ambient_f75303@4d", 10.0), ("cpu@4c", 60.0)]);
    let mut ok_input = happy_input(&infeasible_target_view, &ok_ec);
    ok_input.target_duty = 31; // a tread whose T*=80 clears 10+5 easily
    for i in 0..11 {
        let d = a.decide(&ok_input);
        assert!(
            d.flags.contains(&StatusFlag::TargetUnreachable),
            "flag must still be latched at tick {i}"
        );
    }
    let d = a.decide(&ok_input);
    assert!(
        !d.flags.contains(&StatusFlag::TargetUnreachable),
        "flag clears once feasible for 60s continuously"
    );
}

// `low`: sub-floor duty, and the 60s bound-hold
#[test]
fn low_reason_from_subfloor_duty_and_from_60s_at_the_lower_bound() {
    let v = view(QUIET16, 75.0, 75.0);
    let ec = happy_ec();

    let mut a = Arbiter::new();
    let mut input = happy_input(&v, &ec);
    input.target_duty = 5; // below quiet16's floor duty (15)
    let d = a.decide(&input);
    assert!(d.flags.contains(&StatusFlag::TargetUnreachable));
    assert!(d.t_star.is_none());
    assert!(
        d.reasons.contains(&Reason::BelowFloor { duty: 5, floor: 15 }),
        "{:?}",
        d.reasons
    );

    let mut a2 = Arbiter::new();
    let mut input2 = happy_input(&v, &ec);
    input2.at_lower_bound_for = 60;
    input2.error_sign = -1.0;
    let d2 = a2.decide(&input2);
    assert!(d2.flags.contains(&StatusFlag::TargetUnreachable));
    assert!(
        d2.reasons.contains(&Reason::HeldAtFloor { secs: 60 }),
        "{:?}",
        d2.reasons
    );

    // Just under 60s, or a non-negative error: no flag from this rule.
    let mut a3 = Arbiter::new();
    let mut input3 = happy_input(&v, &ec);
    input3.at_lower_bound_for = 59;
    input3.error_sign = -1.0;
    assert!(
        !a3.decide(&input3)
            .flags
            .contains(&StatusFlag::TargetUnreachable)
    );
}

// `high`: 60s at the upper bound
#[test]
fn high_reason_from_60s_at_the_upper_bound() {
    let v = view(QUIET16, 75.0, 75.0);
    let ec = happy_ec();
    let mut a = Arbiter::new();
    let mut input = happy_input(&v, &ec);
    input.at_upper_bound_for = 60;
    input.error_sign = 1.0;
    let d = a.decide(&input);
    assert!(d.flags.contains(&StatusFlag::TargetUnreachable));
    assert!(
        d.reasons.iter().any(|r| matches!(r, Reason::HeldAtCeiling { .. })),
        "{:?}",
        d.reasons
    );

    let mut a2 = Arbiter::new();
    let mut input2 = happy_input(&v, &ec);
    input2.at_upper_bound_for = 60;
    input2.error_sign = -1.0; // error no longer calls for more heat
    assert!(
        !a2.decide(&input2)
            .flags
            .contains(&StatusFlag::TargetUnreachable)
    );
}

// debounced argmax-controllable
#[test]
fn argmax_debounce_needs_three_failures_or_a_one_degree_lead() {
    let v = view(QUIET16, 75.0, 75.0);
    let happy = happy_ec(); // controllable argmax: warms up cleanly
    // ambient leads cpu by 0.5C once substituted in: uncontrollable
    // argmax, but too small a lead to be decisive on its own.
    let noisy_ec = ec_reading(&[("ambient_f75303@4d", 60.5), ("cpu@4c", 60.0)]);

    let mut a = warmed_up(&v, &happy);
    assert_eq!(a.decide(&happy_input(&v, &happy)).mode, LoopMode::TempLoop);

    let mut input = happy_input(&v, &happy);
    input.ec = Some(&noisy_ec);
    assert_eq!(
        a.decide(&input).mode,
        LoopMode::TempLoop,
        "1 of 3: not enough to drop TempLoop"
    );
    assert_eq!(
        a.decide(&input).mode,
        LoopMode::TempLoop,
        "2 of 3: still not enough"
    );
    assert_eq!(
        a.decide(&input).mode,
        LoopMode::RpmLoop,
        "3 of 3: drops TempLoop"
    );

    // A large lead (>1C) is decisive on a single tick.
    let leading_ec = ec_reading(&[("ambient_f75303@4d", 70.0), ("cpu@4c", 60.0)]);
    let mut a2 = warmed_up(&v, &happy);
    assert_eq!(a2.decide(&happy_input(&v, &happy)).mode, LoopMode::TempLoop);
    let mut lead_input = happy_input(&v, &happy);
    lead_input.ec = Some(&leading_ec);
    assert_eq!(
        a2.decide(&lead_input).mode,
        LoopMode::RpmLoop,
        "a >1C lead drops TempLoop on the very first failing tick"
    );
}

// FanctrlLost clears on the first fresh view
#[test]
fn fanctrl_lost_clears_on_the_first_fresh_view() {
    let v = view(QUIET16, 75.0, 75.0);
    let ec = happy_ec();
    let mut a = Arbiter::new();

    let mut absent = happy_input(&v, &ec);
    absent.freshness = Freshness::Absent;
    let d = a.decide(&absent);
    assert!(d.flags.contains(&StatusFlag::FanctrlLost));

    let d2 = a.decide(&happy_input(&v, &ec)); // freshness: Fresh
    assert!(
        !d2.flags.contains(&StatusFlag::FanctrlLost),
        "clears the same tick freshness returns to Fresh"
    );
}

// steep curve, and curve_valid:false never claims steep
#[test]
fn cool16_steep_tread_raises_steep_curve() {
    let v = view(COOL16, 75.0, 75.0);
    let ec = ec_reading(&[("ambient_f75303@4d", 40.0), ("cpu@4c", 75.0)]);
    let mut a = Arbiter::new();
    let mut input = happy_input(&v, &ec);
    // duty 90 sits strictly inside the 70->85 segment (slope
    // (100-42)/15 ≈ 3.87 %/°C); duty 100 is the curve's own ceiling,
    // whose tread is unbounded above and would resolve to the flat
    // clamp's 0 slope instead of the segment's.
    input.target_duty = 90;
    let d = a.decide(&input);
    assert!(d.flags.contains(&StatusFlag::SteepCurve), "{:?}", d.flags);
    assert!(d.slope.unwrap() > 2.0);
}

#[test]
fn curve_invalid_yields_rpmloop_curve_invalid_slope_none_never_steep_curve() {
    let v = view(COOL16, 75.0, 75.0); // same steep points as above
    let ec = ec_reading(&[("ambient_f75303@4d", 40.0), ("cpu@4c", 75.0)]);
    let mut a = Arbiter::new();
    let mut input = happy_input(&v, &ec);
    input.target_duty = 100;
    input.curve_valid = false;

    let d = a.decide(&input);
    assert_eq!(d.mode, LoopMode::RpmLoop);
    assert!(d.flags.contains(&StatusFlag::CurveInvalid));
    assert_eq!(d.slope, None);
    assert!(
        !d.flags.contains(&StatusFlag::SteepCurve),
        "curve_valid: false must never claim SteepCurve: {:?}",
        d.flags
    );
}

// initial state: unreconciled, distinct from a mismatch
#[test]
fn initial_state_reports_unreconciled_distinct_from_mismatch() {
    let v = view(QUIET16, 75.0, 75.0);
    let ec = happy_ec();
    let mut a = Arbiter::new();
    let d = a.decide(&happy_input(&v, &ec)); // no view_changed yet: never scored
    assert!(d.reasons.contains(&Reason::Unreconciled));
    assert!(
        !d.reasons.contains(&Reason::EcMismatch),
        "unreconciled and mismatch are distinct reasons: {:?}",
        d.reasons
    );
    assert!(!d.ec_mismatch, "never latched, just never yet compared");
}

// point-keyed cache: same-name edit re-derives T*
#[test]
fn same_name_points_edit_rederives_t_star_and_sets_t_star_changed() {
    let v1 = view(QUIET16, 75.0, 75.0);
    let ec = happy_ec();
    let mut a = Arbiter::new();

    let d1 = a.decide(&happy_input(&v1, &ec));
    assert!(d1.t_star_changed, "first derivation always changes t_star");
    let t_star_before = d1.t_star.expect("quiet16 duty 31 has a tread");

    let d2 = a.decide(&happy_input(&v1, &ec));
    assert!(
        !d2.t_star_changed,
        "same points, same duty: cached, no change"
    );
    assert_eq!(d2.t_star, Some(t_star_before));

    // Edit the tread that covers duty 31 in place, keeping the name.
    let mut edited_points = QUIET16.to_vec();
    for p in &mut edited_points {
        if p.0 == 75.0 {
            p.0 = 78.0; // shifts the tread bracketing duty 31
        }
    }
    let v2 = view(&edited_points, 75.0, 75.0); // same strategy name ("quiet16")
    assert_eq!(v1.strategy, v2.strategy);

    let d3 = a.decide(&happy_input(&v2, &ec));
    assert!(
        d3.t_star_changed,
        "an in-place points edit under the same name must re-derive"
    );
    assert_ne!(
        d3.t_star, d1.t_star,
        "the edited tread moves T* for the same target duty"
    );
}

// curve/arbiter seam: t_star must never be ±inf
#[test]
fn arbiter_keeps_u_finite_at_floor_and_ceiling_duty() {
    // The target is finite at both ends of the curve, so the budget is too.
    let v = view(QUIET16, 75.0, 75.0);
    let ec = happy_ec();

    for &target in &[15u8, 100u8] {
        let mut a = Arbiter::new();
        let mut budget = Budget::new(&LoopGains::default());
        budget.set_bounds(n(10.0), n(60.0));
        let mut input = happy_input(&v, &ec);
        input.target_duty = target;

        for tick in 1..=5 {
            let d = a.decide(&input);
            let ts = d
                .t_star
                .unwrap_or_else(|| panic!("duty {target} tick {tick}: t_star is None"));
            let u = f(budget.step(LoopError::Temp { e_c: n(ts) }, None));
            assert!(
                u.is_finite(),
                "duty {target} tick {tick}: u = {u} is not finite (t_star was {ts})"
            );
        }
    }
}

#[test]
fn ceiling_target_unreachable_high_after_60s_pinned_at_the_upper_bound() {
    // The "unreachable from above" rule reads the budget's own dwell and
    // the tick's error sign, not the target, so it works at the curve's
    // ceiling duty like anywhere else.
    // A real Budget, driven by an error that keeps calling for more
    // heat every tick, actually saturates at `hi` and stays there.
    let mut budget = Budget::new(&LoopGains::default());
    budget.set_bounds(n(10.0), n(60.0));
    for _ in 0..12 {
        let u = f(budget.step(LoopError::Temp { e_c: n(1000.0) }, None));
        assert_eq!(
            u, 60.0,
            "u must be pinned at hi while the error keeps calling for more heat"
        );
    }
    let dwell = budget.at_upper_bound_for();
    assert!(dwell >= 60, "dwell: {dwell:?}");

    let v = view(QUIET16, 75.0, 75.0);
    let ec = happy_ec();
    let mut a = Arbiter::new();
    let mut input = happy_input(&v, &ec);
    input.target_duty = 100; // curve ceiling
    input.at_upper_bound_for = dwell;
    input.error_sign = 1.0; // still calling for more heat

    let d = a.decide(&input);
    assert!(
        d.flags.contains(&StatusFlag::TargetUnreachable),
        "{:?}",
        d.flags
    );
    assert!(
        d.reasons.iter().any(|r| matches!(r, Reason::HeldAtCeiling { .. })),
        "{:?}",
        d.reasons
    );
    // Even at the ceiling duty the target is a finite number.
    assert!(d.t_star.is_some_and(f64::is_finite), "{:?}", d.t_star);
}

#[test]
fn the_target_changes_with_the_curve_and_the_duty_alone() {
    let v = view(QUIET16, 75.0, 75.0);
    let ec = happy_ec();
    let mut a = Arbiter::new();
    let first = a.decide(&happy_input(&v, &ec));
    assert!(first.t_star_changed);
    for _ in 0..4 {
        let again = a.decide(&happy_input(&v, &ec));
        assert!(!again.t_star_changed);
        assert_eq!(again.t_star, first.t_star);
    }
    let mut other = happy_input(&v, &ec);
    other.target_duty += 1;
    assert!(a.decide(&other).t_star_changed);
    assert!(!a.decide(&other).t_star_changed);
    let mut invalid = happy_input(&v, &ec);
    invalid.curve_valid = false;
    assert!(a.decide(&invalid).t_star_changed);
    assert!(a.decide(&happy_input(&v, &ec)).t_star_changed);
}
