//! The budget integrator.

use fw_fanctrl_loop::budget::{
    Budget, Freeze, LoopError, LoopGains, WarmStart, WarmTable, DEFAULT_KC_W_PER_C,
    DEFAULT_KC_W_PER_RPM, DEFAULT_TI_S, PI_PERIOD_S, PI_PERIOD_WHOLE_S, RPM_GAIN_SCALE_FLOOR,
    SLOPE_REF_PCT_PER_C,
};
use fw_fanctrl_loop::num::Num;

fn n(x: f64) -> Num {
    Num::from_bits(x.to_bits())
}

fn f(x: Num) -> f64 {
    f64::from_bits(x.to_bits())
}

const PERIOD_S: f64 = 5.0;

fn temp(e_c: f64) -> LoopError {
    LoopError::Temp { e_c: n(e_c) }
}

#[test]
fn constants_are_the_intended_numbers() {
    assert_eq!(f64::from_bits(PI_PERIOD_S), 5.0);
    assert_eq!(PI_PERIOD_WHOLE_S, 5);
    assert_eq!(f64::from_bits(SLOPE_REF_PCT_PER_C), 1.0);
    assert_eq!(f64::from_bits(RPM_GAIN_SCALE_FLOOR), 0.25);
    assert_eq!(f64::from_bits(DEFAULT_KC_W_PER_C), 0.22);
    assert_eq!(f64::from_bits(DEFAULT_TI_S), 35.0);
    assert_eq!(f64::from_bits(DEFAULT_KC_W_PER_RPM), 0.0028);
}

#[test]
fn default_gains_are_the_theta_eff_derived_imc_defaults() {
    let g = LoopGains::default();
    assert_eq!(f(g.kc_w_per_c), 0.22);
    assert_eq!(f(g.ti_s), 35.0);
    assert_eq!(f(g.kc_w_per_rpm), 0.0028);
    assert_eq!(f(g.ti_rpm_s), 35.0);
}

/// First-order lag with dead time, discretised exactly at the tick.
struct Fopdt {
    tau_s: f64,
    k: f64,
    y: f64,
    delay: std::collections::VecDeque<f64>,
}

impl Fopdt {
    fn new(tau_s: f64, theta_s: f64, k: f64, y0: f64, u0: f64) -> Self {
        let delay_ticks = (theta_s / PERIOD_S).round() as usize;
        Self {
            tau_s,
            k,
            y: y0,
            delay: std::collections::VecDeque::from(vec![u0; delay_ticks.max(1)]),
        }
    }

    fn step(&mut self, u: f64) -> f64 {
        self.delay.push_back(u);
        let u_delayed = self.delay.pop_front().unwrap();
        let a = (-PERIOD_S / self.tau_s).exp();
        self.y = self.y * a + self.k * (1.0 - a) * u_delayed;
        self.y
    }
}

fn run_temp_closed_loop(gains: &LoopGains, setpoint: f64, ticks: usize) -> Vec<f64> {
    let mut budget = Budget::new(gains);
    budget.set_bounds(n(-1.0e6), n(1.0e6));
    let mut plant = Fopdt::new(35.0, 20.0, 0.8, 0.0, 0.0);
    let mut trace = Vec::with_capacity(ticks);
    for _ in 0..ticks {
        let e_c = setpoint - plant.y;
        let u = f(budget.step(temp(e_c), None));
        trace.push(plant.step(u));
    }
    trace
}

#[test]
fn temp_step_response_settles_within_1pct_overshoot_at_most_5pct_at_defaults() {
    let setpoint = 10.0;
    let trace = run_temp_closed_loop(&LoopGains::default(), setpoint, 600);

    let peak = trace.iter().cloned().fold(f64::MIN, f64::max);
    let overshoot_pct = ((peak - setpoint) / setpoint * 100.0).max(0.0);
    assert!(
        overshoot_pct <= 5.0,
        "overshoot {overshoot_pct:.2}% exceeds 5%: peak={peak:.4}"
    );

    let last = *trace.last().unwrap();
    let final_err_pct = ((setpoint - last).abs() / setpoint) * 100.0;
    assert!(
        final_err_pct <= 1.0,
        "final error {final_err_pct:.2}% exceeds 1%: last={last:.4}"
    );
}

#[test]
fn set_gains_changes_the_gains_the_next_step_uses() {
    let mut budget_default = Budget::new(&LoopGains::default());
    budget_default.set_bounds(n(-1.0e6), n(1.0e6));
    let u_default = budget_default.step(temp(10.0), None);

    let mut budget_changed = Budget::new(&LoopGains::default());
    budget_changed.set_bounds(n(-1.0e6), n(1.0e6));
    let mut doubled = LoopGains::default();
    doubled.kc_w_per_c = doubled.kc_w_per_c * n(2.0);
    budget_changed.set_gains(&doubled);
    let u_changed = budget_changed.step(temp(10.0), None);

    assert_ne!(u_default, u_changed);
}

#[test]
fn non_default_loop_gains_change_the_step_magnitude() {
    let default_gains = LoopGains::default();
    let mut aggressive_gains = default_gains;
    aggressive_gains.kc_w_per_c = aggressive_gains.kc_w_per_c * n(4.0);

    let mut default_budget = Budget::new(&default_gains);
    default_budget.set_bounds(n(-1.0e6), n(1.0e6));
    let mut aggressive_budget = Budget::new(&aggressive_gains);
    aggressive_budget.set_bounds(n(-1.0e6), n(1.0e6));

    let e_c = 10.0;
    let u_default = f(default_budget.step(temp(e_c), None));
    let u_aggressive = f(aggressive_budget.step(temp(e_c), None));

    assert_ne!(u_default, u_aggressive);
    assert!(u_aggressive.abs() > u_default.abs());
}

#[test]
fn clamp_holds_at_bound_without_windup_and_release_recovers_within_one_ti() {
    let gains = LoopGains::default();
    let mut budget = Budget::new(&gains);
    budget.set_bounds(n(0.0), n(10.0));

    for _ in 0..20 {
        let u = f(budget.step(temp(1000.0), None));
        assert_eq!(u, 10.0);
    }

    let ti_ticks = (f(gains.ti_s) / PERIOD_S).ceil() as usize;
    let mut off_bound_tick = None;
    for tick in 1..=ti_ticks {
        let u = f(budget.step(temp(-1000.0), None));
        if u < 10.0 - 1e-9 {
            off_bound_tick = Some(tick);
            break;
        }
    }
    assert!(
        off_bound_tick.is_some(),
        "u never left the upper bound within one Ti ({ti_ticks} ticks)"
    );
}

#[test]
fn bound_dwell_counters_track_only_their_own_bound_and_reset_off_it() {
    let mut budget = Budget::new(&LoopGains::default());
    budget.set_bounds(n(0.0), n(10.0));
    budget.seed(n(10.0));

    budget.step(temp(1000.0), None);
    assert!(budget.at_upper_bound_for() > 0);
    assert_eq!(budget.at_lower_bound_for(), 0);

    let u = f(budget.step(temp(0.0), None));
    assert!((0.0..10.0).contains(&u), "expected u inside bounds, got {u}");
    assert_eq!(budget.at_upper_bound_for(), 0);
    assert_eq!(budget.at_lower_bound_for(), 0);

    budget.seed(n(0.0));
    budget.resync_error(n(0.0));
    budget.step(temp(-1000.0), None);
    assert!(budget.at_lower_bound_for() > 0);
    assert_eq!(budget.at_upper_bound_for(), 0);
}

#[test]
fn a_hard_freeze_ends_the_dwell_at_a_bound() {
    let mut budget = Budget::new(&LoopGains::default());
    budget.set_bounds(n(0.0), n(10.0));
    budget.seed(n(10.0));
    budget.step(temp(1000.0), None);
    assert_eq!(budget.at_upper_bound_for(), 5);
    budget.step(temp(1000.0), None);
    assert_eq!(budget.at_upper_bound_for(), 10);
    budget.step(temp(1000.0), Some(Freeze::Calibrating));
    assert_eq!(budget.at_upper_bound_for(), 0);
}

#[test]
fn each_hard_freeze_reason_holds_u_exactly_across_a_step() {
    for reason in [
        Freeze::ActuatorMismatch,
        Freeze::Calibrating,
        Freeze::Released,
    ] {
        let mut budget = Budget::new(&LoopGains::default());
        budget.set_bounds(n(-1.0e6), n(1.0e6));
        budget.seed(n(5.0));
        let held = f(budget.step(temp(1000.0), Some(reason)));
        assert_eq!(held, 5.0, "{reason:?} did not hold u exactly");
        let held_again = f(budget.step(temp(-1000.0), Some(reason)));
        assert_eq!(held_again, 5.0, "{reason:?} did not hold u exactly");
    }
}

#[test]
fn leaving_a_freeze_resyncs_error_so_the_first_post_freeze_tick_has_no_kick() {
    let mut budget = Budget::new(&LoopGains::default());
    budget.set_bounds(n(-1.0e6), n(1.0e6));
    budget.seed(n(0.0));

    budget.step(temp(500.0), Some(Freeze::Calibrating));
    budget.step(temp(500.0), Some(Freeze::Calibrating));

    let gains = LoopGains::default();
    let e_c = 3.0;
    let expected_du = (f(gains.kc_w_per_c) * PERIOD_S / f(gains.ti_s)) * e_c;
    let u_before = f(budget.u);
    let u_after = f(budget.step(temp(e_c), None));
    assert!(
        (u_after - u_before - expected_du).abs() < 1e-9,
        "expected pure-integral increment {expected_du}, got {}",
        u_after - u_before
    );
}

#[test]
fn resync_error_after_setpoint_jump_produces_no_proportional_kick() {
    let mut budget = Budget::new(&LoopGains::default());
    budget.set_bounds(n(-1.0e6), n(1.0e6));
    budget.seed(n(0.0));
    budget.step(temp(2.0), None);

    let gains = LoopGains::default();
    let jumped_e_c = 50.0;
    budget.resync_error(n(jumped_e_c));
    let u_before = f(budget.u);
    let expected_du = (f(gains.kc_w_per_c) * PERIOD_S / f(gains.ti_s)) * jumped_e_c;
    let u_after = f(budget.step(temp(jumped_e_c), None));
    assert!(
        (u_after - u_before - expected_du).abs() < 1e-9,
        "expected pure-integral increment {expected_du}, got {}",
        u_after - u_before
    );
}

#[test]
fn temp_to_rpm_switch_produces_at_most_one_integral_increment() {
    let mut budget = Budget::new(&LoopGains::default());
    budget.set_bounds(n(-1.0e6), n(1.0e6));
    budget.seed(n(0.0));
    budget.step(temp(5.0), None);

    let gains = LoopGains::default();
    let e_rpm = 40.0;
    let one_integral_increment =
        (f(gains.kc_w_per_rpm) * f(budget.rpm_gain_scale) * PERIOD_S / f(gains.ti_rpm_s)) * e_rpm;

    let u_before = f(budget.u);
    let u_after = f(budget.step(LoopError::Rpm { e_rpm: n(e_rpm) }, None));
    let delta_u = (u_after - u_before).abs();
    assert!(
        delta_u <= one_integral_increment.abs() + 1e-9,
        "|delta u| {delta_u} exceeds one integral increment {one_integral_increment}"
    );
}

#[test]
fn demand_limited_halt_still_integrates_down_when_error_calls_for_less_heat() {
    let mut budget = Budget::new(&LoopGains::default());
    budget.set_bounds(n(-1.0e6), n(1.0e6));
    budget.seed(n(50.0));

    let halted = budget.set_demand_state(&[(n(30.0), n(30.0))], n(1.0));
    assert!(halted);

    let u_before = f(budget.u);
    let u_after = f(budget.step(temp(-50.0), Some(Freeze::DemandLimited)));
    assert!(
        u_after < u_before,
        "u did not integrate down under DemandLimited with a recovering error: {u_before} -> {u_after}"
    );
}

#[test]
fn demand_limited_halt_blocks_only_the_deepening_direction() {
    let mut budget = Budget::new(&LoopGains::default());
    budget.set_bounds(n(-1.0e6), n(1.0e6));
    budget.seed(n(50.0));
    budget.set_demand_state(&[(n(30.0), n(30.0))], n(1.0));

    let u_before = f(budget.u);
    let u_after = f(budget.step(temp(50.0), Some(Freeze::DemandLimited)));
    assert_eq!(u_after, u_before);
}

#[test]
fn u_never_decays_toward_the_draw_over_a_long_low_draw_hold() {
    let mut budget = Budget::new(&LoopGains::default());
    budget.set_bounds(n(-1.0e6), n(1.0e6));
    let seeded = 80.0;
    budget.seed(n(seeded));
    let draw = 20.0;

    for _ in 0..200 {
        budget.set_demand_state(&[(n(draw), n(draw))], n(1.0));
        let u = f(budget.step(temp(50.0), Some(Freeze::DemandLimited)));
        assert_eq!(u, seeded, "u decayed toward the draw: {u} (draw={draw})");
    }
}

#[test]
fn set_demand_state_judges_each_axis_separately() {
    let mut budget = Budget::new(&LoopGains::default());
    assert!(!budget.set_demand_state(&[(n(10.0), n(30.0)), (n(5.0), n(20.0))], n(1.0)));
    assert!(budget.set_demand_state(&[(n(29.0), n(30.0)), (n(0.0), n(0.0))], n(1.0)));
}

#[test]
fn set_demand_state_never_halts_the_recovering_error_sign() {
    let mut budget = Budget::new(&LoopGains::default());
    assert!(!budget.set_demand_state(&[(n(30.0), n(30.0))], n(-1.0)));
    assert!(!budget.set_demand_state(&[(n(30.0), n(30.0))], n(0.0)));
}

#[test]
fn scale_rpm_gain_returns_1x_at_slope_ref() {
    let mut budget = Budget::new(&LoopGains::default());
    let scale = f(budget.scale_rpm_gain(Some(Num::from_bits(SLOPE_REF_PCT_PER_C))));
    assert!((scale - 1.0).abs() < 1e-12);
}

#[test]
fn scale_rpm_gain_returns_quarter_x_at_four_times_slope_ref() {
    let mut budget = Budget::new(&LoopGains::default());
    let scale = f(budget.scale_rpm_gain(Some(n(4.0) * Num::from_bits(SLOPE_REF_PCT_PER_C))));
    assert!((scale - 0.25).abs() < 1e-12);
}

#[test]
fn scale_rpm_gain_returns_quarter_x_on_none() {
    let mut budget = Budget::new(&LoopGains::default());
    let scale = f(budget.scale_rpm_gain(None));
    assert!((scale - 0.25).abs() < 1e-12);
}

#[test]
fn scale_rpm_gain_halves_at_twice_slope_ref() {
    let mut budget = Budget::new(&LoopGains::default());
    assert_eq!(f(budget.scale_rpm_gain(Some(n(2.0)))), 0.5);
    assert_eq!(f(budget.scale_rpm_gain(Some(n(f64::NAN)))), 1.0);
    assert_eq!(f(budget.scale_rpm_gain(Some(n(0.0)))), 1.0);
}

#[test]
fn warm_start_key_is_stable_and_distinct_across_each_input() {
    let base = WarmStart::key("quiet16", 30, true);
    assert_eq!(base, WarmStart::key("quiet16", 30, true));

    assert_ne!(base, WarmStart::key("cool16", 30, true));
    assert_ne!(base, WarmStart::key("quiet16", 36, true));
    assert_ne!(base, WarmStart::key("quiet16", 30, false));
}

#[test]
fn warm_start_key_text() {
    assert_eq!(WarmStart::key("quiet16", 30, true), "quiet16:30:ac");
    assert_eq!(WarmStart::key("", 0, false), ":0:batt");
    assert_eq!(WarmStart::key("a:b", 255, false), "a:b:255:batt");
}

#[test]
fn warm_start_record_then_lookup_round_trips_and_a_miss_is_none() {
    let mut map = WarmTable::new();
    let key = WarmStart::key("quiet16", 30, true);
    assert_eq!(WarmStart::lookup(&map, &key), None);

    WarmStart::record(&mut map, key.clone(), n(42.5));
    assert_eq!(WarmStart::lookup(&map, &key), Some(n(42.5)));

    assert_eq!(WarmStart::lookup(&map, &"no-such-key".to_string()), None);
}

#[test]
fn warm_start_record_overwrites() {
    let mut map = WarmTable::new();
    let key = WarmStart::key("quiet16", 30, true);
    WarmStart::record(&mut map, key.clone(), n(42.5));
    WarmStart::record(&mut map, key.clone(), n(43.5));
    assert_eq!(WarmStart::lookup(&map, &key), Some(n(43.5)));
    assert_eq!(map.entries.len(), 1);
}

#[test]
fn a_switch_moves_the_budget_by_the_integral() {
    let gains = LoopGains::default();
    let mut budget = Budget::new(&gains);
    budget.set_bounds(n(0.0), n(100.0));
    budget.seed(n(50.0));
    budget.step(temp(0.0), None);
    assert_eq!(f(budget.u), 50.0);
    let scale = f(budget.rpm_gain_scale);
    let integral = f(gains.kc_w_per_rpm) * scale * PERIOD_S / f(gains.ti_rpm_s) * 400.0;
    let u = f(budget.step(LoopError::Rpm { e_rpm: n(400.0) }, None));
    assert_eq!(u, 50.0 + integral);

    // The same on leaving a freeze, and within the bounds.
    budget.seed(n(99.9));
    budget.step(temp(7.0), Some(Freeze::Calibrating));
    assert_eq!(f(budget.step(temp(1000.0), None)), 100.0);
}

#[test]
fn a_release_leaves_the_upper_bound_in_the_same_tick() {
    let mut budget = Budget::new(&LoopGains::default());
    budget.set_bounds(n(0.0), n(10.0));
    for _ in 0..50 {
        budget.step(temp(1000.0), None);
    }
    let wound = f(budget.v);
    assert!(wound > 10.0);
    let u = f(budget.step(temp(-1000.0), None));
    assert!(u < 10.0);
    assert!(f(budget.v) < wound);
}

#[test]
fn windup_levels_off_however_long_the_budget_is_pinned() {
    let gains = LoopGains::default();
    let mut budget = Budget::new(&gains);
    let hi = 10.0;
    budget.set_bounds(n(0.0), n(hi));
    budget.step(temp(1000.0), None);
    let share = PERIOD_S / f(gains.ti_s);
    let du = f(gains.kc_w_per_c) * PERIOD_S / f(gains.ti_s) * 1000.0;
    let x = hi + 1.5 * f(gains.kc_w_per_c) * 1000.0;
    let w = x + du;
    assert!(w + du + share * (hi - x) <= w);
    for _ in 0..500 {
        budget.step(temp(1000.0), None);
        assert!(f(budget.v) >= hi && f(budget.v) <= w);
    }
    let down = f(gains.kc_w_per_c) * -2000.0 - du;
    assert!(w + down < hi);
    assert!(f(budget.step(temp(-1000.0), None)) < hi);
}

#[test]
fn a_release_leaves_the_lower_bound_in_the_same_tick() {
    let mut budget = Budget::new(&LoopGains::default());
    budget.set_bounds(n(5.0), n(100.0));
    for _ in 0..200 {
        budget.step(temp(-800.0), None);
        assert_eq!(f(budget.u), 5.0);
    }
    assert!(f(budget.v) < 5.0);
    assert!(f(budget.step(temp(800.0), None)) > 5.0);
}

#[test]
fn a_switch_under_a_limited_demand_does_not_raise_the_budget() {
    let mut budget = Budget::new(&LoopGains::default());
    budget.set_bounds(n(0.0), n(100.0));
    budget.seed(n(50.0));
    budget.step(temp(0.0), None);
    let u = budget.step(LoopError::Rpm { e_rpm: n(400.0) }, Some(Freeze::DemandLimited));
    assert_eq!(f(u), 50.0);
}
