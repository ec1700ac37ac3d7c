//! The loop of one device.

use fw_fanctrl_loop::device_loop as device;
use fw_fanctrl_loop::device_loop::{
    ActuatorState, DeviceUnit, Hold, Mhz, Selected, ThermalMode, CPU_BASE_DELAY_S, CPU_FALL_RATE,
    CPU_GRID, CPU_HOT_HEADROOM, CPU_PLANT_GAIN, CPU_RISE_RATE, CPU_TAU_S, DRAW_HISTORY_S,
    GPU_BASE_DELAY_S, GPU_GRID, GPU_HOT_HEADROOM, GPU_PLANT_GAIN, GPU_SHADOW_RISE_RATE,
    GPU_SLEW_RATE, GPU_TAU_S, GROUP_UNAVAILABLE_DWELL_S, LAMBDA_DELAYS, MAX_DT_S,
    MAX_PI_ELAPSED_S, MIN_LAMBDA_S, PI_PERIOD_S, W,
};
use fw_fanctrl_loop::num::Num;

fn n(x: f64) -> Num {
    Num::from_bits(x.to_bits())
}

fn f(x: Num) -> f64 {
    f64::from_bits(x.to_bits())
}

fn opt(x: Option<f64>) -> Option<Num> {
    x.map(n)
}

/// Gains in plain numbers.
#[derive(Clone, Copy, Debug, PartialEq)]
struct Gains {
    kc: f64,
    ti_s: f64,
}

impl Gains {
    fn bits(self) -> device::Gains {
        device::Gains {
            kc: n(self.kc),
            ti_s: n(self.ti_s),
        }
    }
}

fn default_gains<U: DeviceUnit>(ma_interval: u32) -> Gains {
    let g = device::default_gains::<U>(ma_interval);
    Gains {
        kc: f(g.kc),
        ti_s: f(g.ti_s),
    }
}

/// An input in plain numbers.
#[derive(Clone, Copy)]
struct TickInput {
    t_star: f64,
    group_c: Option<f64>,
    draw: Option<f64>,
    floor: f64,
    max: f64,
    mode: ThermalMode,
    actuator: ActuatorState,
    dt_s: f64,
    resumed: bool,
    delta_tstar: f64,
    shadow_headroom: f64,
    shadow_fall_rate: f64,
    shadow_enabled: bool,
}

/// A decision in plain numbers.
struct Decision {
    thermal: f64,
    shadow: f64,
    cap: f64,
    selected: Selected,
    hold: Hold,
    write_allowed: bool,
    group_lost: bool,
    write_immediately: bool,
}

/// A loop driven in plain numbers.
struct DeviceLoop<U: DeviceUnit>(device::DeviceLoop<U>);

impl<U: DeviceUnit> DeviceLoop<U> {
    fn new(gains: Gains) -> Self {
        DeviceLoop(device::DeviceLoop::new(gains.bits()))
    }

    fn set_gains(&mut self, gains: Gains) {
        self.0.set_gains(gains.bits());
    }

    fn seed(&mut self, cap: f64, error: f64) {
        self.0.seed(n(cap), n(error));
    }

    fn seed_candidates(&mut self, thermal: f64, shadow: f64, applied: Option<f64>, error: f64) {
        self.0
            .seed_candidates(n(thermal), n(shadow), opt(applied), n(error));
    }

    fn transfer_thermal(&mut self, cap: f64, error: f64) {
        self.0.transfer_thermal(n(cap), n(error));
    }

    fn transfer_shadow(&mut self, cap: f64) {
        self.0.transfer_shadow(n(cap));
    }

    fn resync_error(&mut self, error: f64) {
        self.0.resync_error(n(error));
    }

    fn note_applied(&mut self, cap: f64) {
        self.0.note_applied(n(cap));
    }

    fn thermal(&self) -> f64 {
        f(self.0.thermal())
    }

    fn requested(&self) -> Option<f64> {
        self.0.requested().map(f)
    }

    fn tick(&mut self, i: TickInput) -> Decision {
        let d = self.0.tick(device::TickInput {
            t_star: n(i.t_star),
            group_c: opt(i.group_c),
            draw: opt(i.draw),
            floor: n(i.floor),
            max: n(i.max),
            mode: i.mode,
            actuator: i.actuator,
            dt_s: n(i.dt_s),
            resumed: i.resumed,
            delta_tstar: n(i.delta_tstar),
            shadow_headroom: n(i.shadow_headroom),
            shadow_fall_rate: n(i.shadow_fall_rate),
            shadow_enabled: i.shadow_enabled,
        });
        Decision {
            thermal: f(d.thermal),
            shadow: f(d.shadow),
            cap: f(d.cap),
            selected: d.selected,
            hold: d.hold,
            write_allowed: d.write_allowed,
            group_lost: d.group_lost,
            write_immediately: d.write_immediately,
        }
    }
}

fn select_candidates(thermal: f64, shadow: f64, floor: f64, max: f64) -> (f64, Selected) {
    let (cap, selected) = device::select_candidates(n(thermal), n(shadow), n(floor), n(max));
    (f(cap), selected)
}

#[test]
fn device_constants_are_the_intended_numbers() {
    for (bits, value) in [
        (CPU_TAU_S, 35.0),
        (CPU_PLANT_GAIN, 0.8),
        (CPU_BASE_DELAY_S, 20.0),
        (CPU_GRID, 0.5),
        (CPU_RISE_RATE, 10.0),
        (CPU_FALL_RATE, f64::INFINITY),
        (CPU_HOT_HEADROOM, 2.0),
        (GPU_TAU_S, 32.564_086_253_945_035),
        (GPU_PLANT_GAIN, 0.009_527_650_224_779_704),
        (GPU_BASE_DELAY_S, 38.451_542_929_544_05 - 30.0),
        (GPU_GRID, 1.0),
        (GPU_SLEW_RATE, 105.0),
        (GPU_HOT_HEADROOM, 100.0),
        (GPU_SHADOW_RISE_RATE, 300.0),
        (MIN_LAMBDA_S, 90.0),
        (LAMBDA_DELAYS, 3.0),
        (PI_PERIOD_S, 5.0),
        (GROUP_UNAVAILABLE_DWELL_S, 60.0),
        (MAX_DT_S, 2.0),
        (MAX_PI_ELAPSED_S, 7.0),
        (DRAW_HISTORY_S, 5.0),
    ] {
        assert_eq!(f64::from_bits(bits), value);
    }
}

#[test]
fn gains_are_valid_only_if_finite_and_positive() {
    assert!(Gains { kc: 1.0, ti_s: 1.0 }.bits().is_valid());
    for (kc, ti_s) in [(0.0, 1.0), (1.0, 0.0), (-1.0, 1.0), (f64::NAN, 1.0), (1.0, f64::INFINITY)] {
        assert!(!Gains { kc, ti_s }.bits().is_valid());
    }
}

#[test]
fn reset_engagement_keeps_only_the_gains() {
    let mut loop_ = DeviceLoop::<W>::new(Gains { kc: 2.0, ti_s: 9.0 });
    loop_.seed(50.0, 1.0);
    loop_.tick(input(Some(60.0), 1.0));
    loop_.0.reset_engagement();
    assert_eq!(loop_.0.state.gains, Gains { kc: 2.0, ti_s: 9.0 }.bits());
    assert_eq!(loop_.requested(), None);
    assert_eq!(loop_.thermal(), 0.0);
    assert!(!loop_.0.state.bounds_initialised);
    assert!(loop_.0.recent_draw.is_empty());
}

#[test]
fn a_cap_never_leaves_its_bounds() {
    let mut loop_ = DeviceLoop::<W>::new(Gains { kc: 3.0, ti_s: 5.0 });
    loop_.seed(50.0, 0.0);
    for k in 0..400 {
        let mut tick = input(Some(70.0 + 25.0 * ((k * 7) as f64).sin()), 1.0);
        tick.floor = 10.0 + (k % 5) as f64;
        tick.max = 60.0 + (k % 11) as f64;
        tick.draw = if k % 9 == 0 { None } else { Some(20.0 + (k % 40) as f64) };
        tick.shadow_enabled = k % 13 != 0;
        let d = loop_.tick(tick);
        assert!(d.cap >= tick.floor && d.cap <= tick.max);
        loop_.note_applied(d.cap);
    }
}

#[test]
fn a_guard_ceiling_lowers_the_request_but_not_the_record() {
    let mut loop_ = DeviceLoop::<W>::new(Gains { kc: 1.0, ti_s: 10.0 });
    loop_.seed(80.0, 0.0);
    assert!(loop_.0.clamp_max(n(60.0)));
    assert_eq!(loop_.requested(), Some(60.0));
    assert_eq!(loop_.thermal(), 60.0);
    assert_eq!(loop_.0.state.last_applied, Some(n(80.0)));
    assert!(!loop_.0.clamp_max(n(f64::NAN)));
    assert!(!loop_.0.clamp_max(n(90.0)));
    assert_eq!(loop_.0.state.max, n(90.0));
}

#[test]
fn an_initial_shadow_ends_the_draw_outage() {
    let mut loop_ = DeviceLoop::<W>::new(Gains { kc: 1.0, ti_s: 10.0 });
    loop_.0.state.draw_missing = true;
    loop_.0.state.draw_missing_s = n(4.0);
    loop_.0.seed_initial_shadow(n(33.0));
    assert_eq!(f(loop_.0.state.shadow), 33.0);
    assert!(!loop_.0.state.draw_missing);
    assert_eq!(f(loop_.0.state.draw_missing_s), 0.0);
}

fn close(actual: f64, expected: f64) {
    assert!(
        (actual - expected).abs() < 1e-9,
        "expected {expected}, got {actual}"
    );
}

#[test]
fn live_interval_changes_cpu_and_gpu_imc_defaults() {
    let cpu_60 = default_gains::<W>(60);
    close(cpu_60.ti_s, 35.0);
    close(cpu_60.kc, 0.21875);

    let gpu_60 = default_gains::<Mhz>(60);
    close(gpu_60.ti_s, 32.564_086_253_945_035);
    close(gpu_60.kc, 22.221_804_817_775_82);

    assert_ne!(default_gains::<W>(20).kc, cpu_60.kc);
    assert_ne!(default_gains::<Mhz>(20).kc, gpu_60.kc);
}

fn input(group_c: Option<f64>, dt_s: f64) -> TickInput {
    TickInput {
        t_star: 70.0,
        group_c,
        draw: Some(40.0),
        floor: 10.0,
        max: 100.0,
        mode: ThermalMode::Regulate,
        actuator: ActuatorState::Verified,
        dt_s,
        resumed: false,
        delta_tstar: 0.0,
        shadow_headroom: 10.0,
        shadow_fall_rate: 0.33,
        shadow_enabled: false,
    }
}

#[test]
fn elapsed_cadence_runs_once_at_five_seconds_and_bounds_backlog() {
    let mut loop_ = DeviceLoop::<W>::new(Gains {
        kc: 1.0,
        ti_s: 10.0,
    });
    loop_.seed(50.0, 0.0);

    for dt in [1.0, 0.4, 1.6] {
        close(loop_.tick(input(Some(60.0), dt)).thermal, 50.0);
    }
    close(loop_.tick(input(Some(60.0), 2.0)).thermal, 65.0);

    let mut bounded = DeviceLoop::<W>::new(Gains {
        kc: 1.0,
        ti_s: 10.0,
    });
    bounded.seed(50.0, 10.0);
    for dt in [-1.0, f64::NAN, f64::INFINITY] {
        close(bounded.tick(input(Some(60.0), dt)).thermal, 50.0);
    }
    close(bounded.tick(input(Some(60.0), 100.0)).thermal, 50.0);
    close(bounded.tick(input(Some(60.0), 100.0)).thermal, 50.0);
    // A third backlogged sample reaches the cadence, but at most 2 s was
    // credited to each sample: 50 + 1*6/10*10.
    close(bounded.tick(input(Some(60.0), 100.0)).thermal, 56.0);
}

#[test]
fn clamp_suppression_updates_previous_error_and_allows_unwind() {
    let gains = Gains {
        kc: 1.0,
        ti_s: 10.0,
    };
    let mut low = DeviceLoop::<W>::new(gains);
    low.seed(10.0, 0.0);
    for dt in [2.0, 2.0, 1.0] {
        low.tick(input(Some(80.0), dt));
    }
    close(low.thermal(), 10.0);
    for dt in [2.0, 2.0, 1.0] {
        low.tick(input(Some(68.0), dt));
    }
    // e_prev was updated to -10 at the floor: reversing to +2 retains
    // the +12 proportional unwind instead of treating the old error as 0.
    close(low.thermal(), 23.0);

    let mut high = DeviceLoop::<W>::new(gains);
    high.seed(100.0, 0.0);
    for dt in [2.0, 2.0, 1.0] {
        high.tick(input(Some(60.0), dt));
    }
    close(high.thermal(), 100.0);
    for dt in [2.0, 2.0, 1.0] {
        high.tick(input(Some(72.0), dt));
    }
    close(high.thermal(), 87.0);
}

#[test]
fn coincident_target_and_measurement_changes_keep_measurement_p_term() {
    let mut loop_ = DeviceLoop::<W>::new(Gains {
        kc: 1.0,
        ti_s: 10.0,
    });
    loop_.seed(50.0, 0.0);
    loop_.tick(input(Some(70.0), 2.0));
    loop_.tick(input(Some(70.0), 2.0));

    let mut changed = input(Some(73.0), 1.0);
    changed.t_star = 72.0;
    changed.delta_tstar = 2.0;
    // e_prev shifts from 0 to +2. New err is -1, so P is -3 (the
    // measured +3 C), followed by I=-0.5. Cancelling all P would yield
    // 49.5 instead.
    close(loop_.tick(changed).thermal, 46.5);
}

#[test]
fn resumed_sample_holds_applied_cap_and_restarts_elapsed_time() {
    let mut loop_ = DeviceLoop::<W>::new(Gains {
        kc: 1.0,
        ti_s: 10.0,
    });
    loop_.seed(50.0, 20.0);
    loop_.note_applied(50.0);
    loop_.tick(input(Some(50.0), 2.0));
    loop_.tick(input(Some(50.0), 2.0));

    let mut resumed = input(Some(50.0), 7_200.0);
    resumed.resumed = true;
    let held = loop_.tick(resumed);
    close(held.cap, 50.0);
    assert!(held.write_immediately);
    close(loop_.thermal(), 50.0);

    // Resume cleared the pre-suspend four seconds. Two post-resume
    // samples are still below cadence; the third performs one update.
    close(loop_.tick(input(Some(50.0), 2.0)).thermal, 50.0);
    close(loop_.tick(input(Some(50.0), 2.0)).thermal, 50.0);
    close(loop_.tick(input(Some(50.0), 1.0)).thermal, 60.0);
}

#[test]
fn resume_clears_missing_group_dwell_and_still_skips_an_absent_device() {
    let gains = Gains {
        kc: 1.0,
        ti_s: 10.0,
    };
    let mut lost = DeviceLoop::<W>::new(gains);
    lost.seed(40.0, 0.0);
    for _ in 0..29 {
        assert!(!lost.tick(input(None, 2.0)).group_lost);
    }
    let mut resumed = input(None, 7_200.0);
    resumed.resumed = true;
    let decision = lost.tick(resumed);
    close(decision.cap, 40.0);
    assert!(!decision.group_lost);
    assert!(decision.write_allowed);
    assert!(!lost.tick(input(None, 2.0)).group_lost);

    let mut absent = DeviceLoop::<W>::new(gains);
    let decision = absent.tick(resumed);
    close(decision.cap, 100.0);
    assert!(!decision.write_allowed);
    assert!(!decision.group_lost);

    let mut recovered_on_resume = DeviceLoop::<W>::new(gains);
    recovered_on_resume.seed_candidates(80.0, 100.0, Some(60.0), 0.0);
    for _ in 0..29 {
        recovered_on_resume.tick(input(None, 2.0));
    }
    let mut resumed_present = input(Some(70.0), 7_200.0);
    resumed_present.resumed = true;
    close(recovered_on_resume.tick(resumed_present).cap, 60.0);
    let live = recovered_on_resume.tick(input(Some(70.0), 1.0));
    close(live.thermal, 80.0);
    close(live.cap, 70.0);
}

#[test]
fn resumed_absent_loop_keeps_its_held_cap_on_first_hot_entry() {
    let mut loop_ = DeviceLoop::<W>::new(Gains {
        kc: 1.0,
        ti_s: 10.0,
    });
    let mut resumed = input(None, 7_200.0);
    resumed.resumed = true;
    resumed.shadow_enabled = true;
    let held = loop_.tick(resumed);
    close(held.cap, 100.0);

    let mut hot = input(Some(80.0), 1.0);
    hot.shadow_enabled = true;
    let entered = loop_.tick(hot);
    close(entered.thermal, 100.0);
    close(entered.cap, 100.0);
    close(loop_.requested().expect("entry request"), 100.0);
}

#[test]
fn selector_preserves_bound_identity_and_prefers_thermal_on_interior_ties() {
    assert_eq!(
        select_candidates(10.0, 10.0, 10.0, 100.0),
        (10.0, Selected::Floor)
    );
    assert_eq!(
        select_candidates(100.0, 100.0, 10.0, 100.0),
        (100.0, Selected::Max)
    );
    assert_eq!(
        select_candidates(50.0, 50.0, 10.0, 100.0),
        (50.0, Selected::Thermal)
    );
    assert_eq!(
        select_candidates(60.0, 50.0, 10.0, 100.0),
        (50.0, Selected::Shadow)
    );
}

#[test]
fn shadow_candidate_uses_unit_rise_and_configured_fall_slews() {
    let gains = Gains {
        kc: 1.0,
        ti_s: 10.0,
    };
    let mut cpu = DeviceLoop::<W>::new(gains);
    cpu.seed_candidates(100.0, 50.0, Some(50.0), 10.0);
    let mut cpu_tick = input(Some(60.0), 1.0);
    cpu_tick.draw = Some(80.0);
    cpu_tick.shadow_headroom = 10.0;
    cpu_tick.shadow_fall_rate = 0.5;
    cpu_tick.shadow_enabled = true;
    let raised = cpu.tick(cpu_tick);
    close(raised.shadow, 60.0);
    close(raised.cap, 60.0);
    assert_eq!(raised.selected, Selected::Shadow);
    assert_eq!(raised.hold, Hold::Shadow);

    cpu_tick.draw = Some(20.0);
    let fallen = cpu.tick(cpu_tick);
    close(fallen.shadow, 59.5);

    let mut gpu = DeviceLoop::<Mhz>::new(gains);
    gpu.seed_candidates(3_090.0, 1_000.0, Some(1_000.0), 10.0);
    let mut gpu_tick = input(Some(60.0), 1.0);
    gpu_tick.floor = 1_000.0;
    gpu_tick.max = 3_090.0;
    gpu_tick.draw = Some(1_500.0);
    gpu_tick.shadow_headroom = 30.0;
    gpu_tick.shadow_fall_rate = 10.0;
    gpu_tick.shadow_enabled = true;
    let raised = gpu.tick(gpu_tick);
    close(raised.shadow, 1_300.0);
    close(raised.cap, 1_300.0);

    gpu_tick.draw = Some(1_000.0);
    let fallen = gpu.tick(gpu_tick);
    close(fallen.shadow, 1_290.0);
}

#[test]
fn hot_entry_with_late_draw_skips_deadzone_once_after_five_valid_seconds() {
    let mut cpu = DeviceLoop::<W>::new(Gains { kc: 0.279475988, ti_s: 29.809252495 });
    let mut tick = input(Some(85.0), 1.0);
    tick.t_star = 81.0;
    tick.max = 54.0;
    tick.floor = 15.0;
    tick.shadow_enabled = true;
    tick.draw = None;
    for _ in 0..4 {
        let d = cpu.tick(tick);
        cpu.note_applied(d.cap);
    }
    tick.draw = Some(39.0);
    for _ in 0..5 {
        let d = cpu.tick(tick);
        cpu.note_applied(d.cap);
        assert!(d.thermal > 50.0, "must collect a full five-second history");
    }
    let trimmed = cpu.tick(tick);
    close(trimmed.thermal, 41.0);
    close(trimmed.cap, 41.0);
    cpu.note_applied(trimmed.cap);
    tick.draw = Some(20.0);
    for _ in 0..10 {
        let d = cpu.tick(tick);
        cpu.note_applied(d.cap);
        assert!(d.thermal > 40.0, "must not chase later draw dips");
    }
}

fn pending_hot_cpu() -> (DeviceLoop<W>, TickInput) {
    let mut cpu = DeviceLoop::<W>::new(Gains { kc: 0.28, ti_s: 30.0 });
    let mut tick = input(Some(74.0), 1.0);
    tick.max = 54.0;
    tick.shadow_enabled = true;
    tick.draw = None;
    let d = cpu.tick(tick);
    cpu.note_applied(d.cap);
    tick.draw = Some(39.0);
    (cpu, tick)
}

#[test]
fn deferred_hot_trim_restarts_evidence_after_every_sampling_interruption() {
    for interruption in 0..6 {
        let (mut cpu, tick) = pending_hot_cpu();
        for _ in 0..4 {
            let d = cpu.tick(tick);
            cpu.note_applied(d.cap);
        }
        let mut gap = tick;
        match interruption {
            0 => gap.resumed = true,
            1 => gap.group_c = None,
            2 => gap.draw = None,
            3 => gap.actuator = ActuatorState::Mismatch,
            4 => gap.dt_s = 3.0,
            _ => gap.dt_s = 0.0,
        }
        cpu.tick(gap);
        for _ in 0..5 {
            let d = cpu.tick(tick);
            assert!(d.thermal > 50.0, "premature trim after interruption {interruption}");
            cpu.note_applied(d.cap);
        }
        let d = cpu.tick(tick);
        close(d.thermal, 41.0);
    }
}

#[test]
fn deferred_hot_trim_waits_for_fresh_history_after_mismatch_latch_clears() {
    let (mut cpu, tick) = pending_hot_cpu();
    let mut mismatch = tick;
    mismatch.actuator = ActuatorState::Mismatch;
    cpu.tick(mismatch);
    let mut blind = tick;
    blind.actuator = ActuatorState::Unverifiable;
    for _ in 0..8 { cpu.tick(blind); }
    for _ in 0..5 {
        let d = cpu.tick(tick);
        assert!(d.thermal > 50.0, "mismatch-latched readings cannot qualify history");
        cpu.note_applied(d.cap);
    }
    close(cpu.tick(tick).thermal, 41.0);
}

#[test]
fn deferred_hot_trim_is_cancelled_when_cool_or_shadow_disabled() {
    for disable_shadow in [false, true] {
        let (mut cpu, tick) = pending_hot_cpu();
        let mut cancel = tick;
        if disable_shadow { cancel.shadow_enabled = false; }
        else { cancel.group_c = Some(69.0); }
        cpu.tick(cancel);
        for _ in 0..8 {
            let d = cpu.tick(tick);
            cpu.note_applied(d.cap);
            assert!(d.thermal > 50.0);
        }
    }
}

#[test]
fn deferred_hot_trim_keeps_lower_thermal_candidate_and_uses_recent_peak() {
    let (mut cpu, tick) = pending_hot_cpu();
    for _ in 0..5 { cpu.tick(tick); }
    let mut dip = tick;
    dip.draw = Some(20.0);
    close(cpu.tick(dip).thermal, 41.0);

    let (mut cpu, tick) = pending_hot_cpu();
    cpu.transfer_thermal(30.0, -4.0);
    cpu.note_applied(30.0);
    for _ in 0..6 {
        let d = cpu.tick(tick);
        assert!(d.thermal <= 30.0);
        assert!(d.cap <= 30.0);
        cpu.note_applied(d.cap);
    }
}

#[test]
fn deferred_gpu_trim_uses_applied_cap_and_existing_downward_slew() {
    let mut gpu = DeviceLoop::<Mhz>::new(Gains { kc: 1.0, ti_s: 30.0 });
    gpu.seed_candidates(3090.0, 2800.0, Some(2800.0), -4.0);
    let mut tick = input(Some(74.0), 1.0);
    tick.floor = 1000.0;
    tick.max = 3090.0;
    tick.shadow_headroom = 300.0;
    tick.shadow_enabled = true;
    tick.draw = None;
    gpu.tick(tick);
    tick.draw = Some(2400.0);
    for _ in 0..5 { gpu.tick(tick); }
    gpu.0.state.requested = Some(n(3000.0)); // a request still ahead of the writer
    let d = gpu.tick(tick);
    close(d.thermal, 2500.0);
    close(d.cap, 2695.0);
}

#[test]
fn hot_headroom_slews_from_applied_not_an_unwritten_request() {
    let mut gpu = DeviceLoop::<Mhz>::new(Gains { kc: 1.0, ti_s: 10.0 });
    gpu.seed_candidates(3090.0, 2600.0, Some(2450.0), 10.0);
    let mut tick = input(Some(60.0), 1.0);
    tick.floor = 1000.0; tick.max = 3090.0;
    tick.shadow_enabled = true; tick.shadow_headroom = 300.0;
    tick.draw = Some(2300.0);
    for _ in 0..6 { gpu.tick(tick); }
    tick.group_c = Some(71.0);
    let hot = gpu.tick(tick);
    close(hot.thermal, 2400.0);
    close(hot.cap, 2400.0);
}

#[test]
fn hot_handoff_trims_headroom_using_recent_peak_and_preserves_gpu_slew() {
    let gains = Gains { kc: 1.0, ti_s: 10.0 };
    let mut cpu = DeviceLoop::<W>::new(gains);
    cpu.seed_candidates(100.0, 50.0, Some(50.0), 10.0);
    let mut tick = input(Some(60.0), 1.0);
    tick.shadow_enabled = true;
    tick.draw = Some(40.0);
    for _ in 0..6 { cpu.tick(tick); }
    tick.group_c = Some(71.0);
    tick.draw = Some(10.0); // a brief dip must not seed a 12 W cap
    let hot = cpu.tick(tick);
    close(hot.thermal, 42.0);
    close(hot.cap, 42.0);
    for _ in 0..3 { close(cpu.tick(tick).thermal, 42.0); }

    let mut gpu = DeviceLoop::<Mhz>::new(gains);
    gpu.seed_candidates(3090.0, 2800.0, Some(2800.0), 10.0);
    tick = input(Some(60.0), 1.0);
    tick.floor = 1000.0;
    tick.max = 3090.0;
    tick.shadow_enabled = true;
    tick.shadow_headroom = 300.0;
    tick.draw = Some(2500.0);
    for _ in 0..6 { gpu.tick(tick); }
    tick.group_c = Some(71.0);
    tick.draw = Some(1000.0);
    let hot = gpu.tick(tick);
    close(hot.thermal, 2600.0);
    close(hot.cap, 2695.0); // existing 105 MHz/s downward slew
}

#[test]
fn measured_crossing_hands_thermal_over_once_and_rearms_after_five_cool_seconds() {
    let gains = Gains {
        kc: 1.0,
        ti_s: 10.0,
    };
    let mut loop_ = DeviceLoop::<W>::new(gains);
    loop_.seed_candidates(100.0, 50.0, Some(50.0), 10.0);
    let mut cool = input(Some(60.0), 1.0);
    cool.shadow_enabled = true;
    assert_eq!(loop_.tick(cool).selected, Selected::Shadow);

    let mut hot = cool;
    hot.group_c = Some(71.0);
    let handed = loop_.tick(hot);
    close(handed.thermal, 50.0);
    close(handed.cap, 50.0);

    hot.draw = Some(10.0);
    for _ in 0..3 {
        assert_eq!(loop_.tick(hot).thermal, 50.0);
    }

    let mut cool = hot;
    cool.group_c = Some(60.0);
    cool.draw = Some(40.0);
    cool.dt_s = 2.0;
    loop_.tick(cool);
    loop_.tick(cool);
    cool.dt_s = 1.0;
    loop_.tick(cool);

    loop_.transfer_thermal(100.0, 10.0);
    loop_.transfer_shadow(50.0);
    assert_eq!(loop_.tick(cool).selected, Selected::Shadow);
    hot.dt_s = 1.0;
    hot.draw = Some(40.0);
    close(loop_.tick(hot).thermal, 42.0);
}

#[test]
fn target_only_hot_sign_change_hands_over_but_hot_draw_dip_does_not_track_thermal() {
    let gains = Gains {
        kc: 1.0,
        ti_s: 10.0,
    };
    let mut target_only = DeviceLoop::<W>::new(gains);
    target_only.seed_candidates(100.0, 50.0, Some(50.0), 10.0);
    let mut cool = input(Some(60.0), 1.0);
    cool.shadow_enabled = true;
    assert_eq!(target_only.tick(cool).selected, Selected::Shadow);
    let mut changed_target = cool;
    changed_target.t_star = 50.0;
    changed_target.delta_tstar = -20.0;
    let unchanged = target_only.tick(changed_target);
    close(unchanged.thermal, 50.0);

    let mut replay = DeviceLoop::<W>::new(gains);
    let mut dipped = DeviceLoop::<W>::new(gains);
    for loop_ in [&mut replay, &mut dipped] {
        loop_.seed_candidates(80.0, 50.0, Some(50.0), -10.0);
    }
    let mut hot = input(Some(80.0), 2.0);
    hot.draw = Some(40.0);
    hot.shadow_enabled = true;
    for tick in 0..30 {
        replay.tick(hot);
        if tick == 5 {
            hot.draw = Some(10.0);
        }
        dipped.tick(hot);
    }
    close(replay.thermal(), dipped.thermal());
}

#[test]
fn missing_draw_dwell_return_and_shadow_toggle_use_slew_without_a_step() {
    let gains = Gains {
        kc: 1.0,
        ti_s: 10.0,
    };
    let mut loop_ = DeviceLoop::<W>::new(gains);
    loop_.seed_candidates(100.0, 50.0, Some(50.0), 10.0);
    let mut missing = input(Some(60.0), 2.0);
    missing.draw = None;
    missing.shadow_enabled = true;
    for _ in 0..29 {
        close(loop_.tick(missing).shadow, 50.0);
    }
    let expired = loop_.tick(missing);
    close(expired.shadow, 70.0);
    close(expired.cap, 70.0);

    let mut returned = missing;
    returned.draw = Some(40.0);
    let returned = loop_.tick(returned);
    close(returned.shadow, 50.0);
    close(returned.cap, 50.0);

    let mut gpu = DeviceLoop::<Mhz>::new(gains);
    gpu.seed_candidates(3_090.0, 1_000.0, Some(1_000.0), 10.0);
    let mut toggle = input(Some(60.0), 1.0);
    toggle.floor = 1_000.0;
    toggle.max = 3_090.0;
    toggle.draw = Some(1_000.0);
    toggle.shadow_headroom = 300.0;
    toggle.shadow_fall_rate = 10.0;
    toggle.shadow_enabled = false;
    let disabled = gpu.tick(toggle);
    close(disabled.shadow, 3_090.0);
    close(disabled.cap, 1_105.0);
    toggle.shadow_enabled = true;
    let enabled = gpu.tick(toggle);
    close(enabled.shadow, 3_080.0);
    close(enabled.cap, 1_405.0);
}

#[test]
fn bypass_transfers_unequal_candidates_without_a_step_and_initial_hot_entry_is_bumpless() {
    let gains = Gains {
        kc: 1.0,
        ti_s: 10.0,
    };
    let mut loop_ = DeviceLoop::<W>::new(gains);
    loop_.seed_candidates(40.0, 80.0, Some(30.0), 10.0);
    let mut tick = input(Some(60.0), 0.0);
    tick.draw = Some(70.0);
    tick.shadow_enabled = true;
    close(loop_.tick(tick).cap, 30.0);
    tick.mode = ThermalMode::Bypass;
    tick.dt_s = 1.0;
    let entering = loop_.tick(tick);
    close(entering.cap, 30.0);
    assert_eq!(entering.hold, Hold::Bypass);
    close(entering.shadow, 30.0);
    let bypassed = loop_.tick(tick);
    assert!(bypassed.shadow > 30.0);

    tick.mode = ThermalMode::Regulate;
    let exiting = loop_.tick(tick);
    close(exiting.cap, 30.0);
    close(exiting.thermal, 30.0);

    let mut initial_hot = DeviceLoop::<W>::new(gains);
    let mut hot = input(Some(80.0), 1.0);
    hot.draw = Some(40.0);
    hot.shadow_enabled = true;
    let entered = initial_hot.tick(hot);
    close(entered.thermal, 50.0);
    close(entered.shadow, 50.0);
    close(entered.cap, 50.0);

    let mut clamped = DeviceLoop::<W>::new(Gains {
        kc: 1.0,
        ti_s: 10.0,
    });
    clamped.seed_candidates(90.0, 50.0, Some(150.0), 10.0);
    close(clamped.tick(hot).thermal, 100.0);
}

#[test]
fn seeded_first_hot_entry_transfers_from_the_successfully_applied_cap() {
    let mut loop_ = DeviceLoop::<W>::new(Gains {
        kc: 1.0,
        ti_s: 10.0,
    });
    loop_.seed_candidates(90.0, 50.0, Some(50.0), 10.0);
    let mut hot = input(Some(80.0), 1.0);
    hot.draw = Some(40.0);
    hot.shadow_enabled = true;

    let entered = loop_.tick(hot);
    close(entered.thermal, 50.0);
    close(entered.shadow, 50.0);
    close(entered.cap, 50.0);
}

#[test]
fn initial_hot_entry_without_an_applied_cap_uses_the_seeded_shadow() {
    let mut loop_ = DeviceLoop::<W>::new(Gains {
        kc: 1.0,
        ti_s: 10.0,
    });
    loop_.seed_candidates(90.0, 50.0, None, 10.0);
    let mut hot = input(Some(80.0), 1.0);
    hot.draw = Some(80.0);
    hot.shadow_enabled = true;

    let entered = loop_.tick(hot);
    close(entered.thermal, 50.0);
    close(entered.cap, 50.0);
    close(loop_.requested().expect("entry request"), 50.0);
}

#[test]
fn mismatch_defers_mode_transfer_and_negative_samples_break_hot_rearm() {
    let mut loop_ = DeviceLoop::<W>::new(Gains {
        kc: 1.0,
        ti_s: 10.0,
    });
    loop_.seed_candidates(40.0, 80.0, Some(30.0), 10.0);
    let mut regulate = input(Some(60.0), 0.0);
    regulate.draw = Some(70.0);
    regulate.shadow_enabled = true;
    loop_.tick(regulate);

    let mut mismatch = regulate;
    mismatch.mode = ThermalMode::Bypass;
    mismatch.actuator = ActuatorState::Mismatch;
    mismatch.group_c = Some(80.0);
    let held = loop_.tick(mismatch);
    close(held.thermal, 40.0);
    close(held.shadow, 80.0);
    assert_eq!(held.hold, Hold::ActuatorMismatch);

    mismatch.actuator = ActuatorState::Verified;
    let transferred = loop_.tick(mismatch);
    close(transferred.cap, 30.0);
    close(transferred.shadow, 30.0);
    assert_eq!(transferred.hold, Hold::Bypass);

    mismatch.mode = ThermalMode::Regulate;
    mismatch.actuator = ActuatorState::Mismatch;
    let held_exit = loop_.tick(mismatch);
    close(held_exit.thermal, 40.0);
    close(held_exit.shadow, 30.0);
    mismatch.actuator = ActuatorState::Verified;
    let exited = loop_.tick(mismatch);
    close(exited.thermal, 30.0);
    close(exited.cap, 30.0);

    loop_.0.state.hot_episode_armed = false;
    loop_.0.state.hot_rearm_s = n(4.0);
    mismatch.actuator = ActuatorState::Mismatch;
    loop_.tick(mismatch);
    close(f(loop_.0.state.hot_rearm_s), 0.0);
}

#[test]
fn hot_rearm_needs_five_contiguous_seconds_and_missing_draw_presence_reseeds_at_zero_dt() {
    let gains = Gains {
        kc: 1.0,
        ti_s: 10.0,
    };
    let mut loop_ = DeviceLoop::<W>::new(gains);
    loop_.seed_candidates(100.0, 50.0, Some(30.0), 10.0);
    loop_.0.state.hot_episode_armed = false;
    let mut cool = input(Some(60.0), 2.0);
    cool.shadow_enabled = true;
    loop_.tick(cool);
    loop_.tick(cool);
    assert!(!loop_.0.state.hot_episode_armed);
    cool.dt_s = 1.0;
    loop_.tick(cool);
    assert!(loop_.0.state.hot_episode_armed);

    loop_.0.state.hot_rearm_s = n(4.0);
    loop_.tick(input(None, 0.0));
    close(f(loop_.0.state.hot_rearm_s), 0.0);

    let mut missing = input(Some(80.0), 0.0);
    missing.draw = None;
    missing.shadow_enabled = true;
    loop_.transfer_shadow(50.0);
    loop_.tick(missing);
    missing.draw = Some(80.0);
    let returned = loop_.tick(missing);
    close(returned.shadow, 30.0);
}

#[test]
fn hot_shadow_cases_keep_pi_state_and_bypass_still_moves_with_jittered_elapsed_time() {
    let gains = Gains {
        kc: 1.0,
        ti_s: 10.0,
    };
    let mut replay = DeviceLoop::<W>::new(gains);
    let mut dipped = DeviceLoop::<W>::new(gains);
    for loop_ in [&mut replay, &mut dipped] {
        loop_.seed_candidates(80.0, 50.0, Some(50.0), -10.0);
    }
    let mut replay_tick = input(Some(80.0), 2.0);
    replay_tick.draw = Some(40.0);
    replay_tick.shadow_enabled = true;
    let mut dipped_tick = replay_tick;
    for tick in 0..30 {
        replay.tick(replay_tick);
        if tick == 5 {
            dipped_tick.draw = Some(10.0);
        }
        dipped.tick(dipped_tick);
    }
    close(f(replay.0.state.thermal), f(dipped.0.state.thermal));
    close(f(replay.0.state.e_prev), f(dipped.0.state.e_prev));
    close(f(replay.0.state.shadow), f(dipped.0.state.shadow));
    assert_eq!(replay.requested(), dipped.requested());
    close(f(replay.0.state.elapsed_s), f(dipped.0.state.elapsed_s));

    let mut hot_missing = input(Some(80.0), 2.0);
    hot_missing.draw = None;
    hot_missing.shadow_enabled = true;
    let before_missing = f(replay.0.state.shadow);
    for _ in 0..29 {
        close(replay.tick(hot_missing).shadow, before_missing);
    }
    assert!(replay.tick(hot_missing).shadow > before_missing);

    let mut bypass = DeviceLoop::<W>::new(gains);
    bypass.seed_candidates(100.0, 50.0, Some(50.0), -10.0);
    let mut bypass_tick = input(Some(80.0), 0.4);
    bypass_tick.mode = ThermalMode::Bypass;
    bypass_tick.draw = Some(80.0);
    bypass_tick.shadow_enabled = true;
    let first = bypass.tick(bypass_tick);
    close(first.shadow, 54.0);
    bypass_tick.dt_s = 1.6;
    close(bypass.tick(bypass_tick).shadow, 70.0);
}

#[test]
fn cpu_quantisation_precedes_the_final_bounds_clamp() {
    let mut rounded = DeviceLoop::<W>::new(Gains {
        kc: 1.0,
        ti_s: 10.0,
    });
    rounded.seed(10.26, 0.0);
    close(rounded.tick(input(Some(70.0), 0.0)).cap, 10.5);

    let mut bounded = DeviceLoop::<W>::new(Gains {
        kc: 1.0,
        ti_s: 10.0,
    });
    bounded.seed(10.26, 0.0);
    let mut capped = input(Some(70.0), 0.0);
    capped.max = 10.3;
    close(bounded.tick(capped).cap, 10.3);
}

#[test]
fn requested_slew_accumulates_each_sample_without_an_applied_note() {
    let mut loop_ = DeviceLoop::<Mhz>::new(Gains {
        kc: 1.0,
        ti_s: 10.0,
    });
    loop_.seed(1_500.0, 0.0);
    loop_.transfer_thermal(2_000.0, 0.0);

    let mut tick = input(Some(70.0), 1.0);
    tick.floor = 1_000.0;
    tick.max = 3_090.0;
    close(loop_.tick(tick).cap, 1_605.0);
    close(loop_.tick(tick).cap, 1_710.0);
    close(loop_.tick(tick).cap, 1_815.0);
    close(loop_.requested().unwrap(), 1_815.0);
}

#[test]
fn lowered_max_does_not_bypass_upward_slew_when_request_is_below_the_new_ceiling() {
    let mut loop_ = DeviceLoop::<Mhz>::new(Gains {
        kc: 1.0,
        ti_s: 10.0,
    });
    loop_.seed_candidates(2_500.0, 3_090.0, Some(1_500.0), 0.0);
    let mut tick = input(Some(70.0), 0.0);
    tick.floor = 1_000.0;
    tick.max = 3_090.0;
    close(loop_.tick(tick).cap, 1_500.0);

    tick.dt_s = 1.0;
    tick.max = 2_000.0;
    let lowered = loop_.tick(tick);
    close(lowered.thermal, 2_000.0);
    close(lowered.cap, 1_605.0);
    assert!(!lowered.write_immediately);
}

#[test]
fn absent_group_skips_writes_but_lost_group_releases_to_max_and_recovers() {
    let gains = Gains {
        kc: 1.0,
        ti_s: 10.0,
    };
    let mut absent = DeviceLoop::<W>::new(gains);
    let decision = absent.tick(input(None, 2.0));
    close(decision.cap, 100.0);
    assert_eq!(decision.selected, Selected::Max);
    assert_eq!(decision.hold, Hold::GroupUnavailable);
    assert!(!decision.write_allowed);
    assert!(!decision.group_lost);
    for _ in 0..40 {
        assert!(!absent.tick(input(None, 2.0)).group_lost);
    }

    let mut lost = DeviceLoop::<W>::new(gains);
    lost.seed(40.0, 0.0);
    lost.note_applied(40.0);
    for _ in 0..29 {
        let decision = lost.tick(input(None, 2.0));
        close(decision.cap, 40.0);
        assert!(!decision.group_lost);
    }
    let decision = lost.tick(input(None, 2.0));
    close(decision.cap, 100.0);
    assert_eq!(decision.selected, Selected::Max);
    assert!(decision.write_allowed);
    assert!(decision.group_lost);

    let recovered = lost.tick(input(Some(60.0), 1.0));
    close(recovered.thermal, 100.0);
    close(recovered.cap, 100.0);
    assert!(!recovered.group_lost);
}

#[test]
fn short_group_dropout_preserves_candidates_and_pending_request_on_recovery() {
    let mut loop_ = DeviceLoop::<W>::new(Gains {
        kc: 1.0,
        ti_s: 10.0,
    });
    loop_.seed_candidates(80.0, 100.0, Some(60.0), 0.0);
    let first = loop_.tick(input(Some(70.0), 1.0));
    close(first.cap, 70.0);
    close(loop_.requested().unwrap(), 70.0);

    for _ in 0..29 {
        let held = loop_.tick(input(None, 2.0));
        close(held.cap, 60.0);
        assert!(!held.group_lost);
    }
    close(loop_.thermal(), 80.0);
    close(loop_.requested().unwrap(), 70.0);

    let recovered = loop_.tick(input(Some(70.0), 1.0));
    close(recovered.thermal, 80.0);
    close(recovered.cap, 80.0);
    close(loop_.requested().unwrap(), 80.0);
}

#[test]
fn missing_draw_reports_hold_without_freezing_thermal() {
    let mut loop_ = DeviceLoop::<W>::new(Gains {
        kc: 1.0,
        ti_s: 10.0,
    });
    loop_.seed(50.0, 0.0);
    let mut tick = input(Some(60.0), 2.0);
    tick.draw = None;
    assert_eq!(loop_.tick(tick).hold, Hold::DrawUnavailable);
    assert_eq!(loop_.tick(tick).hold, Hold::DrawUnavailable);
    tick.dt_s = 1.0;
    let decision = loop_.tick(tick);
    assert_eq!(decision.hold, Hold::DrawUnavailable);
    close(decision.thermal, 65.0);
}

#[test]
fn mismatch_freezes_until_verified_while_unverifiable_is_normally_live() {
    let gains = Gains {
        kc: 1.0,
        ti_s: 10.0,
    };
    let mut loop_ = DeviceLoop::<W>::new(gains);
    loop_.seed(50.0, 0.0);
    let mut tick = input(Some(60.0), 2.0);
    tick.actuator = ActuatorState::Mismatch;
    for _ in 0..3 {
        let decision = loop_.tick(tick);
        assert_eq!(decision.hold, Hold::ActuatorMismatch);
        close(decision.thermal, 50.0);
    }
    tick.actuator = ActuatorState::Unverifiable;
    assert_eq!(loop_.tick(tick).hold, Hold::ActuatorMismatch);
    close(loop_.thermal(), 50.0);

    tick.actuator = ActuatorState::Verified;
    loop_.tick(tick);
    loop_.tick(tick);
    tick.dt_s = 1.0;
    close(loop_.tick(tick).thermal, 55.0);

    let mut live = DeviceLoop::<W>::new(gains);
    live.seed(50.0, 10.0);
    tick.actuator = ActuatorState::Unverifiable;
    tick.dt_s = 2.0;
    live.tick(tick);
    live.tick(tick);
    tick.dt_s = 1.0;
    close(live.tick(tick).thermal, 55.0);
}

#[test]
fn lowered_guard_max_clamps_bypass_and_mismatch_state_immediately() {
    for (mode, actuator, expected_hold) in [
        (ThermalMode::Bypass, ActuatorState::Verified, Hold::Bypass),
        (
            ThermalMode::Regulate,
            ActuatorState::Mismatch,
            Hold::ActuatorMismatch,
        ),
    ] {
        let mut loop_ = DeviceLoop::<W>::new(Gains {
            kc: 1.0,
            ti_s: 10.0,
        });
        loop_.seed(80.0, 0.0);
        loop_.transfer_shadow(90.0);
        let mut tick = input(Some(70.0), 1.0);
        tick.mode = mode;
        tick.actuator = actuator;
        tick.max = 60.0;
        let guarded = loop_.tick(tick);
        close(guarded.cap, 60.0);
        close(guarded.thermal, 60.0);
        assert_eq!(guarded.hold, expected_hold);
        assert!(guarded.write_immediately);

        tick.max = 100.0;
        let reopened = loop_.tick(tick);
        close(loop_.thermal(), 60.0);
        assert!(!reopened.write_immediately);
    }
}

#[test]
fn raised_floor_bypasses_slew_and_requests_an_immediate_write() {
    let mut loop_ = DeviceLoop::<Mhz>::new(Gains {
        kc: 1.0,
        ti_s: 10.0,
    });
    loop_.seed(1_200.0, 0.0);
    let mut tick = input(Some(70.0), 1.0);
    tick.floor = 1_000.0;
    tick.max = 3_090.0;
    loop_.tick(tick);

    tick.floor = 1_800.0;
    let raised = loop_.tick(tick);
    close(raised.cap, 1_800.0);
    assert!(raised.write_immediately);
}

#[test]
fn failed_bound_writes_do_not_change_the_last_successfully_applied_cap() {
    let gains = Gains {
        kc: 1.0,
        ti_s: 10.0,
    };

    let mut ceiling = DeviceLoop::<W>::new(gains);
    ceiling.seed(80.0, 0.0);
    ceiling.tick(input(Some(70.0), 0.0));
    let mut lowered = input(Some(70.0), 0.0);
    lowered.max = 60.0;
    close(ceiling.tick(lowered).cap, 60.0);
    let mut reopened_missing = input(None, 0.0);
    reopened_missing.max = 100.0;
    close(ceiling.tick(reopened_missing).cap, 80.0);

    let mut floor = DeviceLoop::<W>::new(gains);
    floor.seed(20.0, 0.0);
    floor.tick(input(Some(70.0), 0.0));
    let mut raised = input(Some(70.0), 0.0);
    raised.floor = 40.0;
    close(floor.tick(raised).cap, 40.0);
    close(floor.tick(input(None, 0.0)).cap, 20.0);
}

#[test]
fn mismatch_and_resume_preserve_both_seeded_candidates() {
    let gains = Gains {
        kc: 1.0,
        ti_s: 10.0,
    };
    for resumed in [false, true] {
        let mut loop_ = DeviceLoop::<W>::new(gains);
        loop_.seed_candidates(80.0, 70.0, Some(70.0), 0.0);
        let mut tick = input(Some(70.0), 1.0);
        tick.actuator = ActuatorState::Mismatch;
        tick.resumed = resumed;
        let held = loop_.tick(tick);
        close(held.thermal, 80.0);
        close(held.shadow, 70.0);
        close(held.cap, 70.0);
    }
}

#[test]
fn resumed_mismatch_latches_before_the_resume_hold_and_unverifiable_stays_frozen() {
    let mut loop_ = DeviceLoop::<W>::new(Gains {
        kc: 1.0,
        ti_s: 10.0,
    });
    loop_.seed_candidates(80.0, 70.0, Some(70.0), 0.0);

    let mut tick = input(Some(60.0), 2.0);
    tick.resumed = true;
    tick.actuator = ActuatorState::Mismatch;
    let resumed = loop_.tick(tick);
    assert_eq!(resumed.hold, Hold::ActuatorMismatch);
    close(resumed.thermal, 80.0);
    close(resumed.shadow, 70.0);

    tick.resumed = false;
    tick.actuator = ActuatorState::Unverifiable;
    for _ in 0..3 {
        let frozen = loop_.tick(tick);
        assert_eq!(frozen.hold, Hold::ActuatorMismatch);
        close(frozen.thermal, 80.0);
        close(frozen.shadow, 70.0);
    }
}

#[test]
fn group_loss_recovery_does_not_mutate_candidates_while_mismatch_is_latched() {
    let mut loop_ = DeviceLoop::<W>::new(Gains {
        kc: 1.0,
        ti_s: 10.0,
    });
    loop_.seed_candidates(80.0, 70.0, Some(70.0), 0.0);

    let mut mismatch = input(Some(70.0), 1.0);
    mismatch.actuator = ActuatorState::Mismatch;
    loop_.tick(mismatch);

    mismatch.group_c = None;
    mismatch.dt_s = 2.0;
    for _ in 0..30 {
        loop_.tick(mismatch);
    }
    close(loop_.thermal(), 80.0);
    close(loop_.requested().unwrap(), 100.0);

    let mut recovered = input(Some(70.0), 1.0);
    recovered.actuator = ActuatorState::Unverifiable;
    let frozen = loop_.tick(recovered);
    assert_eq!(frozen.hold, Hold::ActuatorMismatch);
    close(frozen.thermal, 80.0);
    close(frozen.shadow, 70.0);

    recovered.actuator = ActuatorState::Verified;
    let reset = loop_.tick(recovered);
    close(reset.thermal, 100.0);
    close(reset.shadow, 100.0);
}

#[test]
fn seed_and_explicit_resync_do_not_create_a_proportional_kick() {
    let mut loop_ = DeviceLoop::<W>::new(Gains {
        kc: 1.0,
        ti_s: 10.0,
    });
    loop_.seed(50.0, 10.0);
    for dt in [2.0, 2.0, 1.0] {
        loop_.tick(input(Some(60.0), dt));
    }
    close(loop_.thermal(), 55.0);

    loop_.resync_error(-10.0);
    for dt in [2.0, 2.0, 1.0] {
        loop_.tick(input(Some(80.0), dt));
    }
    close(loop_.thermal(), 50.0);
}

#[test]
fn replacing_gains_keeps_the_live_candidates_and_pi_history() {
    let original = Gains {
        kc: 0.5,
        ti_s: 20.0,
    };
    let replacement = Gains {
        kc: 1.5,
        ti_s: 35.0,
    };
    let mut loop_ = DeviceLoop::<W>::new(original);
    loop_.seed_candidates(70.0, 62.0, Some(62.0), 4.0);
    loop_.0.state.elapsed_s = n(3.0);
    loop_.set_gains(replacement);

    let state = loop_.0.state;
    assert_eq!(state.gains, replacement.bits());
    assert_eq!(f(state.thermal), 70.0);
    assert_eq!(f(state.shadow), 62.0);
    assert_eq!(state.requested, Some(n(62.0)));
    assert_eq!(state.last_applied, Some(n(62.0)));
    assert_eq!(f(state.e_prev), 4.0);
    assert_eq!(f(state.elapsed_s), 3.0);
}

#[test]
fn group_recovery_resync_absorbs_simultaneous_target_motion_without_a_false_kick() {
    let mut loop_ = DeviceLoop::<W>::new(Gains {
        kc: 1.0,
        ti_s: 10.0,
    });
    loop_.seed(50.0, 0.0);
    loop_.tick(input(None, 2.0));

    let mut recovered = input(Some(60.0), 1.0);
    recovered.t_star = 72.0;
    recovered.delta_tstar = 2.0;
    close(loop_.tick(recovered).thermal, 50.0);
    recovered.dt_s = 2.0;
    recovered.delta_tstar = 0.0;
    close(loop_.tick(recovered).thermal, 50.0);
    close(loop_.tick(recovered).thermal, 56.0);
}

#[test]
fn mismatch_recovery_resync_absorbs_simultaneous_target_motion_without_a_false_kick() {
    let mut loop_ = DeviceLoop::<W>::new(Gains {
        kc: 1.0,
        ti_s: 10.0,
    });
    loop_.seed(50.0, 0.0);
    let mut mismatch = input(Some(70.0), 2.0);
    mismatch.actuator = ActuatorState::Mismatch;
    loop_.tick(mismatch);

    let mut recovered = input(Some(60.0), 1.0);
    recovered.t_star = 72.0;
    recovered.delta_tstar = 2.0;
    close(loop_.tick(recovered).thermal, 50.0);
    recovered.dt_s = 2.0;
    recovered.delta_tstar = 0.0;
    close(loop_.tick(recovered).thermal, 50.0);
    close(loop_.tick(recovered).thermal, 56.0);
}

fn first_order_cpu_response(ma_interval: u32) -> (f64, f64) {
    let ambient = 40.0;
    let target = 80.0;
    let initial_cap = 10.0;
    let mut group = ambient + 0.8 * initial_cap;
    let mut delayed = std::collections::VecDeque::from(vec![initial_cap; (f64::from_bits(CPU_BASE_DELAY_S) + f64::from(ma_interval) / 2.0).ceil() as usize]);
    let mut loop_ = DeviceLoop::<W>::new(default_gains::<W>(ma_interval));
    loop_.seed(initial_cap, target - group);
    let mut peak = group;
    for _ in 0..3_000 {
        let decision = loop_.tick(TickInput {
            t_star: target,
            group_c: Some(group),
            draw: Some(initial_cap),
            floor: 10.0,
            max: 100.0,
            mode: ThermalMode::Regulate,
            actuator: ActuatorState::Verified,
            dt_s: 1.0,
            resumed: false,
            delta_tstar: 0.0,
            shadow_headroom: 10.0,
            shadow_fall_rate: 0.33,
            shadow_enabled: false,
        });
        loop_.note_applied(decision.cap);
        delayed.push_back(decision.cap);
        let applied = delayed.pop_front().unwrap();
        group += (ambient + 0.8 * applied - group) / 35.0;
        peak = peak.max(group);
    }
    (group, peak)
}

fn first_order_gpu_response(ma_interval: u32) -> (f64, f64) {
    let ambient = 60.0;
    let plant_k = 0.009_527_650_224_779_704;
    let plant_tau = 32.564_086_253_945_035;
    let target = 80.0;
    let initial_cap = 1_000.0;
    let mut group = ambient + plant_k * initial_cap;
    let mut delayed = std::collections::VecDeque::from(vec![initial_cap; (f64::from_bits(GPU_BASE_DELAY_S) + f64::from(ma_interval) / 2.0).ceil() as usize]);
    let mut loop_ = DeviceLoop::<Mhz>::new(default_gains::<Mhz>(ma_interval));
    loop_.seed(initial_cap, target - group);
    let mut peak = group;
    for _ in 0..3_000 {
        let decision = loop_.tick(TickInput {
            t_star: target,
            group_c: Some(group),
            draw: Some(initial_cap),
            floor: 1_000.0,
            max: 3_090.0,
            mode: ThermalMode::Regulate,
            actuator: ActuatorState::Verified,
            dt_s: 1.0,
            resumed: false,
            delta_tstar: 0.0,
            shadow_headroom: 300.0,
            shadow_fall_rate: 10.0,
            shadow_enabled: false,
        });
        loop_.note_applied(decision.cap);
        delayed.push_back(decision.cap);
        let applied = delayed.pop_front().unwrap();
        group += (ambient + plant_k * applied - group) / plant_tau;
        peak = peak.max(group);
    }
    (group, peak)
}

#[test]
fn live_imc_defaults_settle_first_order_cpu_and_gpu_within_overshoot_bar() {
    for ma_interval in [30, 60] {
    for (name, target, initial, response) in [
        ("cpu", 80.0, 48.0, first_order_cpu_response(ma_interval)),
        ("gpu", 80.0, 69.527_650_224_779_7, first_order_gpu_response(ma_interval)),
    ] {
        let (settled, peak) = response;
        let step = target - initial;
        assert!(
            (settled - target).abs() <= step * 0.01,
            "{name} settled at {settled}, target {target}"
        );
        assert!(
            peak <= target + step * 0.05,
            "{name} peaked at {peak}, target {target}"
        );
    }
    }
}

#[test]
fn actuator_mismatch_holds_then_verified_feedback_recovers() {
    let mut loop_ = DeviceLoop::<W>::new(Gains { kc: 1.0, ti_s: 30.0 });
    loop_.seed_candidates(30.0, 30.0, Some(30.0), 0.0);
    let input = |actuator| TickInput {
        dt_s: 1.0,
        t_star: 70.0,
        group_c: Some(68.0),
        draw: Some(20.0),
        floor: 10.0,
        max: 54.0,
        shadow_headroom: 10.0,
        shadow_fall_rate: 0.33,
        actuator,
        mode: ThermalMode::Regulate,
        resumed: false,
        delta_tstar: 0.0,
        shadow_enabled: true,
    };
    let held = loop_.tick(input(ActuatorState::Mismatch));
    assert_eq!(held.hold, Hold::ActuatorMismatch);
    assert_eq!(held.cap, 30.0);
    let recovered = loop_.tick(input(ActuatorState::Verified));
    assert_ne!(recovered.hold, Hold::ActuatorMismatch);
    assert!(recovered.write_allowed);
}

#[test]
fn a_group_seen_in_a_resumed_tick_is_written_for_and_can_be_lost() {
    let mut loop_ = DeviceLoop::<W>::new(Gains {
        kc: 1.0,
        ti_s: 10.0,
    });
    let mut woken = input(Some(70.0), 2.0);
    woken.resumed = true;
    assert!(loop_.tick(woken).write_allowed);
    let mut missing = loop_.tick(input(None, 2.0));
    assert!(missing.write_allowed && !missing.group_lost);
    for _ in 0..29 {
        missing = loop_.tick(input(None, 2.0));
        assert!(missing.write_allowed);
    }
    assert!(missing.group_lost);
    assert_eq!(missing.cap, 100.0);
}

#[test]
fn a_group_absent_since_the_session_began_is_never_written_for() {
    let mut loop_ = DeviceLoop::<W>::new(Gains {
        kc: 1.0,
        ti_s: 10.0,
    });
    let mut woken = input(None, 2.0);
    woken.resumed = true;
    assert!(!loop_.tick(woken).write_allowed);
    for _ in 0..40 {
        let d = loop_.tick(input(None, 2.0));
        assert!(!d.write_allowed && !d.group_lost);
    }
    assert!(loop_.tick(input(Some(70.0), 2.0)).write_allowed);
    assert!(loop_.tick(input(None, 2.0)).write_allowed);
}

#[test]
fn numbers_lead_to_numbers_within_the_bounds() {
    let odd = [0.0, 1.0, -1.0, 7.5, f64::NAN, f64::INFINITY, f64::NEG_INFINITY, 1e308, -1e308];
    let mut device: DeviceLoop<W> = DeviceLoop::new(Gains { kc: 0.8, ti_s: 35.0 });
    let mut state: u64 = 12345;
    let mut next = |below: usize| -> usize {
        state = state.wrapping_mul(6364136223846793005).wrapping_add(1442695040888963407);
        (state >> 33) as usize % below
    };
    for _ in 0..4000 {
        let max = 20.0 + next(60) as f64;
        let floor = next(90) as f64;
        let d = device.tick(TickInput {
            t_star: 70.0 + next(10) as f64,
            group_c: if next(6) == 0 { None } else { Some(50.0 + next(50) as f64) },
            draw: if next(5) == 0 { None } else { Some(next(90) as f64) },
            floor,
            max,
            mode: if next(4) == 0 { ThermalMode::Bypass } else { ThermalMode::Regulate },
            actuator: match next(5) {
                0 => ActuatorState::Mismatch,
                1 => ActuatorState::Unverifiable,
                _ => ActuatorState::Verified,
            },
            dt_s: if next(3) == 0 { odd[next(odd.len())] } else { 1.0 },
            resumed: next(20) == 0,
            delta_tstar: odd[next(odd.len())],
            shadow_headroom: odd[next(odd.len())],
            shadow_fall_rate: odd[next(odd.len())],
            shadow_enabled: next(4) != 0,
        });
        let low = floor.min(max);
        for x in [d.cap, d.thermal, d.shadow] {
            assert!(low <= x && x <= max, "{x} outside of {low}..{max}");
        }
        if next(3) == 0 {
            device.note_applied(d.cap);
        }
    }
}
