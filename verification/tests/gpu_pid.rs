//! The GPU's watts-to-clock loop.

use fw_fanctrl_loop::gpu_pid as pid_lib;
use fw_fanctrl_loop::gpu_pid::RATE_LIMIT_MHZ;
use fw_fanctrl_loop::lut as lut_lib;
use fw_fanctrl_loop::num::Num;

fn n(x: f64) -> Num {
    Num::from_bits(x.to_bits())
}

fn f(x: Num) -> f64 {
    f64::from_bits(x.to_bits())
}

/// Clocks of a calibration sweep.
const SWEEP_CLOCKS: [u32; 10] = [
    1000, 1200, 1400, 1600, 1800, 2000, 2200, 2400, 2600, 2800,
];

/// A table driven in plain numbers.
struct ClockWattsLut(lut_lib::ClockWattsLut);

impl ClockWattsLut {
    fn new() -> Self {
        ClockWattsLut(lut_lib::ClockWattsLut::new())
    }

    fn insert(&mut self, mhz: u32, watts: f64) {
        self.0.insert(mhz, n(watts));
    }

    fn clock_for_watts(&self, w: f64) -> Option<u32> {
        self.0.clock_for_watts(n(w))
    }
}

/// A loop driven in plain numbers.
struct GpuPid(pid_lib::GpuPid);

impl GpuPid {
    fn new() -> Self {
        GpuPid(pid_lib::GpuPid::new())
    }

    fn set_target_w(&mut self, w: f64) {
        self.0.set_target_w(n(w));
    }

    fn update(&mut self, measured: f64, lut: &ClockWattsLut, floor: u32) -> Option<u32> {
        self.0.update(n(measured), &lut.0, floor)
    }

    fn reset(&mut self) {
        self.0.reset();
    }
}

#[test]
fn gpu_pid_constants_are_the_intended_numbers() {
    for (bits, value) in [
        (pid_lib::KP, 5.0),
        (pid_lib::KI, 15.0),
        (pid_lib::OUTPUT_LIMIT, 400.0),
        (pid_lib::DEADBAND_W, 3.0),
    ] {
        assert_eq!(f64::from_bits(bits), value);
    }
}

#[test]
fn the_pid_step_is_that_of_the_pid_crate() {
    let mut ours = fw_fanctrl_loop::pid::Pid {
        kp: n(5.0),
        ki: n(15.0),
        kd: n(0.7),
        p_limit: n(400.0),
        i_limit: n(90.0),
        d_limit: n(12.0),
        setpoint: n(60.0),
        integral_term: n(0.0),
        prev_measurement: None,
    };
    let mut theirs = pid::Pid::new(5.0, 15.0, 0.7, 400.0, 90.0, 12.0, 60.0);
    let mut seed = 0x1234_5678_u64;
    for k in 0..500 {
        let measured = match k % 50 {
            17 => 1e308,
            18 => -1e308,
            33 => f64::NAN,
            _ => 60.0 + 40.0 * lcg_noise(&mut seed),
        };
        let a = ours.next_control_output(n(measured));
        let b = theirs.next_control_output(measured);
        for (x, y) in [(a.p, b.p), (a.i, b.i), (a.d, b.d), (a.output, b.output)] {
            assert!(f(x).to_bits() == y.to_bits() || (f(x).is_nan() && y.is_nan()));
        }
        if k % 50 == 33 {
            ours.integral_term = n(0.0);
            ours.prev_measurement = None;
            theirs.reset_integral_term();
            theirs = pid::Pid::new(5.0, 15.0, 0.7, 400.0, 90.0, 12.0, 60.0);
        }
    }
}

#[test]
fn a_default_loop_is_at_rest() {
    let pid = pid_lib::GpuPid::default();
    assert_eq!(pid.last_clock, None);
    assert!(!pid.saturated);
}

#[test]
fn clocks_stay_between_floor_and_ceiling() {
    let lut = exact_lut();
    let mut pid = GpuPid::new();
    let mut seed = 0x77_u64;
    for k in 0..400 {
        pid.set_target_w(50.0 + 60.0 * lcg_noise(&mut seed));
        let floor = 800 + (k % 7) * 300;
        if let Some(c) = pid.update(50.0 + 100.0 * lcg_noise(&mut seed), &lut, floor) {
            assert!(c >= floor && c <= 3090);
        }
    }
}

const FLOOR: u32 = 1000;

#[test]
fn raised_floor_wins_over_rate_limit() {
    // Converge low, then raise the floor far above: the very next output
    // must sit AT the new floor, not ramp up at 105 MHz/step.
    let lut = exact_lut();
    let mut pid = GpuPid::new();
    pid.set_target_w(35.0); // ~1375 MHz on the plant
    let mut clock = 1500;
    for _ in 0..20 {
        if let Some(c) = pid.update(plant(clock), &lut, FLOOR) {
            clock = c;
        }
    }
    assert!(clock < 1500, "premise: converged below 1500");
    let out = pid
        .update(plant(clock), &lut, 2500)
        .expect("floor raise forces a clock change");
    assert_eq!(out, 2500, "floor must win over the rate limit");
}

/// Simulated plant: watts drawn at a locked clock. 1500 MHz → 40 W,
/// 2800 MHz → 92 W. Electrical response is sub-second, so at the 1 Hz
/// loop cadence the plant is memoryless.
fn plant(clock: u32) -> f64 {
    0.04 * f64::from(clock) - 20.0
}

/// LUT sampled from the SAME plant at the 10 calibration sweep clocks:
/// feedforward is (interpolation-)exact.
fn exact_lut() -> ClockWattsLut {
    let mut lut = ClockWattsLut::new();
    for &c in &SWEEP_CLOCKS {
        lut.insert(c, plant(c));
    }
    lut
}

/// LUT that reads 10% more watts per clock than the real plant draws:
/// the feedforward lands low and the integral must trim it out.
fn miscalibrated_lut() -> ClockWattsLut {
    let mut lut = ClockWattsLut::new();
    for &c in &SWEEP_CLOCKS {
        lut.insert(c, plant(c) * 1.1);
    }
    lut
}

/// Deterministic pseudo-noise in [-1, 1) W: inline LCG, no rand crate
/// (same generator as the thermal_model tests).
fn lcg_noise(state: &mut u64) -> f64 {
    *state = state
        .wrapping_mul(6364136223846793005)
        .wrapping_add(1442695040888963407);
    ((*state >> 32) as f64 / f64::from(u32::MAX)) * 2.0 - 1.0
}

/// Closed loop around the simulated plant: feeds measured watts
/// (plant + bias), applies returned clocks.
struct Sim {
    clock: u32,
}

impl Sim {
    fn step(&mut self, pid: &mut GpuPid, lut: &ClockWattsLut, bias_w: f64) -> Option<u32> {
        let out = pid.update(plant(self.clock) + bias_w, lut, FLOOR);
        if let Some(c) = out {
            self.clock = c;
        }
        out
    }

    /// Run until the loop holds (returns None); panics after `max` steps.
    fn settle(&mut self, pid: &mut GpuPid, lut: &ClockWattsLut, max: usize) -> usize {
        for i in 0..max {
            if self.step(pid, lut, 0.0).is_none() {
                return i;
            }
        }
        panic!(
            "did not settle within {max} iterations (clock {})",
            self.clock
        );
    }
}

#[test]
fn converges_with_exact_lut_within_10() {
    let lut = exact_lut();
    let mut pid = GpuPid::new();
    pid.set_target_w(60.0);
    let mut sim = Sim { clock: 1500 };
    sim.settle(&mut pid, &lut, 10);
    let w = plant(sim.clock);
    assert!(
        (w - 60.0).abs() <= 3.0,
        "settled at {w} W (clock {})",
        sim.clock
    );
}

#[test]
fn miscalibrated_lut_integral_trims_within_40() {
    let lut = miscalibrated_lut();
    // Test premise: feedforward alone must be off by more than the
    // deadband, or the PI has nothing to prove.
    let ff = lut.clock_for_watts(60.0).unwrap();
    assert!(
        (plant(ff) - 60.0).abs() > 3.0,
        "premise broken: FF alone already lands at {} W",
        plant(ff)
    );
    let mut pid = GpuPid::new();
    pid.set_target_w(60.0);
    let mut sim = Sim { clock: 1500 };
    sim.settle(&mut pid, &lut, 40);
    let w = plant(sim.clock);
    assert!(
        (w - 60.0).abs() <= 3.0,
        "settled at {w} W (clock {})",
        sim.clock
    );
}

#[test]
fn deadband_holds_and_no_windup_on_disturbance() {
    let lut = exact_lut();
    let mut pid = GpuPid::new();
    pid.set_target_w(60.0);
    let mut sim = Sim { clock: 1500 };
    sim.settle(&mut pid, &lut, 10);
    let held = sim.clock;

    // 20 in-deadband samples: no clock updates, and (crucially) no
    // integration — verified below via the disturbance response.
    for _ in 0..20 {
        assert_eq!(sim.step(&mut pid, &lut, 0.0), None);
        assert_eq!(sim.clock, held);
    }

    // +6 W disturbance. If the integrator had drifted during the 20
    // deadband samples (20 × 3 W × KI would peg it at ±400), the loop
    // would slam ~400 MHz down; the true correction is ≈ 6/0.04 = 150.
    let mut min_clock = held;
    let mut first = None;
    let mut settled = false;
    for _ in 0..15 {
        match sim.step(&mut pid, &lut, 6.0) {
            Some(c) => {
                first.get_or_insert(c);
                min_clock = min_clock.min(c);
            }
            None => {
                settled = true;
                break;
            }
        }
    }
    assert!(settled, "disturbance response did not re-settle");
    let first = first.expect("disturbance must produce a correction");
    assert!(first < held, "correction must move the clock down");
    // Proportional-sized first step: ≤ (KP+KI)·6 = 120 MHz of fresh PI
    // (the rate limit may cap it lower), not a windup jump.
    assert!(held - first <= 120, "first correction {} MHz", held - first);
    assert!(
        min_clock >= held - 250,
        "windup jump: sank to {min_clock} from {held}"
    );
}

#[test]
fn rate_limited_on_target_jump() {
    let lut = exact_lut();
    let mut pid = GpuPid::new();
    pid.set_target_w(30.0);
    // Start off-target so convergence actually emits clocks: the rate
    // limiter is referenced to the last RETURNED clock, and a loop that
    // never commanded anything is allowed its documented first-output
    // jump straight to the feedforward.
    let mut sim = Sim { clock: 1500 };
    sim.settle(&mut pid, &lut, 10);

    pid.set_target_w(90.0);
    let mut prev = sim.clock;
    let mut settled = false;
    for _ in 0..40 {
        match sim.step(&mut pid, &lut, 0.0) {
            Some(c) => {
                assert!(
                    c.abs_diff(prev) <= RATE_LIMIT_MHZ,
                    "step {prev} → {c} exceeds the rate limit"
                );
                prev = c;
            }
            None => {
                settled = true;
                break;
            }
        }
    }
    assert!(settled, "did not settle after the target jump");
    let w = plant(sim.clock);
    assert!((w - 90.0).abs() <= 3.0, "settled at {w} W");
}

#[test]
fn floor_respected_no_oscillation() {
    let lut = exact_lut();
    let mut pid = GpuPid::new();
    // 5 W is below what the floor clock draws (plant(1000) = 20 W).
    pid.set_target_w(5.0);
    let mut sim = Sim { clock: 1500 };
    let mut outputs = Vec::new();
    for _ in 0..30 {
        let out = sim.step(&mut pid, &lut, 0.0);
        if let Some(c) = out {
            assert!(c >= FLOOR, "clock {c} below the floor");
        }
        outputs.push(out);
    }
    assert_eq!(
        sim.clock, FLOOR,
        "unreachable-low target must pin the floor"
    );
    // Stable: last 5 outputs identical (all None or all the same clock).
    let tail = &outputs[outputs.len() - 5..];
    assert!(
        tail.iter().all(|o| o == &tail[0]),
        "oscillating at the floor: {tail:?}"
    );
}

#[test]
fn windup_bounded_recovery_from_floor() {
    let lut = exact_lut();
    let mut pid = GpuPid::new();
    pid.set_target_w(5.0);
    let mut sim = Sim { clock: 1500 };
    for _ in 0..100 {
        sim.step(&mut pid, &lut, 0.0);
    }
    assert_eq!(sim.clock, FLOOR);

    // Documented windup bound: recovery within 400/KI ≈ 27 calls;
    // conditional integration makes it much faster in practice.
    pid.set_target_w(60.0);
    sim.settle(&mut pid, &lut, 30);
    let w = plant(sim.clock);
    assert!(
        (w - 60.0).abs() <= 3.0,
        "recovered to {w} W (clock {})",
        sim.clock
    );
}

#[test]
fn retarget_is_bumpless() {
    let lut = exact_lut();
    let mut pid = GpuPid::new();
    pid.set_target_w(60.0);
    let mut sim = Sim { clock: 1500 };
    sim.settle(&mut pid, &lut, 10);
    let converged = sim.clock;

    // Retarget upward: the approach must be monotone-ish — never dip
    // below the converged clock by more than one rate-limit step.
    pid.set_target_w(70.0);
    let mut min_clock = converged;
    let mut settled = false;
    for _ in 0..20 {
        match sim.step(&mut pid, &lut, 0.0) {
            Some(c) => min_clock = min_clock.min(c),
            None => {
                settled = true;
                break;
            }
        }
    }
    assert!(settled, "did not settle after retarget");
    assert!(
        min_clock >= converged - RATE_LIMIT_MHZ,
        "transient dipped to {min_clock} (converged {converged})"
    );
    let w = plant(sim.clock);
    assert!((w - 70.0).abs() <= 3.0, "settled at {w} W");
}

#[test]
fn reset_clears_integrator_and_rate_reference() {
    let lut = exact_lut();

    // Integrator cleared: after converging (integrator holds some trim),
    // reset and probe with a known error — the output must be exactly
    // feedforward + one fresh P+I sample.
    let mut pid = GpuPid::new();
    pid.set_target_w(60.0);
    let mut sim = Sim { clock: 1500 };
    sim.settle(&mut pid, &lut, 10);
    pid.reset();
    // FF(60) = 2000 (exact LUT); error 5 → P 25 + I 75 → 2100.
    assert_eq!(pid.update(55.0, &lut, FLOOR), Some(2100));

    // Rate reference cleared: the first post-reset output may jump far
    // more than 105 MHz from the pre-reset clock.
    let mut pid = GpuPid::new();
    pid.set_target_w(60.0);
    // error 20 → P 100 + I 300 → FF 2000 + 400 = 2400.
    assert_eq!(pid.update(40.0, &lut, FLOOR), Some(2400));
    pid.reset();
    // error −30 → P −150, I clamps to −400, output clamps to −400 →
    // 1600: an 800 MHz jump (no rate limit), and fresh integral (stale
    // +300 would land at 1700).
    assert_eq!(pid.update(90.0, &lut, FLOOR), Some(1600));
}

#[test]
fn noisy_measurements_no_churn() {
    let lut = exact_lut();
    let mut pid = GpuPid::new();
    pid.set_target_w(60.0);
    let mut sim = Sim { clock: 1500 };
    let mut seed = 0xbeef_cafe_u64;
    let mut clocks = Vec::new();
    for _ in 0..60 {
        sim.step(&mut pid, &lut, lcg_noise(&mut seed));
        clocks.push(sim.clock);
    }
    // Converged despite ±1 W noise (deadband may hold up to 3 W of true
    // error plus the noise the sample carried).
    let w = plant(sim.clock);
    assert!((w - 60.0).abs() <= 4.0, "settled at {w} W");
    // No churn: the last 20 applied clocks stay within one rate step.
    let tail = &clocks[40..];
    let (min, max) = (tail.iter().min().unwrap(), tail.iter().max().unwrap());
    assert!(max - min <= RATE_LIMIT_MHZ, "churning: {min}..{max}");
}

#[test]
fn gpu_pid_empty_lut_returns_none() {
    let lut = ClockWattsLut::new();
    let mut pid = GpuPid::new();
    pid.set_target_w(60.0);
    assert_eq!(pid.update(20.0, &lut, FLOOR), None);
}

#[test]
fn the_integral_stays_within_its_authority() {
    let lut = exact_lut();
    for measured in [0.0, 1.0e6, -1.0e6, 1.0e300] {
        let mut pid = GpuPid::new();
        pid.set_target_w(60.0);
        for _ in 0..50 {
            pid.update(measured, &lut, FLOOR);
            assert!(f(pid.0.pid.integral_term).abs() <= 400.0);
            assert!(f(pid.0.frozen_i).abs() <= 400.0);
        }
    }
}
