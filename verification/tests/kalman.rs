//! The two-state filter.

use fw_fanctrl_loop::kalman as kf_lib;
use nalgebra::{Matrix2, Vector2};
use fw_fanctrl_loop::num::Num;

fn n(x: f64) -> Num {
    Num::from_bits(x.to_bits())
}

fn f(x: Num) -> f64 {
    f64::from_bits(x.to_bits())
}

const KF_PERIOD_S: f64 = 20.0;
const MAX_BIAS_AUTHORITY_RPM: f64 = 400.0;
const GAIN_MIN: f64 = 0.6;
const GAIN_MAX: f64 = 1.6;
const TRACE_CAP: f64 = 1.0e6;

/// A filter driven in plain numbers.
#[derive(Clone)]
struct Kalman(kf_lib::Kalman);

impl Kalman {
    fn new(bias: f64, gain: f64) -> Self {
        Kalman(kf_lib::Kalman::new(n(bias), n(gain)))
    }

    fn bias(&self) -> f64 {
        f(self.0.bias())
    }

    fn gain(&self) -> f64 {
        f(self.0.gain())
    }

    fn update(&mut self, t: f64, measured: f64, baseline: f64, w: f64) -> bool {
        self.0.update(n(t), n(measured), n(baseline), n(w))
    }

    fn reset(&mut self) {
        self.0.reset();
    }

    fn snapshot(&self) -> [u64; 6] {
        let k = &self.0;
        [k.theta.a, k.theta.b, k.p.m00, k.p.m01, k.p.m10, k.p.m11].map(Num::to_bits)
    }

    fn trace(&self) -> f64 {
        f(self.0.p.m00) + f(self.0.p.m11)
    }
}

#[test]
fn kalman_constants_are_the_intended_numbers() {
    for (bits, value) in [
        (kf_lib::KF_PERIOD_S, KF_PERIOD_S),
        (kf_lib::MAX_BIAS_AUTHORITY_RPM, MAX_BIAS_AUTHORITY_RPM),
        (kf_lib::GAIN_MIN, GAIN_MIN),
        (kf_lib::GAIN_MAX, GAIN_MAX),
        (kf_lib::LEAST_SLOPE, 1.2),
        (kf_lib::R, 1.0e4),
        (kf_lib::Q_BIAS, 26.0),
        (kf_lib::Q_GAIN, 1.0e-4),
        (kf_lib::P0_BIAS, 526.0),
        (kf_lib::P0_GAIN, 0.25),
        (kf_lib::TRACE_CAP, TRACE_CAP),
        (kf_lib::TRACE_RESCALE_TO, 1.0e5),
    ] {
        assert_eq!(f64::from_bits(bits), value);
    }
}

/// One update with the matrix crate, from the same state.
fn reference_update(k: &kf_lib::Kalman, measured: f64, baseline: f64, w: f64) -> [f64; 6] {
    let theta = Vector2::new(f(k.theta.a), f(k.theta.b));
    let p = Matrix2::new(f(k.p.m00), f(k.p.m01), f(k.p.m10), f(k.p.m11));
    let p_minus = p + Matrix2::new(26.0, 0.0, 0.0, 1.0e-4);
    let x = Vector2::new(1.0, w);
    let px = p_minus * x;
    let s = x.dot(&px) + 1.0e4;
    let gain = px / s;
    let innovation = measured - (baseline + theta[0] + theta[1] * w);
    let candidate = theta + gain * innovation;
    let mut p_next = (Matrix2::identity() - gain * x.transpose()) * p_minus;
    let trace = p_next.trace();
    if trace > TRACE_CAP {
        p_next *= 1.0e5 / trace;
    }
    [
        candidate[0].clamp(-MAX_BIAS_AUTHORITY_RPM, MAX_BIAS_AUTHORITY_RPM),
        candidate[1],
        p_next[(0, 0)],
        p_next[(0, 1)],
        p_next[(1, 0)],
        p_next[(1, 1)],
    ]
}

#[test]
fn the_filter_computes_what_the_matrix_crate_computes() {
    let mut kf = Kalman::new(0.0, 1.0);
    kf.0.p.m00 = n(3.0e6);
    for i in 0..200 {
        let w = [0.0, 900.0, 333.3, -12.5][i % 4];
        let (measured, baseline) = step_plant(&kf, 3000.0, w, 100.0, 1.15);
        let expected = reference_update(&kf.0, measured, baseline, w);
        kf.update(i as f64 * KF_PERIOD_S, measured, baseline, w);
        assert_eq!(kf.snapshot(), expected.map(f64::to_bits), "update {i}");
    }
}

/// Closed-loop plant on the corrected contour: the allocator holds
/// `baseline + bias_est + gain_est·w = target`, so `baseline = target −
/// bias_est − gain_est·w`; the plant then reads
/// `measured = baseline + bias_true + gain_true·w`. Mirrors the
/// controller exactly, so the innovation is the control error
/// `measured − target`.
fn step_plant(kf: &Kalman, target: f64, w: f64, bias_true: f64, gain_true: f64) -> (f64, f64) {
    let baseline = target - kf.bias() - kf.gain() * w;
    let measured = baseline + bias_true + gain_true * w;
    (measured, baseline)
}

#[test]
fn new_starts_at_seed_and_identity_reset() {
    let kf = Kalman::new(0.0, 1.0);
    assert_eq!((kf.bias(), kf.gain()), (0.0, 1.0));
    // An in-range persisted seed passes through untouched.
    let kf = Kalman::new(-120.0, 1.3);
    assert_eq!((kf.bias(), kf.gain()), (-120.0, 1.3));
    // reset() returns to the identity correction with a fresh prior…
    let mut kf = Kalman::new(-120.0, 1.3);
    assert!(kf.update(0.0, 2500.0, 2000.0, 0.0));
    kf.reset();
    assert_eq!((kf.bias(), kf.gain()), (0.0, 1.0));
    assert_eq!(kf.snapshot(), Kalman::new(0.0, 1.0).snapshot());
    // …and no cadence baseline: the next call integrates immediately.
    assert!(kf.update(1.0, 2100.0, 2000.0, 0.0));
}

#[test]
fn new_sanitizes_a_poisoned_seed() {
    // The state file is hand-editable: NaN would otherwise wedge the
    // filter (every innovation non-finite → every update rejected).
    let kf = Kalman::new(f64::NAN, f64::NAN);
    assert_eq!((kf.bias(), kf.gain()), (0.0, 1.0));
    // Finite but out of the safety box: clamped to the contract.
    let kf = Kalman::new(9999.0, 0.01);
    assert_eq!((kf.bias(), kf.gain()), (MAX_BIAS_AUTHORITY_RPM, GAIN_MIN));
    let kf = Kalman::new(-9999.0, 99.0);
    assert_eq!((kf.bias(), kf.gain()), (-MAX_BIAS_AUTHORITY_RPM, GAIN_MAX));
}

#[test]
fn cadence_gates_at_20s() {
    let mut kf = Kalman::new(0.0, 1.0);
    // First call integrates immediately (the caller's gates vouch).
    assert!(kf.update(0.0, 2100.0, 2000.0, 0.0));
    let after_first = kf.bias();
    assert!(after_first > 0.0);
    // Anything under 20 s since the last accepted call: gated.
    assert!(!kf.update(10.0, 2100.0, 2000.0, 0.0));
    assert!(!kf.update(19.9, 2100.0, 2000.0, 0.0));
    assert_eq!(kf.bias(), after_first);
    // 20 s elapsed: integrates again.
    assert!(kf.update(20.0, 2100.0, 2000.0, 0.0));
    assert!(kf.bias() > after_first);
}

#[test]
fn converges_to_plant_bias_and_stops() {
    // With the innovation equal to
    // the control error the closed loop is negative feedback — the bias
    // converges to exactly the plant's bias (139, the 2026-07 field
    // value) and stops, and the fans land ON target.
    const BIAS_TRUE: f64 = 139.0;
    const TARGET: f64 = 3250.0;
    let mut kf = Kalman::new(0.0, 1.0);
    let mut deltas = Vec::new();
    for i in 0..200 {
        let before = kf.bias();
        let (measured, baseline) = step_plant(&kf, TARGET, 0.0, BIAS_TRUE, 1.0);
        kf.update(f64::from(i) * KF_PERIOD_S, measured, baseline, 0.0);
        assert!(
            kf.bias().abs() < MAX_BIAS_AUTHORITY_RPM,
            "an in-authority bias must never pin"
        );
        deltas.push((kf.bias() - before).abs());
    }
    let bias = kf.bias();
    assert!(
        (bias - BIAS_TRUE).abs() < 10.0,
        "bias = {bias}, want ≈ {BIAS_TRUE}"
    );
    assert!(
        deltas[190..].iter().all(|d| *d < 1.0),
        "converged bias must STOP moving: {:?}",
        &deltas[190..]
    );
    // Equilibrium is on target: the plant reads back the target.
    let (measured, _) = step_plant(&kf, TARGET, 0.0, BIAS_TRUE, 1.0);
    assert!((measured - TARGET).abs() < 10.0);
}

#[test]
fn bias_only_time_constant_matches_trim() {
    // The tuning: Q_BIAS and R are sized so that the bias-only
    // steady-state Kalman gain is about 0.05, i.e. τ ≈ 400 s. After 20 updates (≈ 1 τ) a 200 RPM step must be
    // absorbed to within the 1-τ band (1 − e⁻¹ ≈ 0.63, bracketed
    // generously to allow for the fresh-prior transient).
    const BIAS_TRUE: f64 = 200.0;
    let mut kf = Kalman::new(0.0, 1.0);
    for i in 0..20 {
        let (measured, baseline) = step_plant(&kf, 3000.0, 0.0, BIAS_TRUE, 1.0);
        kf.update(f64::from(i) * KF_PERIOD_S, measured, baseline, 0.0);
    }
    let bias = kf.bias();
    assert!(
        bias > 0.45 * BIAS_TRUE && bias < 0.80 * BIAS_TRUE,
        "after ≈1 τ, bias = {bias}, want in ({}, {})",
        0.45 * BIAS_TRUE,
        0.80 * BIAS_TRUE
    );
}

#[test]
fn learns_gain_across_onsets() {
    // A GPU-heavy operating point (w = 900 RPM of modeled GPU slope)
    // with the plant's true slope 15% steeper than calibrated: the
    // gain state absorbs it.
    const GAIN_TRUE: f64 = 1.15;
    const W: f64 = 900.0;
    let mut kf = Kalman::new(0.0, 1.0);
    for i in 0..300 {
        let (measured, baseline) = step_plant(&kf, 3250.0, W, 0.0, GAIN_TRUE);
        kf.update(f64::from(i) * KF_PERIOD_S, measured, baseline, W);
    }
    let gain = kf.gain();
    assert!(
        (gain - GAIN_TRUE).abs() < 0.05,
        "gain = {gain}, want ≈ {GAIN_TRUE}"
    );
}

#[test]
fn gain_decouples_from_bias() {
    // The covariance-structure decoupling claim, asserted: a combined
    // plant (offset error AND slope error) under alternating operating
    // points separates cleanly into the two states, so the same residual
    // is not corrected twice.
    const BIAS_TRUE: f64 = 100.0;
    const GAIN_TRUE: f64 = 1.15;
    let mut kf = Kalman::new(0.0, 1.0);
    for i in 0..400 {
        let w = if i % 2 == 0 { 0.0 } else { 900.0 };
        let (measured, baseline) = step_plant(&kf, 3000.0, w, BIAS_TRUE, GAIN_TRUE);
        kf.update(f64::from(i) * KF_PERIOD_S, measured, baseline, w);
    }
    let (bias, gain) = (kf.bias(), kf.gain());
    assert!(
        (bias - BIAS_TRUE).abs() < 25.0,
        "bias = {bias}, want ≈ {BIAS_TRUE}"
    );
    assert!(
        (gain - GAIN_TRUE).abs() < 0.08,
        "gain = {gain}, want ≈ {GAIN_TRUE}"
    );
}

#[test]
fn out_of_authority_bias_pins_at_max() {
    // 550 RPM of true bias > the 400 RPM authority: bias walks to the
    // +max clamp and stays EXACTLY there (saturating, not rejecting) —
    // the controller's TargetUnreachable flag keys off the pin.
    const BIAS_TRUE: f64 = 550.0;
    let mut kf = Kalman::new(0.0, 1.0);
    for i in 0..200 {
        let (measured, baseline) = step_plant(&kf, 3250.0, 0.0, BIAS_TRUE, 1.0);
        kf.update(f64::from(i) * KF_PERIOD_S, measured, baseline, 0.0);
    }
    assert_eq!(kf.bias(), MAX_BIAS_AUTHORITY_RPM);
}

#[test]
fn gain_clamp_rejects_whole_update_bit_identical() {
    let mut kf = Kalman::new(0.0, 1.0);
    let before = kf.snapshot();
    // On the fresh prior at w = 900 the gain's Kalman gain is ≈ 1e-3:
    // a ~1e6 RPM innovation drives the candidate gain past GAIN_MAX by
    // orders of magnitude. The whole update must vanish without trace.
    assert!(!kf.update(0.0, 1.0e6, 0.0, 900.0));
    assert_eq!(
        kf.snapshot(),
        before,
        "state AND covariance must be bit-identical"
    );
    // And the cadence slot was NOT consumed: a sane call 1 s later is
    // accepted immediately.
    assert!(kf.update(1.0, 2100.0, 2000.0, 0.0));
}

#[test]
fn non_finite_inputs_rejected_and_slot_not_consumed() {
    let mut kf = Kalman::new(0.0, 1.0);
    let before = kf.snapshot();
    assert!(!kf.update(0.0, f64::NAN, 2000.0, 0.0));
    assert!(!kf.update(1.0, 2100.0, f64::INFINITY, 0.0));
    assert!(!kf.update(2.0, 2100.0, 2000.0, f64::NEG_INFINITY));
    assert_eq!(kf.snapshot(), before);
    // The garbage calls did not pin a cadence baseline: a clean call
    // right after still integrates immediately.
    assert!(kf.update(3.0, 2100.0, 2000.0, 0.0));
}

#[test]
fn covariance_trace_capped_under_alternating_excitation() {
    let mut kf = Kalman::new(0.0, 1.0);
    for i in 0..500 {
        let w = if i % 2 == 0 { 0.0 } else { 900.0 };
        let (measured, baseline) = step_plant(&kf, 3000.0, w, 100.0, 1.15);
        kf.update(f64::from(i) * KF_PERIOD_S, measured, baseline, w);
        let trace = kf.trace();
        assert!(
            trace.is_finite() && trace <= TRACE_CAP,
            "trace = {trace} at tick {i}"
        );
    }
}

#[test]
fn a_corrected_slope_never_falls_below_its_least() {
    for gain in [f64::NEG_INFINITY, -3.0, 0.0, 0.6, 0.61, 1.0, 1.6, 40.0, f64::NAN] {
        let mut kf = Kalman::new(0.0, gain);
        for (i, w) in [0.0, 35.0, 70.0, 140.0].into_iter().enumerate() {
            kf.update(i as f64 * KF_PERIOD_S, 0.0, 2000.0, w);
            assert!(f(kf.0.theta.b) * 2.0 >= 1.2);
            assert!(f(kf.0.theta.b) * 7.5 >= 1.2);
        }
    }
    assert_eq!(f(Kalman::new(0.0, 0.1).0.theta.b) * 2.0, 1.2);
}

#[test]
fn an_update_without_a_time_is_rejected() {
    let mut kf = Kalman::new(0.0, 1.0);
    let before = kf.snapshot();
    for t in [f64::NAN, f64::INFINITY, f64::NEG_INFINITY] {
        assert!(!kf.update(t, 2100.0, 2000.0, 0.0));
        assert_eq!((kf.bias(), kf.gain()), (0.0, 1.0));
        assert_eq!(kf.snapshot(), before);
    }
    // The slot is free, and the cadence holds once it is taken.
    assert!(kf.update(0.0, 2100.0, 2000.0, 0.0));
    let taken = kf.snapshot();
    assert!(!kf.update(f64::NAN, 2100.0, 2000.0, 0.0));
    assert!(!kf.update(19.0, 2100.0, 2000.0, 0.0));
    assert_eq!(kf.snapshot(), taken);
    assert!(kf.update(20.0, 2100.0, 2000.0, 0.0));
}
