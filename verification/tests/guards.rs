//! Thermal guards.

use fw_fanctrl_loop::device_loop::{
    ActuatorState, DeviceLoop, Gains, Hold, Mhz, ThermalMode, TickInput, W,
};
use fw_fanctrl_loop::guards as guard_lib;
use fw_fanctrl_loop::guards::GuardState;
use fw_fanctrl_loop::num::Num;

fn n(x: f64) -> Num {
    Num::from_bits(x.to_bits())
}

fn f(x: Num) -> f64 {
    f64::from_bits(x.to_bits())
}

const DOWN_RATE_W: f64 = 8.0;

/// A ratchet driven in plain numbers.
struct MaxRatchet<U>(guard_lib::MaxRatchet<U>);

impl<U> MaxRatchet<U> {
    fn new(floor: f64, ceiling: f64, current: f64, down_rate: f64, recovery_c: f64) -> Self {
        MaxRatchet(guard_lib::MaxRatchet::new(
            n(floor),
            n(ceiling),
            n(current),
            n(down_rate),
            n(recovery_c),
        ))
    }

    fn set_floor(&mut self, floor: f64) {
        self.0.set_floor(n(floor));
    }

    fn step(&mut self, valid: bool, active: bool, temperature_c: Option<f64>) -> f64 {
        f(self.0.step(valid, active, temperature_c.map(n)))
    }
}

impl MaxRatchet<Mhz> {
    fn gpu(floor: f64, ceiling: f64, current: f64, hot_c: f64) -> Self {
        MaxRatchet(guard_lib::MaxRatchet::<Mhz>::gpu(
            n(floor),
            n(ceiling),
            n(current),
            n(hot_c),
        ))
    }
}

impl MaxRatchet<W> {
    fn cpu(floor: f64, ceiling: f64, current: f64, hot_c: f64) -> Self {
        MaxRatchet(guard_lib::MaxRatchet::<W>::cpu(
            n(floor),
            n(ceiling),
            n(current),
            n(hot_c),
        ))
    }
}

/// Guards driven in plain numbers.
struct Guards(guard_lib::Guards);

impl Guards {
    fn new(gpu_hot_c: f64, nvme_hot_c: f64) -> Self {
        Guards(guard_lib::Guards::new(n(gpu_hot_c), n(nvme_hot_c)))
    }

    fn step(&mut self, gpu: Option<f64>, nvme: Option<f64>) -> GuardState {
        self.0.step(gpu.map(n), nvme.map(n))
    }
}

fn gpu_share_override(current: f64, floor: f64) -> f64 {
    f(guard_lib::gpu_share_override(n(current), n(floor)))
}

#[test]
fn guard_constants_are_the_intended_numbers() {
    for (bits, value) in [
        (guard_lib::GPU_HOT_C_DEFAULT, 88.0),
        (guard_lib::NVME_HOT_C_DEFAULT, 80.0),
        (guard_lib::GPU_HYSTERESIS_C, 2.0),
        (guard_lib::NVME_HYSTERESIS_C, 5.0),
        (guard_lib::GPU_MAX_RATCHET_DOWN_RATE_MHZ, 105.0),
        (guard_lib::CPU_MAX_RATCHET_DOWN_RATE_W, 2.0),
        (guard_lib::GPU_MAX_RATCHET_RECOVERY_MARGIN_C, 4.0),
        (guard_lib::CPU_MAX_RATCHET_RECOVERY_MARGIN_C, 5.0),
    ] {
        assert_eq!(f64::from_bits(bits), value);
    }
}

#[test]
fn a_live_floor_keeps_the_ratchet_in_progress() {
    let mut cpu = MaxRatchet::<W>::cpu(8.0, 54.0, 54.0, 90.0);
    cpu.step(true, true, Some(95.0));
    cpu.set_floor(20.0);
    assert_eq!(cpu.step(false, false, None), 52.0);
    cpu.set_floor(60.0);
    assert_eq!(cpu.step(false, false, None), 60.0);
    assert_eq!(f(cpu.0.levels.ceiling), 60.0);
}

#[test]
fn bounds_given_the_wrong_way_round_are_swapped() {
    let mut m = MaxRatchet::<W>::new(50.0, 10.0, 70.0, 2.0, 80.0);
    assert_eq!(f(m.0.levels.floor), 10.0);
    assert_eq!(m.step(false, true, None), 50.0);
}

#[test]
fn hot_guard_ratchet_lowers_to_floor_and_recovers_below_margin() {
    let mut ratchet = MaxRatchet::<W>::cpu(10.0, 54.0, 54.0, 90.0);
    for _ in 0..30 {
        ratchet.step(true, true, Some(92.0));
    }
    let low = ratchet.step(true, true, Some(92.0));
    assert_eq!(low, 10.0);
    let recovering = ratchet.step(true, false, Some(84.0));
    assert!(recovering > low);
}

#[test]
fn gpu_max_ratchet_lowers_once_per_valid_active_sample() {
    let mut ratchet = MaxRatchet::<Mhz>::new(1_000.0, 3_090.0, 3_090.0, 105.0, 84.0);

    assert_eq!(ratchet.step(true, true, Some(88.0)), 2_985.0);
    assert_eq!(ratchet.step(true, true, Some(88.0)), 2_880.0);
    assert_eq!(ratchet.step(false, true, Some(88.0)), 2_880.0);
}

#[test]
fn device_ratchets_use_their_specified_units_and_recovery_gates() {
    let mut gpu = MaxRatchet::<Mhz>::gpu(1_000.0, 3_090.0, 1_000.0, 88.0);
    let mut cpu = MaxRatchet::<W>::cpu(8.0, 54.0, 54.0, 90.0);

    assert_eq!(
        gpu.step(true, false, Some(85.0)),
        1_000.0,
        "GPU exit band cannot recover"
    );
    assert_eq!(
        cpu.step(true, true, Some(90.0)),
        52.0,
        "CPU lowers in watts, not MHz"
    );
    assert_eq!(
        cpu.step(true, false, Some(86.0)),
        52.0,
        "CPU exit band cannot recover"
    );
    assert_eq!(gpu.step(true, false, Some(84.0)), 1_052.5);
    assert_eq!(cpu.step(true, false, Some(85.0)), 53.0);
}

#[test]
fn ratchets_stop_at_floor_and_recovery_stops_at_configured_max() {
    let mut gpu = MaxRatchet::<Mhz>::gpu(1_000.0, 3_090.0, 1_105.0, 88.0);
    assert_eq!(gpu.step(true, true, Some(95.0)), 1_000.0);
    assert_eq!(
        gpu.step(true, true, Some(95.0)),
        1_000.0,
        "floor is idempotent"
    );
    assert_eq!(
        gpu.step(false, true, Some(95.0)),
        1_000.0,
        "invalid samples do not ratchet"
    );

    let mut cpu = MaxRatchet::<W>::cpu(8.0, 9.5, 8.8, 90.0);
    assert_eq!(cpu.step(true, false, Some(85.0)), 9.5);
    assert_eq!(
        cpu.step(true, false, Some(85.0)),
        9.5,
        "configured max caps recovery"
    );
}

#[test]
fn gpu_exit_band_flapping_cannot_restore_or_cycle_its_max() {
    let mut guard = Guards::new(88.0, 80.0);
    let mut ratchet = MaxRatchet::<Mhz>::gpu(1_000.0, 3_090.0, 1_000.0, 88.0);

    assert!(guard.step(Some(88.0), None).gpu_hot);
    assert_eq!(ratchet.step(true, true, Some(88.0)), 1_000.0);
    for temperature in [87.9, 86.5, 86.0, 86.5, 87.9, 88.0] {
        let active = guard.step(Some(temperature), None).gpu_hot;
        assert_eq!(
            ratchet.step(true, active, Some(temperature)),
            1_000.0,
            "{temperature}C in the enter/exit band must not re-open the ceiling"
        );
    }
}

#[test]
fn hot_die_ratchet_clamps_a_cool_averaged_group_during_bypass_and_mismatch() {
    for (mode, actuator, expected_hold) in [
        (ThermalMode::Bypass, ActuatorState::Verified, Hold::Bypass),
        (
            ThermalMode::Regulate,
            ActuatorState::Mismatch,
            Hold::ActuatorMismatch,
        ),
    ] {
        let mut loop_ = DeviceLoop::<W>::new(Gains {
            kc: n(1.0),
            ti_s: n(10.0),
        });
        loop_.seed(n(100.0), n(0.0));
        loop_.transfer_shadow(n(100.0));
        let mut tick = TickInput {
            t_star: n(70.0),
            group_c: Some(n(60.0)),
            draw: Some(n(50.0)),
            floor: n(10.0),
            max: n(100.0),
            mode,
            actuator,
            dt_s: n(1.0),
            resumed: false,
            delta_tstar: n(0.0),
            shadow_headroom: n(10.0),
            shadow_fall_rate: n(0.33),
            shadow_enabled: false,
        };
        loop_.tick(tick);

        let mut ratchet = MaxRatchet::<W>::cpu(10.0, 100.0, 100.0, 90.0);
        tick.max = n(ratchet.step(true, true, Some(90.0)));
        let guarded = loop_.tick(tick);
        assert_eq!(f(guarded.cap), 98.0);
        assert_eq!(f(guarded.thermal), 98.0);
        assert_eq!(f(loop_.thermal()), 98.0);
        assert_eq!(guarded.hold, expected_hold);
        assert!(guarded.write_immediately);

        tick.max = n(ratchet.step(true, false, Some(85.0)));
        let recovered = loop_.tick(tick);
        assert_eq!(f(loop_.thermal()), 98.0, "recovery raises only the ceiling");
        assert!(!recovered.write_immediately);
    }
}

#[test]
fn gpu_hysteresis_enters_at_threshold_and_exits_two_below() {
    let mut g = Guards::new(88.0, 80.0);
    assert!(!g.step(Some(87.9), None).gpu_hot, "below enter: cold");
    assert!(g.step(Some(88.0), None).gpu_hot, "at enter: hot");
    assert!(
        g.step(Some(87.0), None).gpu_hot,
        "in the band (exit < t < enter): stays hot"
    );
    assert!(!g.step(Some(86.0), None).gpu_hot, "at exit: clears");
}

#[test]
fn nvme_hysteresis_enters_at_threshold_and_exits_five_below() {
    let mut g = Guards::new(88.0, 80.0);
    assert!(!g.step(None, Some(79.9)).nvme_hot, "below enter: cold");
    assert!(g.step(None, Some(80.0)).nvme_hot, "at enter: hot");
    assert!(
        g.step(None, Some(76.0)).nvme_hot,
        "in the band (exit < t < enter): stays hot"
    );
    assert!(!g.step(None, Some(75.0)).nvme_hot, "at exit: clears");
}

#[test]
fn none_reading_deactivates_and_clears_an_already_hot_gpu_guard() {
    let mut g = Guards::new(88.0, 80.0);
    assert!(g.step(Some(95.0), None).gpu_hot, "primed hot");
    let state = g.step(None, None);
    assert!(!state.gpu_hot, "absent reading clears hot state");
    // And it does not silently re-latch hot on the very next tick just
    // because the axis was hot two ticks ago — the guard must have
    // actually reset, not merely reported false once.
    let state = g.step(Some(87.0), None);
    assert!(
        !state.gpu_hot,
        "87 is below the 88 enter threshold (and above the 86 exit): a reset \
         guard stays cold, a guard that only 'reported' false would still be \
         latched hot"
    );
}

#[test]
fn none_reading_deactivates_and_clears_an_already_hot_nvme_guard() {
    let mut g = Guards::new(88.0, 80.0);
    assert!(g.step(None, Some(85.0)).nvme_hot, "primed hot");
    let state = g.step(None, None);
    assert!(!state.nvme_hot, "absent reading clears hot state");
}

#[test]
fn guards_are_independent_axes() {
    // A hot GPU must never flip nvme_hot and vice versa (a shared bool,
    // or thresholds swapped between axes, would fail this).
    let mut g = Guards::new(88.0, 80.0);
    let state = g.step(Some(95.0), Some(10.0));
    assert!(state.gpu_hot);
    assert!(!state.nvme_hot);
    let mut g = Guards::new(88.0, 80.0);
    let state = g.step(Some(10.0), Some(85.0));
    assert!(!state.gpu_hot);
    assert!(state.nvme_hot);
}

#[test]
fn gpu_share_override_ratchets_down_at_down_rate() {
    // Ordinary case, well above the floor: current − DOWN_RATE_W.
    assert_eq!(gpu_share_override(50.0, 5.0), 50.0 - DOWN_RATE_W);
}

#[test]
fn gpu_share_override_never_drops_below_the_floor() {
    // current − DOWN_RATE_W would undercut the floor; the floor wins.
    assert_eq!(gpu_share_override(10.0, 5.0), 5.0);
    // Already at the floor: stays exactly at the floor, not below it.
    assert_eq!(gpu_share_override(5.0, 5.0), 5.0);
}

#[test]
fn guard_state_carries_only_the_two_flags() {
    // Exhaustive destructure (no `..`): a third field would stop this from
    // compiling, which is the point of this test.
    let GuardState { gpu_hot, nvme_hot } = Guards::new(88.0, 80.0).step(None, None);
    assert_eq!((gpu_hot, nvme_hot), (false, false));
}
