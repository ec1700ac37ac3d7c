//! Demand estimate and budget split.

use fw_fanctrl_loop::allocator as alloc_lib;
use fw_fanctrl_loop::types as types_lib;
use fw_fanctrl_loop::num::Num;

fn n(x: f64) -> Num {
    Num::from_bits(x.to_bits())
}

fn f(x: Num) -> f64 {
    f64::from_bits(x.to_bits())
}

const UP_RATE_W: f64 = 2.0;
const DOWN_RATE_W: f64 = 8.0;

/// Scores in plain numbers.
#[derive(Clone, Copy)]
struct Demand {
    cpu_starved: f64,
    gpu_starved: f64,
}

impl Demand {
    fn bits(self) -> alloc_lib::Demand {
        alloc_lib::Demand {
            cpu_starved: n(self.cpu_starved),
            gpu_starved: n(self.gpu_starved),
        }
    }
}

/// Readings in plain numbers.
#[derive(Clone, Copy)]
struct Sample {
    cpu_pkg_w: f64,
    cpu_util_pct: f64,
    gpu_w: f64,
    gpu_w_valid: bool,
    gpu_sm_mhz: f64,
    gpu_mhz_valid: bool,
    gpu_util_pct: f64,
}

fn demand(s: &Sample, cpu: Option<f64>, gpu: Option<f64>, mhz: Option<u32>) -> Demand {
    let load = types_lib::Sample {
        cpu_pkg_w: n(s.cpu_pkg_w),
        cpu_util_pct: n(s.cpu_util_pct),
        gpu_w: n(s.gpu_w),
        gpu_w_valid: s.gpu_w_valid,
        gpu_sm_mhz: n(s.gpu_sm_mhz),
        gpu_mhz_valid: s.gpu_mhz_valid,
        gpu_util_pct: n(s.gpu_util_pct),
        ..types_lib::Sample::default()
    };
    let d = alloc_lib::demand(&load, cpu.map(n), gpu.map(n), mhz);
    Demand {
        cpu_starved: f(d.cpu_starved),
        gpu_starved: f(d.gpu_starved),
    }
}

fn split_budget(budget: f64, d: Demand, cf: f64, gf: f64, cm: f64, gm: f64) -> (f64, f64) {
    let (c, g) = alloc_lib::split_budget(n(budget), d.bits(), n(cf), n(gf), n(cm), n(gm));
    (f(c), f(g))
}

fn quantize(w: f64) -> f64 {
    f(alloc_lib::quantize(n(w)))
}

/// An input in plain numbers.
struct AllocInput {
    budget_w: f64,
    demand: Demand,
    floors: f64,
    cpu_max_w: f64,
    gpu_max_w: f64,
    gpu_floor_w: f64,
}

/// An allocator driven in plain numbers.
struct Allocator(alloc_lib::Allocator);

impl Allocator {
    fn new() -> Self {
        Allocator(alloc_lib::Allocator::new())
    }

    fn step(&mut self, i: &AllocInput) -> (f64, f64) {
        let (c, g) = self.0.step(&alloc_lib::AllocInput {
            budget_w: n(i.budget_w),
            demand: i.demand.bits(),
            floors: n(i.floors),
            cpu_max_w: n(i.cpu_max_w),
            gpu_max_w: n(i.gpu_max_w),
            gpu_floor_w: n(i.gpu_floor_w),
        });
        (f(c), f(g))
    }

    fn reset(&mut self) {
        self.0.reset();
    }
}

#[test]
fn allocator_constants_are_the_intended_numbers() {
    for (bits, value) in [
        (alloc_lib::GRID_STEP_W, 0.5),
        (alloc_lib::UP_RATE_W, UP_RATE_W),
        (alloc_lib::DOWN_RATE_W, DOWN_RATE_W),
        (alloc_lib::CPU_MAX_W, 54.0),
        (alloc_lib::GPU_MAX_W, 100.0),
        (alloc_lib::CPU_PINNED_MARGIN_W, 1.5),
        (alloc_lib::GPU_PINNED_MARGIN_MHZ, 30.0),
        (alloc_lib::GPU_PINNED_UTIL_PCT, 90.0),
        (alloc_lib::PERCENT, 100.0),
        (alloc_lib::HALF, 0.5),
    ] {
        assert_eq!(f64::from_bits(bits), value);
    }
}

#[test]
fn a_step_keeps_its_floors_and_rates_whatever_the_budget() {
    let mut alloc = Allocator::new();
    let mut prev = (15.2, 7.3);
    for k in 0..200 {
        let (c, g) = alloc.step(&AllocInput {
            budget_w: ((k * 37) % 190) as f64 - 20.0,
            demand: Demand {
                cpu_starved: (k % 5) as f64 / 4.0,
                gpu_starved: (k % 3) as f64 / 2.0,
            },
            floors: 15.2,
            cpu_max_w: 54.0,
            gpu_max_w: 100.0,
            gpu_floor_w: 7.3,
        });
        assert!(c >= 15.2 && g >= 7.3);
        assert!(c <= prev.0 + UP_RATE_W && c >= prev.0 - DOWN_RATE_W);
        assert!(g <= prev.1 + UP_RATE_W && g >= prev.1 - DOWN_RATE_W);
        prev = (c, g);
    }
}

#[test]
fn a_default_allocator_has_no_last_command() {
    assert!(alloc_lib::Allocator::default().last.is_none());
}

const D_EQUAL: Demand = Demand {
    cpu_starved: 1.0,
    gpu_starved: 1.0,
};
const D_ZERO: Demand = Demand {
    cpu_starved: 0.0,
    gpu_starved: 0.0,
};
const D_CPU_ONLY: Demand = Demand {
    cpu_starved: 1.0,
    gpu_starved: 0.0,
};
const D_GPU_ONLY: Demand = Demand {
    cpu_starved: 0.0,
    gpu_starved: 1.0,
};

// ---- split_budget: floors ------------------------------------------

#[test]
fn floors_always_met_even_under_budget() {
    // Budget below the sum of the floors: both floors still come back.
    let (cpu_w, gpu_w) = split_budget(10.0, D_EQUAL, 15.0, 10.0, 54.0, 100.0);
    assert_eq!(cpu_w, 15.0);
    assert_eq!(gpu_w, 10.0);
}

#[test]
fn floors_met_exactly_at_the_floors_sum() {
    let (cpu_w, gpu_w) = split_budget(25.0, D_EQUAL, 15.0, 10.0, 54.0, 100.0);
    assert_eq!(cpu_w, 15.0);
    assert_eq!(gpu_w, 10.0);
}

#[test]
fn zero_floors_are_a_no_op() {
    let (cpu_w, gpu_w) = split_budget(40.0, D_EQUAL, 0.0, 0.0, 54.0, 100.0);
    assert_eq!(cpu_w, 20.0);
    assert_eq!(gpu_w, 20.0);
}

// ---- split_budget: demand-proportional remainder --------------------

#[test]
fn remainder_splits_in_proportion_to_demand() {
    // floors (5, 5), remainder 40, demand 3:1 cpu:gpu → 30/10 on top.
    let d = Demand {
        cpu_starved: 0.75,
        gpu_starved: 0.25,
    };
    let (cpu_w, gpu_w) = split_budget(50.0, d, 5.0, 5.0, 54.0, 100.0);
    assert!((cpu_w - 35.0).abs() < 1e-9, "cpu_w = {cpu_w}");
    assert!((gpu_w - 15.0).abs() < 1e-9, "gpu_w = {gpu_w}");
}

#[test]
fn cpu_only_demand_sends_the_whole_remainder_to_cpu() {
    let (cpu_w, gpu_w) = split_budget(50.0, D_CPU_ONLY, 5.0, 5.0, 54.0, 100.0);
    assert_eq!(cpu_w, 45.0);
    assert_eq!(gpu_w, 5.0);
}

#[test]
fn equal_split_at_zero_demand() {
    // Neither axis is starved: the surplus above the floors splits evenly.
    let (cpu_w, gpu_w) = split_budget(50.0, D_ZERO, 10.0, 10.0, 54.0, 100.0);
    assert_eq!(cpu_w, 25.0);
    assert_eq!(gpu_w, 25.0);
}

// ---- split_budget: caps + surplus reassignment -----------------------

#[test]
fn cpu_surplus_over_its_cap_is_reassigned_to_gpu() {
    // All-CPU demand wants the whole 100 W remainder on cpu_max_w = 20;
    // the 80 W it cannot hold goes to GPU instead of being dropped.
    let (cpu_w, gpu_w) = split_budget(100.0, D_CPU_ONLY, 0.0, 0.0, 20.0, 100.0);
    assert_eq!(cpu_w, 20.0, "capped at cpu_max_w");
    assert_eq!(gpu_w, 80.0, "cpu's rejected surplus lands on gpu");
}

#[test]
fn gpu_surplus_over_its_cap_is_reassigned_to_cpu() {
    let (cpu_w, gpu_w) = split_budget(100.0, D_GPU_ONLY, 0.0, 0.0, 100.0, 30.0);
    assert_eq!(gpu_w, 30.0, "capped at gpu_max_w");
    assert_eq!(cpu_w, 70.0, "gpu's rejected surplus lands on cpu");
}

#[test]
fn surplus_neither_axis_can_absorb_is_simply_unspent() {
    // Budget exceeds cpu_max_w + gpu_max_w: both axes pin at their caps,
    // the excess has nowhere to go and is dropped rather than violating
    // either cap.
    let (cpu_w, gpu_w) = split_budget(200.0, D_EQUAL, 0.0, 0.0, 20.0, 30.0);
    assert_eq!(cpu_w, 20.0);
    assert_eq!(gpu_w, 30.0);
}

// ---- Allocator::step: slew clamp -------------------------------------

fn step_inp(budget_w: f64, demand: Demand) -> AllocInput {
    AllocInput {
        budget_w,
        demand,
        floors: 15.0,
        cpu_max_w: 54.0,
        gpu_max_w: 100.0,
        gpu_floor_w: 5.0,
    }
}

#[test]
fn up_rate_clamps_the_first_step_from_the_floors() {
    let mut alloc = Allocator::new();
    // First step starts from the floors (15, 5); a huge budget wants far
    // more than UP_RATE_W = 2.0 W of climb in one tick.
    let (cpu_w, gpu_w) = alloc.step(&step_inp(200.0, D_EQUAL));
    assert_eq!(cpu_w, 17.0, "cpu floor + UP_RATE_W");
    assert_eq!(gpu_w, 7.0, "gpu floor + UP_RATE_W");
}

#[test]
fn down_rate_clamps_a_shrinking_budget() {
    let mut alloc = Allocator::new();
    let mut prev = (0.0, 0.0);
    for _ in 0..40 {
        prev = alloc.step(&step_inp(200.0, D_EQUAL)); // climb toward the caps
    }
    let (cpu_w, gpu_w) = alloc.step(&step_inp(20.0, D_EQUAL)); // budget collapses
    // DOWN_RATE_W = 8.0: one tick cannot cut further than that, even
    // though the target (well below the floors' sum here) is far below.
    assert!(
        (prev.0 - cpu_w - DOWN_RATE_W).abs() < 1e-9,
        "cpu_w = {cpu_w} should be exactly DOWN_RATE_W below the previous point {}",
        prev.0
    );
    assert!(
        (prev.1 - gpu_w - DOWN_RATE_W).abs() < 1e-9,
        "gpu_w = {gpu_w} should be exactly DOWN_RATE_W below the previous point {}",
        prev.1
    );
}

#[test]
fn per_tick_change_never_exceeds_the_rate_limits() {
    let mut alloc = Allocator::new();
    let mut prev = (15.0, 5.0); // the floors, the implicit start
    for budget in [90.0, 5.0, 160.0, 5.0, 90.0] {
        let (cpu_w, gpu_w) = alloc.step(&step_inp(budget, D_EQUAL));
        let d_cpu = cpu_w - prev.0;
        let d_gpu = gpu_w - prev.1;
        assert!(
            (-DOWN_RATE_W - 1e-9..=UP_RATE_W + 1e-9).contains(&d_cpu),
            "cpu step {d_cpu} outside [-{DOWN_RATE_W}, {UP_RATE_W}]"
        );
        assert!(
            (-DOWN_RATE_W - 1e-9..=UP_RATE_W + 1e-9).contains(&d_gpu),
            "gpu step {d_gpu} outside [-{DOWN_RATE_W}, {UP_RATE_W}]"
        );
        prev = (cpu_w, gpu_w);
    }
}

// ---- Allocator::step: floor wins over the slew clamp -----------------

#[test]
fn a_raised_cpu_floor_lifts_the_axis_past_the_up_rate() {
    let mut alloc = Allocator::new();
    alloc.step(&step_inp(20.0, D_EQUAL)); // settle near the floors
    let mut inp = step_inp(20.0, D_EQUAL);
    inp.floors = 40.0; // floor jumps 25 W above the last commanded point
    let (cpu_w, _) = alloc.step(&inp);
    assert_eq!(cpu_w, 40.0, "the raised floor must land immediately");
}

#[test]
fn a_raised_gpu_floor_lifts_the_axis_past_the_up_rate() {
    let mut alloc = Allocator::new();
    alloc.step(&step_inp(20.0, D_EQUAL));
    let mut inp = step_inp(20.0, D_EQUAL);
    inp.gpu_floor_w = 60.0;
    let (_, gpu_w) = alloc.step(&inp);
    assert_eq!(gpu_w, 60.0, "the raised gpu floor must land immediately");
}

// ---- Allocator::step: floor beats grid quantisation -------------------

#[test]
fn a_non_grid_aligned_cpu_floor_is_met_exactly_through_step() {
    // A floor of 15.2 W is no multiple of GRID_STEP_W = 0.5, and on the
    // grid it would round down to 15.0. The floor must come out exactly,
    // even though that leaves the output off the 0.5 W grid.
    let mut alloc = Allocator::new();
    let inp = AllocInput {
        budget_w: 15.2, // right at the floor: raw_cpu == cpu_floor == 15.2
        demand: D_EQUAL,
        floors: 15.2,
        cpu_max_w: 54.0,
        gpu_max_w: 100.0,
        gpu_floor_w: 5.0,
    };
    let (cpu_w, _) = alloc.step(&inp);
    assert_eq!(
        cpu_w, 15.2,
        "cpu floor must be met exactly, not quantised down"
    );
}

#[test]
fn a_non_grid_aligned_gpu_floor_is_met_exactly_through_step() {
    // Symmetric case on the GPU axis (gpu_floor_w derives from an
    // interpolated LUT lookup in the real controller, so it is routinely
    // off-grid too). quantize(7.2) rounds down to 7.0 — budget is set to
    // exactly the floors' sum so both raw targets land exactly on their
    // floor (no rate-clamp interference), isolating the quantise-vs-floor
    // ordering.
    let mut alloc = Allocator::new();
    let inp = AllocInput {
        budget_w: 22.2, // == cpu floor (15.0) + gpu floor (7.2): remainder is 0
        demand: D_EQUAL,
        floors: 15.0,
        cpu_max_w: 54.0,
        gpu_max_w: 100.0,
        gpu_floor_w: 7.2,
    };
    let (_, gpu_w) = alloc.step(&inp);
    assert_eq!(
        gpu_w, 7.2,
        "gpu floor must be met exactly, not quantised down"
    );
}

#[test]
fn quantising_a_non_grid_prev_point_does_not_blow_the_up_rate() {
    // Quantising the rate-clamped value can itself round the
    // result *outside* the bound the rate clamp just enforced, when the
    // previous commanded point is off-grid. That happens whenever a
    // floor *rise* outruns UP_RATE_W: the rate clamp caps the climb
    // below the new floor, so the "floor always wins" override sets the
    // commanded point to the floor exactly — off-grid, whatever the
    // floor's own alignment (gpu_floor_w is always an LUT-interpolated
    // wattage, and cpu_floor_w is never grid-aligned by
    // `Config::sanitized`, so this is routine, not a rare corner case).
    // The next tick that wants to climb further then saturates the rate
    // clamp again, and pre-fix, quantize(prev + UP_RATE_W) rounded up
    // past prev + UP_RATE_W by up to half a grid step (e.g. prev =
    // 15.751 -> bound 17.751 -> quantize 18.0: a 2.249 W delta against
    // the 2.0 W cap).
    let mut alloc = Allocator::new();

    // Step 1: seed both axes at a grid-aligned (0, 0) start.
    let (cpu0, gpu0) = alloc.step(&AllocInput {
        budget_w: 0.0,
        demand: D_EQUAL,
        floors: 0.0,
        cpu_max_w: 54.0,
        gpu_max_w: 100.0,
        gpu_floor_w: 0.0,
    });
    assert_eq!((cpu0, gpu0), (0.0, 0.0), "premise: seeded at the floors");

    // Step 2: both floors jump up by more than UP_RATE_W in one tick
    // (15.751 and 8.251 are both legal, non-grid-aligned values). The
    // rate clamp caps the raw climb at 0 + UP_RATE_W = 2.0, well below
    // either new floor, so the floor override must fire and land each
    // axis exactly on its (off-grid) floor.
    let (cpu1, gpu1) = alloc.step(&AllocInput {
        budget_w: 15.751 + 8.251, // remainder 0: raw == floor on each axis
        demand: D_EQUAL,
        floors: 15.751,
        cpu_max_w: 54.0,
        gpu_max_w: 100.0,
        gpu_floor_w: 8.251,
    });
    assert_eq!(
        (cpu1, gpu1),
        (15.751, 8.251),
        "premise: a floor rise that outruns UP_RATE_W lands exactly on the (off-grid) floor"
    );

    // Step 3: floors hold, but demand is large enough to saturate the
    // up-rate clamp on both axes from this off-grid previous point.
    let (cpu2, gpu2) = alloc.step(&AllocInput {
        budget_w: 100.0,
        demand: D_EQUAL,
        floors: 15.751,
        cpu_max_w: 54.0,
        gpu_max_w: 100.0,
        gpu_floor_w: 8.251,
    });
    assert!(
        cpu2 - cpu1 <= UP_RATE_W + 1e-9,
        "cpu step-3 delta {} exceeds UP_RATE_W {} from non-grid prev {}",
        cpu2 - cpu1,
        UP_RATE_W,
        cpu1
    );
    assert!(
        gpu2 - gpu1 <= UP_RATE_W + 1e-9,
        "gpu step-3 delta {} exceeds UP_RATE_W {} from non-grid prev {}",
        gpu2 - gpu1,
        UP_RATE_W,
        gpu1
    );
    // Exact expected values: quantize(prev + UP_RATE_W) re-clamped back
    // down to prev + UP_RATE_W (18.0 -> 17.751, 10.5 -> 10.251).
    assert_eq!(cpu2, cpu1 + UP_RATE_W);
    assert_eq!(gpu2, gpu1 + UP_RATE_W);
}

// ---- Allocator::step: grid quantisation -------------------------------

#[test]
fn output_is_quantised_to_the_grid_step() {
    let mut alloc = Allocator::new();
    // From a (0, 0) floor start the up-rate clamp bounds the first step
    // to [0, UP_RATE_W] = [0, 2.0], so pick a budget whose demand-even
    // split (1.26 W/axis) lands off-grid but stays inside that bound.
    let inp = AllocInput {
        budget_w: 2.52,
        demand: D_EQUAL,
        floors: 0.0,
        cpu_max_w: 54.0,
        gpu_max_w: 100.0,
        gpu_floor_w: 0.0,
    };
    let (cpu_w, gpu_w) = alloc.step(&inp);
    assert_eq!(cpu_w, 1.5, "1.26 rounds to the nearest 0.5 W grid point");
    assert_eq!(gpu_w, 1.5, "1.26 rounds to the nearest 0.5 W grid point");
}

#[test]
fn quantisation_rounds_to_the_nearer_grid_point() {
    assert_eq!(quantize(10.24), 10.0);
    assert_eq!(quantize(10.26), 10.5);
    assert_eq!(quantize(10.25), 10.5); // .round() rounds half away from zero
}

// ---- Allocator::step: reset --------------------------------------

#[test]
fn reset_restarts_from_the_floors() {
    let mut alloc = Allocator::new();
    alloc.step(&step_inp(200.0, D_EQUAL));
    alloc.reset();
    let (cpu_w, gpu_w) = alloc.step(&step_inp(200.0, D_EQUAL));
    // Same as the very first step in `up_rate_clamps_the_first_step_from_the_floors`.
    assert_eq!(cpu_w, 17.0);
    assert_eq!(gpu_w, 7.0);
}

// ---- demand() ----------------------------------------------------------

fn sample() -> Sample {
    Sample {
        cpu_pkg_w: 20.0,
        cpu_util_pct: 40.0,
        gpu_w: 40.0,
        gpu_w_valid: true,
        gpu_sm_mhz: 1500.0,
        gpu_mhz_valid: true,
        gpu_util_pct: 60.0,
    }
}

#[test]
fn demand_cap_ratio() {
    let d = demand(&sample(), Some(40.0), Some(80.0), None);
    assert!((d.cpu_starved - 0.5).abs() < 1e-9);
    assert!((d.gpu_starved - 0.5).abs() < 1e-9);
}

#[test]
fn demand_ratio_capped_at_one() {
    let mut s = sample();
    s.cpu_pkg_w = 50.0; // bursting over a 40 W limit
    s.gpu_w = 90.0;
    let d = demand(&s, Some(40.0), Some(80.0), None);
    assert_eq!(d.cpu_starved, 1.0);
    assert_eq!(d.gpu_starved, 1.0);
}

#[test]
fn demand_cpu_pinned_boost() {
    let mut s = sample();
    s.cpu_pkg_w = 38.6; // within 1.5 W of the 40 W cap
    let d = demand(&s, Some(40.0), Some(80.0), None);
    assert_eq!(d.cpu_starved, 1.0);
    s.cpu_pkg_w = 38.4; // just outside the margin → plain ratio
    let d = demand(&s, Some(40.0), Some(80.0), None);
    assert!((d.cpu_starved - 0.96).abs() < 1e-9);
}

#[test]
fn demand_gpu_pinned_boost() {
    let mut s = sample();
    s.gpu_w = 20.0; // draw ratio alone would say 0.25...
    s.gpu_sm_mhz = 1980.0; // ...but the clock sits at the 2000 MHz lock
    s.gpu_util_pct = 95.0;
    let d = demand(&s, Some(40.0), Some(80.0), Some(2000));
    assert_eq!(d.gpu_starved, 1.0);
    // Clock-pinned but idle (util ≤ 90) is not starvation.
    s.gpu_util_pct = 85.0;
    let d = demand(&s, Some(40.0), Some(80.0), Some(2000));
    assert!((d.gpu_starved - 0.25).abs() < 1e-9);
    // Clock well below the lock → demand-limited, no boost.
    s.gpu_util_pct = 95.0;
    s.gpu_sm_mhz = 1900.0;
    let d = demand(&s, Some(40.0), Some(80.0), Some(2000));
    assert!((d.gpu_starved - 0.25).abs() < 1e-9);
    // Invalid clock reading → no boost off a phantom pin.
    s.gpu_sm_mhz = 1980.0;
    s.gpu_mhz_valid = false;
    let d = demand(&s, Some(40.0), Some(80.0), Some(2000));
    assert!((d.gpu_starved - 0.25).abs() < 1e-9);
}

#[test]
fn demand_fallbacks_without_limits() {
    // No caps active → utilization is the only signal.
    let d = demand(&sample(), None, None, None);
    assert!((d.cpu_starved - 0.4).abs() < 1e-9);
    assert!((d.gpu_starved - 0.6).abs() < 1e-9);
    // Utilization above 100 (rounding glitches) still capped at 1.
    let mut s = sample();
    s.cpu_util_pct = 130.0;
    s.gpu_util_pct = 130.0;
    let d = demand(&s, None, None, None);
    assert_eq!(d.cpu_starved, 1.0);
    assert_eq!(d.gpu_starved, 1.0);
}

#[test]
fn demand_invalid_samples_fall_back_to_utilization() {
    // Dead RAPL (pkg 0) with a limit set → utilization fallback.
    let mut s = sample();
    s.cpu_pkg_w = 0.0;
    let d = demand(&s, Some(40.0), Some(80.0), None);
    assert!((d.cpu_starved - 0.4).abs() < 1e-9);
    // Invalid NVML power with a target set → utilization fallback.
    let mut s = sample();
    s.gpu_w_valid = false;
    let d = demand(&s, Some(40.0), Some(80.0), None);
    assert!((d.gpu_starved - 0.6).abs() < 1e-9);
}

#[test]
fn demand_non_finite_readings_score_zero() {
    let mut s = sample();
    s.cpu_pkg_w = f64::NAN;
    s.cpu_util_pct = f64::INFINITY;
    s.gpu_w = f64::NAN;
    s.gpu_util_pct = f64::NAN;
    s.gpu_sm_mhz = f64::INFINITY; // would look "clock-pinned" unguarded
    let d = demand(&s, Some(40.0), Some(80.0), Some(2000));
    assert_eq!(d.cpu_starved, 0.0, "garbage reading must not raise power");
    assert_eq!(d.gpu_starved, 0.0, "garbage reading must not raise power");
}

#[test]
fn no_watt_is_left_unspent() {
    let demands = [(0.0, 0.0), (1.0, 0.0), (0.3, 0.9), (1e-300, 0.7), (0.1, 0.2), (1.0, 1.0)];
    for (cpu_starved, gpu_starved) in demands {
        let d = Demand { cpu_starved, gpu_starved };
        for k in 0..60 {
            let budget = -20.0 + f64::from(k) * 4.3;
            let (c, g) = split_budget(budget, d, 8.0, 15.0, 54.0, 100.0);
            let spendable = budget.max(8.0 + 15.0).min(54.0 + 100.0);
            assert!((c + g - spendable).abs() < 1e-11, "{budget}: {c} + {g}");
        }
    }
    let d = Demand { cpu_starved: 1.0, gpu_starved: 1.0 };
    assert_eq!(split_budget(80.0, d, 10.0, 10.0, 20.0, 100.0), (20.0, 60.0));
}
