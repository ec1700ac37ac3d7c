//! The clock-to-watts table.

use fw_fanctrl_loop::lut as lut_lib;
use fw_fanctrl_loop::num::Num;

fn n(x: f64) -> Num {
    Num::from_bits(x.to_bits())
}

fn f(x: Num) -> f64 {
    f64::from_bits(x.to_bits())
}

/// A table driven in plain numbers.
struct ClockWattsLut(lut_lib::ClockWattsLut);

impl ClockWattsLut {
    fn new() -> Self {
        ClockWattsLut(lut_lib::ClockWattsLut::new())
    }

    fn insert(&mut self, mhz: u32, watts: f64) {
        self.0.insert(mhz, n(watts));
    }

    fn len(&self) -> usize {
        self.0.len()
    }

    fn is_empty(&self) -> bool {
        self.0.is_empty()
    }

    fn clock_for_watts(&self, w: f64) -> Option<u32> {
        self.0.clock_for_watts(n(w))
    }

    fn watts_for_clock(&self, mhz: u32) -> Option<f64> {
        self.0.watts_for_clock(mhz).map(f)
    }
}

#[test]
fn lut_epsilon_is_a_millionth() {
    assert_eq!(f64::from_bits(lut_lib::WHOLE_MHZ_EPSILON), 1e-6);
}

#[test]
fn clocks_stay_within_the_table_whatever_the_budget() {
    let lut = lut3();
    for k in -50..300 {
        let clock = lut.clock_for_watts(k as f64 * 0.73).unwrap();
        assert!((1200..=2800).contains(&clock));
    }
    assert_eq!(lut.clock_for_watts(f64::NAN), Some(1200));
    assert_eq!(lut.clock_for_watts(f64::INFINITY), Some(2800));
    assert_eq!(lut.clock_for_watts(f64::NEG_INFINITY), Some(1200));
}

#[test]
fn a_default_table_is_empty() {
    assert!(lut_lib::ClockWattsLut::default().is_empty());
}

/// The 3-point LUT from the plan: 30 W @ 1200, 60 W @ 2000, 100 W @ 2800.
fn lut3() -> ClockWattsLut {
    let mut lut = ClockWattsLut::new();
    lut.insert(1200, 30.0);
    lut.insert(2000, 60.0);
    lut.insert(2800, 100.0);
    lut
}

#[test]
fn clock_for_watts_exact_point() {
    assert_eq!(lut3().clock_for_watts(60.0), Some(2000));
}

#[test]
fn clock_for_watts_interpolates_between_points() {
    // 45 W is halfway between 30 W @ 1200 and 60 W @ 2000 -> 1600 MHz.
    assert_eq!(lut3().clock_for_watts(45.0), Some(1600));
}

#[test]
fn clock_for_watts_clamps_high() {
    assert_eq!(lut3().clock_for_watts(120.0), Some(2800));
}

#[test]
fn clock_for_watts_clamps_low_never_below_lowest_known() {
    assert_eq!(lut3().clock_for_watts(10.0), Some(1200));
}

#[test]
fn watts_for_clock_interpolates() {
    let w = lut3().watts_for_clock(1600).unwrap();
    assert!((w - 45.0).abs() < 1e-9, "got {w}");
}

#[test]
fn watts_for_clock_exact_and_clamped() {
    let lut = lut3();
    assert_eq!(lut.watts_for_clock(2000), Some(60.0));
    assert_eq!(lut.watts_for_clock(500), Some(30.0)); // clamp low
    assert_eq!(lut.watts_for_clock(4000), Some(100.0)); // clamp high
}

#[test]
fn insert_unsorted_ends_up_sorted() {
    let mut lut = ClockWattsLut::new();
    lut.insert(2800, 100.0);
    lut.insert(1200, 30.0);
    lut.insert(2000, 60.0);
    // Sorted order is observable through interpolation correctness.
    assert_eq!(lut.len(), 3);
    assert_eq!(lut.clock_for_watts(45.0), Some(1600));
    assert_eq!(lut.clock_for_watts(60.0), Some(2000));
}

#[test]
fn insert_duplicate_mhz_replaces_len_unchanged() {
    let mut lut = lut3();
    lut.insert(2000, 70.0);
    assert_eq!(lut.len(), 3);
    assert_eq!(lut.watts_for_clock(2000), Some(70.0));
}

#[test]
fn lut_empty_lut_returns_none() {
    let lut = ClockWattsLut::new();
    assert!(lut.is_empty());
    assert_eq!(lut.clock_for_watts(50.0), None);
    assert_eq!(lut.watts_for_clock(2000), None);
}

#[test]
fn single_point_lut_clamps_both_ways() {
    let mut lut = ClockWattsLut::new();
    lut.insert(2000, 60.0);
    assert_eq!(lut.clock_for_watts(10.0), Some(2000));
    assert_eq!(lut.clock_for_watts(200.0), Some(2000));
    assert_eq!(lut.watts_for_clock(100), Some(60.0));
    assert_eq!(lut.watts_for_clock(9000), Some(60.0));
}

#[test]
fn non_monotonic_data_yields_conservative_lower_clock() {
    // Dip at 2000 MHz: 60 W @ 1200, 50 W @ 2000 (dip), 100 W @ 2800.
    let mut lut = ClockWattsLut::new();
    lut.insert(1200, 60.0);
    lut.insert(2000, 50.0);
    lut.insert(2800, 100.0);
    // 55 W: scanning from the top, the (2000, 2800) bracket interpolates
    // 55 W at 2080 MHz — the highest clock fitting the budget.
    assert_eq!(lut.clock_for_watts(55.0), Some(2080));
    // 40 W fits nowhere (min measured is 50 W): clamp to lowest clock.
    assert_eq!(lut.clock_for_watts(40.0), Some(1200));
}

#[test]
fn no_measured_clock_above_the_answer_fits() {
    let points = [(1000, 30.0), (1400, 52.0), (1800, 47.0), (2200, 80.0), (2600, 78.0)];
    let mut lut = ClockWattsLut::new();
    for (mhz, watts) in points {
        lut.insert(mhz, watts);
    }
    for budget in [0.0, 30.0, 40.0, 47.0, 50.0, 52.0, 60.0, 77.9, 78.0, 79.0, 80.0, 500.0] {
        let clock = lut.clock_for_watts(budget).unwrap();
        for (mhz, watts) in points {
            assert!(mhz <= clock || watts > budget, "{budget} W gives {clock}");
        }
    }
    assert_eq!(lut.clock_for_watts(79.0), Some(2600));
    assert_eq!(lut.clock_for_watts(47.0), Some(1800));
}

#[test]
fn an_interpolated_clock_is_the_largest_that_fits() {
    let lut = lut3();
    for k in 0..600 {
        let w = 30.0 + k as f64 * 0.05;
        let clock = lut.clock_for_watts(w).unwrap();
        let crossing = 1200.0 + (w - 30.0) / 30.0 * 800.0;
        assert!(f64::from(clock) <= crossing + 2e-6, "{clock} over {crossing}");
        assert!(f64::from(clock) + 1.0 > crossing, "{clock} under {crossing}");
    }
    assert_eq!(lut.clock_for_watts(45.0), Some(1600));
    assert_eq!(lut.clock_for_watts(45.03), Some(1600));
    assert_eq!(lut.clock_for_watts(45.04), Some(1601));
}

#[test]
fn the_order_of_inserts_does_not_matter() {
    let mut a = lut_lib::ClockWattsLut::new();
    let mut b = lut_lib::ClockWattsLut::new();
    let points = [(2000, 60.0), (1200, 30.0), (2800, 100.0), (1600, 44.0)];
    for (mhz, w) in points {
        a.insert(mhz, n(w));
    }
    for (mhz, w) in points.iter().rev() {
        b.insert(*mhz, n(*w));
    }
    let plain = |l: &lut_lib::ClockWattsLut| -> Vec<(u32, f64)> {
        l.points.iter().map(|p| (p.0, f(p.1))).collect()
    };
    assert_eq!(plain(&a), plain(&b));
    assert_eq!(plain(&a), vec![(1200, 30.0), (1600, 44.0), (2000, 60.0), (2800, 100.0)]);
}

#[test]
fn a_point_just_added_is_read_back() {
    let mut lut = lut3();
    for (mhz, w) in [(1500, 41.25), (2000, 59.0), (900, 20.0), (3000, 120.0)] {
        lut.insert(mhz, w);
        assert_eq!(lut.watts_for_clock(mhz), Some(w));
    }
}

#[test]
fn no_clock_above_the_answer_fits() {
    let mut lut = ClockWattsLut::new();
    for (mhz, w) in [(1200, 30.0), (1500, 41.3), (1700, 38.9), (2000, 60.1), (2800, 100.0)] {
        lut.insert(mhz, w);
    }
    for k in 0..80 {
        let target = 25.0 + f64::from(k) * 1.01;
        let clock = lut.clock_for_watts(target).unwrap();
        for mhz in clock + 1..=2800 {
            assert!(lut.watts_for_clock(mhz).unwrap() > target - 1e-12, "{target}: {mhz}");
        }
        let own = lut.watts_for_clock(clock).unwrap();
        assert!(own <= target + 1e-6 || clock == 1200, "{target}: {clock} draws {own}");
    }
    assert_eq!(lut.clock_for_watts(29.0), Some(1200));
    assert_eq!(lut.clock_for_watts(40.0), Some(1715));
}
