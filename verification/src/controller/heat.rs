//! When the devices count as hot, and when their ceilings recover, told from
//! the readings.

use crate::controller::auto::{cpu_levels, gpu_levels, Session, CPU_HOT_BAND_C};
use crate::controller::config::Config;
use crate::guarding::{lemma_guard_constants, lemma_guard_follows_the_reading};
use crate::num::{unit, Num};
use crate::types::Sample;
use crate::values::{lemma_compare, lemma_difference_side, lemma_whole};
use vstd::arithmetic::power2::{lemma2_to64, lemma2_to64_rest, lemma_pow2_pos};
use vstd::prelude::*;

verus! {

/// A valid reading at the GPU's threshold makes it hot, one below does not, and
/// a hot one cools two degrees below. The drive's guard has a band of five
/// degrees. Without a reading neither is hot. `z` and `y` are any numbers from
/// the lower ends of the bands on.
pub proof fn lemma_guards_follow_their_readings(a: Session, s: Sample, c: Config, z: Num, y: Num)
    requires
        s.gpu_temp_c.finite() && a.guards.gpu_hot_c.finite() && a.guards.nvme_hot_c.finite(),
        s.nvme_temp_c is Some ==> s.nvme_temp_c->0.finite(),
        z.finite() && z.value() >= a.guards.gpu_hot_c.value() - 2 * unit(),
        y.finite() && y.value() >= a.guards.nvme_hot_c.value() - 5 * unit(),
    ensures
        ({
            let g = a.guarded(s, c).guards;
            let (t, hot) = (s.gpu_temp_c.value(), a.guards.gpu_hot_c.value());
            let (n, warm) = (s.nvme_temp_c->0.value(), a.guards.nvme_hot_c.value());
            &&& g.gpu_hot_c == a.guards.gpu_hot_c && g.nvme_hot_c == a.guards.nvme_hot_c
            &&& !s.gpu_temp_valid ==> !g.gpu_hot
            &&& s.gpu_temp_valid && !a.guards.gpu_hot ==> g.gpu_hot == (t >= hot)
            &&& a.guards.gpu_hot && t <= hot - 2 * unit() ==> !g.gpu_hot
            &&& s.gpu_temp_valid && a.guards.gpu_hot && t > z.value() ==> g.gpu_hot
            &&& s.nvme_temp_c is None ==> !g.nvme_hot
            &&& s.nvme_temp_c is Some && !a.guards.nvme_hot ==> g.nvme_hot == (n >= warm)
            &&& s.nvme_temp_c is Some && a.guards.nvme_hot && n <= warm - 5 * unit() ==> !g.nvme_hot
            &&& s.nvme_temp_c is Some && a.guards.nvme_hot && n > y.value() ==> g.nvme_hot
        }),
{
    reveal(Session::guarded);
    lemma_guard_constants();
    let (two, five) = (Num(crate::guards::GPU_HYSTERESIS_C), Num(crate::guards::NVME_HYSTERESIS_C));
    lemma_guard_follows_the_reading(
        a.guards.gpu_hot,
        s.gpu_temp_c,
        a.guards.gpu_hot_c,
        two,
        z,
    );
    crate::guards::lemma_missing_reading_clears(a.guards.gpu_hot, a.guards.gpu_hot_c, two);
    crate::guards::lemma_missing_reading_clears(a.guards.nvme_hot, a.guards.nvme_hot_c, five);
    if let Some(t) = s.nvme_temp_c {
        lemma_guard_follows_the_reading(a.guards.nvme_hot, t, a.guards.nvme_hot_c, five, y);
    }
}

/// The CPU becomes hot with the third valid reading in a row at its threshold
/// and not before, and cools three degrees below it or without a reading.
/// Between the two it stays what it is. `z` is any number of that band.
pub proof fn lemma_three_hot_readings_make_it_hot(a: Session, s: Sample, c: Config, z: Num)
    requires
        s.cpu_temp_c.finite() && c.cpu_hot_c.finite() && z.finite(),
        c.cpu_hot_c.value() - 3 * unit() <= z.value() < c.cpu_hot_c.value(),
    ensures
        ({
            let r = a.guarded(s, c);
            let (t, hot) = (s.cpu_temp_c.value(), c.cpu_hot_c.value());
            &&& !s.cpu_temp_valid ==> !r.cpu_hot && r.cpu_hot_streak == 0
            &&& s.cpu_temp_valid && t >= hot ==> {
                &&& a.cpu_hot_streak < 255 ==> r.cpu_hot_streak == a.cpu_hot_streak + 1
                &&& a.cpu_hot_streak == 255 ==> r.cpu_hot_streak == 255
                &&& r.cpu_hot == (a.cpu_hot || a.cpu_hot_streak >= 2)
            }
            &&& s.cpu_temp_valid && t < hot ==> r.cpu_hot_streak == 0
            &&& s.cpu_temp_valid && t <= hot - 3 * unit() ==> !r.cpu_hot
            &&& s.cpu_temp_valid && z.value() < t < hot ==> r.cpu_hot == a.cpu_hot
        }),
{
    reveal(Session::guarded);
    lemma2_to64();
    lemma2_to64_rest();
    lemma_pow2_pos(1074);
    let band = Num(CPU_HOT_BAND_C);
    lemma_whole(band, 3, 51);
    lemma_compare(c.cpu_hot_c, s.cpu_temp_c);
    lemma_compare(z, s.cpu_temp_c);
    lemma_difference_side(c.cpu_hot_c, band, s.cpu_temp_c);
    lemma_difference_side(c.cpu_hot_c, band, z);
    reveal(Num::le);
    reveal(Num::lt);
}

/// The ceilings of a session begin at the highest caps, between the floor and
/// that. A hot CPU's falls by two watts a sample and recovers five degrees below
/// its threshold; a hot GPU's falls by 105 MHz and recovers four degrees below.
/// `t` is any reading, and `z` any number from those temperatures on.
pub proof fn lemma_ceilings_begin_at_the_top(c: Config, t: Num, z: Num)
    requires
        c.cpu_hot_c.finite() && c.gpu_hot_c.finite() && t.finite() && z.finite(),
        c.cpu_floor_w.finite() && c.cpu_max_w.finite(),
        c.cpu_floor_w.value() <= c.cpu_max_w.value(),
        c.gpu_floor_mhz <= c.gpu_max_mhz,
    ensures
        ({
            let (p, q) = (cpu_levels(c), gpu_levels(c));
            &&& p.floor == c.cpu_floor_w && p.ceiling == c.cpu_max_w && p.current == c.cpu_max_w
            &&& p.down_rate.finite() && p.down_rate.value() == 2 * unit()
            &&& t.value() <= c.cpu_hot_c.value() - 5 * unit() ==> t.le(p.recovery_c)
            &&& c.cpu_hot_c.value() - 5 * unit() <= z.value() < t.value() ==> !t.le(p.recovery_c)
            &&& q.floor.value() == c.gpu_floor_mhz * unit()
            &&& q.ceiling.value() == c.gpu_max_mhz * unit()
            &&& q.current.value() == c.gpu_max_mhz * unit()
            &&& q.down_rate.finite() && q.down_rate.value() == 105 * unit()
            &&& t.value() <= c.gpu_hot_c.value() - 4 * unit() ==> t.le(q.recovery_c)
            &&& c.gpu_hot_c.value() - 4 * unit() <= z.value() < t.value() ==> !t.le(q.recovery_c)
        }),
{
    reveal(cpu_levels);
    reveal(gpu_levels);
    lemma_guard_constants();
    lemma_pow2_pos(1074);
    lemma_compare(c.cpu_floor_w, c.cpu_max_w);
    lemma_compare(c.cpu_max_w, c.cpu_max_w);
    let five = Num(crate::guards::CPU_MAX_RATCHET_RECOVERY_MARGIN_C);
    let four = Num(crate::guards::GPU_MAX_RATCHET_RECOVERY_MARGIN_C);
    lemma_difference_side(c.cpu_hot_c, five, t);
    lemma_difference_side(c.cpu_hot_c, five, z);
    lemma_difference_side(c.gpu_hot_c, four, t);
    lemma_difference_side(c.gpu_hot_c, four, z);
    lemma_compare(z, t);
    crate::order::lemma_of_int_exact(c.gpu_floor_mhz as nat);
    crate::order::lemma_of_int_exact(c.gpu_max_mhz as nat);
    let (lo, hi) = (
        crate::num::of_int(c.gpu_floor_mhz as nat),
        crate::num::of_int(c.gpu_max_mhz as nat),
    );
    let u = unit() as int;
    assert(c.gpu_floor_mhz * u <= c.gpu_max_mhz * u) by (nonlinear_arith)
        requires
            c.gpu_floor_mhz <= c.gpu_max_mhz,
            u > 0,
    ;
    lemma_compare(lo, hi);
    lemma_compare(hi, hi);
    assert(c.cpu_max_w.within(c.cpu_floor_w, c.cpu_max_w) == c.cpu_max_w && hi.within(lo, hi) == hi)
        by {
        reveal(Num::within);
        lemma_compare(c.cpu_max_w, c.cpu_floor_w);
        lemma_compare(hi, lo);
    }
    reveal(Num::le);
    reveal(Num::lt);
}

} // verus!
