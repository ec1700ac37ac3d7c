//! When the guards act and how far their ceilings move, told from the readings.

use crate::cooldown::{held_still, near_point, CommandedPoint, TOL_W, WINDOW_S};
use crate::guards::{
    hot_share, ratcheted, stays_hot, Levels, CPU_MAX_RATCHET_DOWN_RATE_W, CPU_MAX_RATCHET_RECOVERY_MARGIN_C,
    GPU_HYSTERESIS_C, GPU_MAX_RATCHET_DOWN_RATE_MHZ, GPU_MAX_RATCHET_RECOVERY_MARGIN_C,
    NVME_HYSTERESIS_C,
};
use crate::num::{unit, Num, TWO};
use crate::order::lemma_steps_zero;
use crate::precision::{apart, grain, lemma_minus_error, lemma_over_error, lemma_plus_error, reach};
use crate::spending::{high, lemma_lesser_value, lemma_within_value, low, pulled};
use crate::values::{lemma_compare, lemma_difference_side, lemma_gap_side, lemma_whole};
use vstd::arithmetic::power2::{lemma2_to64, lemma2_to64_rest, lemma_pow2_pos};
use vstd::prelude::*;

verus! {

/// The margins and rates of the guards, in degrees, watts and megahertz.
pub proof fn lemma_guard_constants()
    ensures
        Num(GPU_HYSTERESIS_C).finite() && Num(GPU_HYSTERESIS_C).value() == 2 * unit(),
        Num(NVME_HYSTERESIS_C).finite() && Num(NVME_HYSTERESIS_C).value() == 5 * unit(),
        Num(GPU_MAX_RATCHET_DOWN_RATE_MHZ).finite() && Num(GPU_MAX_RATCHET_DOWN_RATE_MHZ).value()
            == 105 * unit(),
        Num(CPU_MAX_RATCHET_DOWN_RATE_W).finite() && Num(CPU_MAX_RATCHET_DOWN_RATE_W).value() == 2
            * unit(),
        Num(GPU_MAX_RATCHET_RECOVERY_MARGIN_C).finite() && Num(
            GPU_MAX_RATCHET_RECOVERY_MARGIN_C,
        ).value() == 4 * unit(),
        Num(CPU_MAX_RATCHET_RECOVERY_MARGIN_C).finite() && Num(
            CPU_MAX_RATCHET_RECOVERY_MARGIN_C,
        ).value() == 5 * unit(),
        Num(TWO).finite() && Num(TWO).value() == 2 * unit(),
        Num(TOL_W).finite() && Num(TOL_W).value() == 2 * unit(),
        Num(WINDOW_S).finite() && Num(WINDOW_S).value() == 30 * unit(),
{
    lemma2_to64();
    lemma2_to64_rest();
    lemma_whole(Num(GPU_HYSTERESIS_C), 2, 51);
    lemma_whole(Num(NVME_HYSTERESIS_C), 5, 50);
    lemma_whole(Num(GPU_MAX_RATCHET_DOWN_RATE_MHZ), 105, 46);
    lemma_whole(Num(CPU_MAX_RATCHET_DOWN_RATE_W), 2, 51);
    lemma_whole(Num(GPU_MAX_RATCHET_RECOVERY_MARGIN_C), 4, 50);
    lemma_whole(Num(CPU_MAX_RATCHET_RECOVERY_MARGIN_C), 5, 50);
    lemma_whole(Num(TWO), 2, 51);
    lemma_whole(Num(TOL_W), 2, 51);
    lemma_whole(Num(WINDOW_S), 30, 48);
}

/// A guard becomes hot at its threshold and not below it, and once hot it
/// clears a band below the threshold and not above that. `z` is any number
/// between the band's lower end and a reading above it.
pub proof fn lemma_guard_follows_the_reading(was_hot: bool, t: Num, enter: Num, band: Num, z: Num)
    requires
        t.finite() && enter.finite() && band.finite() && z.finite(),
        z.value() >= enter.value() - band.value(),
    ensures
        !was_hot ==> stays_hot(was_hot, Some(t), enter, band) == (t.value() >= enter.value()),
        was_hot && t.value() <= enter.value() - band.value() ==> !stays_hot(
            was_hot,
            Some(t),
            enter,
            band,
        ),
        was_hot && t.value() > z.value() ==> stays_hot(was_hot, Some(t), enter, band),
{
    reveal(stays_hot);
    lemma_compare(enter, t);
    lemma_compare(z, t);
    lemma_difference_side(enter, band, t);
    lemma_difference_side(enter, band, z);
    reveal(Num::le);
    reveal(Num::lt);
}

/// An active guard lowers a ceiling by its rate, but not below the floor; a
/// cool reading raises it by half of that, but not above the highest one; and
/// nothing else moves it. Both hold up to rounding.
pub proof fn lemma_ratchet_moves_by_its_rate(
    m: Levels,
    valid_control: bool,
    active: bool,
    temperature_c: Option<Num>,
    b: nat,
)
    requires
        16 * b <= reach(),
        m.floor.finite() && m.ceiling.finite() && m.current.finite() && m.down_rate.finite(),
        m.current.steps() <= b && m.down_rate.steps() <= b,
        m.recovery_c.finite(),
        temperature_c is Some ==> temperature_c->0.finite(),
    ensures
        ({
            let next = ratcheted(m, valid_control, active, temperature_c);
            let (now, rate) = (m.current.value(), m.down_rate.value());
            let cool = temperature_c is Some && temperature_c->0.value() <= m.recovery_c.value();
            &&& next.finite()
            &&& valid_control && active ==> apart(next.value(), high(now - rate, m.floor.value()))
                <= 4 * grain(b as int)
            &&& valid_control && !active && cool ==> apart(
                2 * next.value(),
                low(2 * now + rate, 2 * m.ceiling.value()),
            ) <= 8 * grain(b as int)
            &&& !valid_control || (!active && !cool) ==> next == m.current
        }),
{
    reveal(ratcheted);
    lemma_guard_constants();
    lemma_pow2_pos(1074);
    lemma_steps_zero(m.current);
    lemma_steps_zero(m.down_rate);
    lemma_minus_error(m.current, m.down_rate);
    lemma_lesser_value(m.current.minus(m.down_rate), m.floor);
    let u = unit() as int;
    let rate = m.down_rate;
    assert(rate.steps() * unit() <= reach() * Num(TWO).steps()) by {
        lemma_steps_zero(Num(TWO));
        assert(rate.steps() * u <= reach() * (2 * u)) by (nonlinear_arith)
            requires
                rate.steps() <= reach(),
                u > 0,
                rate.steps() >= 0,
        ;
    }
    lemma_steps_zero(Num(TWO));
    lemma_over_error(rate, Num(TWO));
    let half = rate.over(Num(TWO));
    lemma_half_value(half.value(), rate.value(), b as int, u);
    lemma_plus_error(m.current, half);
    lemma_lesser_value(m.current.plus(half), m.ceiling);
    if let Some(t) = temperature_c {
        lemma_compare(t, m.recovery_c);
    }
}

proof fn lemma_half_value(h: int, r: int, b: int, u: int)
    requires
        u > 0,
        apart(r, 0) <= b,
        apart(h * (2 * u), r * u) * 0x20_0000_0000_0000 <= apart(r, 0) * u + 2 * u
            * 0x10_0000_0000_0000,
    ensures
        apart(2 * h, r) * 0x20_0000_0000_0000 <= b + 0x20_0000_0000_0000,
        apart(h, 0) <= b + 1,
{
    let d = apart(2 * h, r);
    let z = apart(r, 0);
    assert(apart(h * (2 * u), r * u) == d * u) by (nonlinear_arith)
        requires
            d == apart(2 * h, r),
            u > 0,
    ;
    assert(d * 0x20_0000_0000_0000 <= z + 0x20_0000_0000_0000) by (nonlinear_arith)
        requires
            d * u * 0x20_0000_0000_0000 <= z * u + 2 * u * 0x10_0000_0000_0000,
            u > 0,
    ;
}

/// The cooldown opens once some command is at least half a minute old and none
/// of a window just longer than that lies more than two watts from the latest
/// on either leg. `z` is the length of that window.
pub proof fn lemma_still_commands_open(ring: Seq<CommandedPoint>, now: Num, i: int, z: Num)
    requires
        now.finite() && z.finite() && 30 * unit() < z.value(),
        forall|j: int|
            0 <= j < ring.len() ==> (#[trigger] ring[j]).t_mono.finite() && ring[j].cpu_w.finite()
                && ring[j].gpu_w.finite(),
        0 <= i < ring.len(),
        now.value() - ring[i].t_mono.value() >= 30 * unit(),
        forall|j: int|
            0 <= j < ring.len() && now.value() - (#[trigger] ring[j]).t_mono.value() < z.value()
                ==> apart(ring[j].cpu_w.value(), ring.last().cpu_w.value()) <= 2 * unit() && apart(
                ring[j].gpu_w.value(),
                ring.last().gpu_w.value(),
            ) <= 2 * unit(),
    ensures
        held_still(ring, now),
{
    lemma_guard_constants();
    lemma_pow2_pos(1074);
    lemma_difference_side(now, ring[i].t_mono, Num(WINDOW_S));
    assert forall|j: int|
        0 <= j < ring.len() && now.minus((#[trigger] ring[j]).t_mono).le(
            Num(WINDOW_S),
        ) implies near_point(ring[j], ring.last()) by {
        lemma_difference_side(now, ring[j].t_mono, z);
        lemma_compare(Num(WINDOW_S), z);
        reveal(Num::le);
        reveal(Num::lt);
        lemma_gap_side(ring[j].cpu_w, ring.last().cpu_w, Num(TOL_W));
        lemma_gap_side(ring[j].gpu_w, ring.last().gpu_w, Num(TOL_W));
    }
}

/// It stays shut while a command of the last half minute lies more than two
/// watts from the latest, on either leg and to either side. `z` is any number
/// between two watts and that distance.
pub proof fn lemma_moved_commands_keep_it_shut(ring: Seq<CommandedPoint>, now: Num, i: int, z: Num)
    requires
        now.finite() && z.finite() && 2 * unit() < z.value(),
        forall|j: int|
            0 <= j < ring.len() ==> (#[trigger] ring[j]).t_mono.finite() && ring[j].cpu_w.finite()
                && ring[j].gpu_w.finite(),
        0 <= i < ring.len(),
        now.value() - ring[i].t_mono.value() <= 30 * unit(),
        apart(ring[i].cpu_w.value(), ring.last().cpu_w.value()) >= z.value() || apart(
            ring[i].gpu_w.value(),
            ring.last().gpu_w.value(),
        ) >= z.value(),
    ensures
        !held_still(ring, now),
{
    lemma_guard_constants();
    lemma_pow2_pos(1074);
    lemma_difference_side(now, ring[i].t_mono, Num(WINDOW_S));
    lemma_gap_side(ring[i].cpu_w, ring.last().cpu_w, z);
    lemma_gap_side(ring[i].gpu_w, ring.last().gpu_w, z);
    lemma_compare(Num(TOL_W), z);
    reveal(Num::le);
    reveal(Num::lt);
}

/// It stays shut while every command is younger than half a minute. `z` is any
/// number between the greatest age and that.
pub proof fn lemma_young_commands_keep_it_shut(ring: Seq<CommandedPoint>, now: Num, z: Num)
    requires
        now.finite() && z.finite() && z.value() < 30 * unit(),
        forall|j: int|
            0 <= j < ring.len() ==> (#[trigger] ring[j]).t_mono.finite() && now.value()
                - ring[j].t_mono.value() <= z.value(),
    ensures
        !held_still(ring, now),
{
    lemma_guard_constants();
    assert forall|j: int| 0 <= j < ring.len() implies !Num(WINDOW_S).le(
        now.minus((#[trigger] ring[j]).t_mono),
    ) by {
        lemma_difference_side(now, ring[j].t_mono, z);
        lemma_compare(z, Num(WINDOW_S));
        reveal(Num::le);
        reveal(Num::lt);
    }
}

/// Levels lie between the lower and the upper of their two bounds, whichever
/// comes first, and the ceiling in force is pulled between them.
pub proof fn lemma_levels_lie_between_their_bounds(
    a: Num,
    c: Num,
    current: Num,
    rate: Num,
    recovery: Num,
)
    requires
        a.finite() && c.finite() && current.finite(),
    ensures
        ({
            let m = Levels::between(a, c, current, rate, recovery);
            let (lo, hi) = (low(a.value(), c.value()), high(a.value(), c.value()));
            &&& m.floor.finite() && m.floor.value() == lo
            &&& m.ceiling.finite() && m.ceiling.value() == hi
            &&& m.current.finite() && m.current.value() == pulled(current.value(), lo, hi)
            &&& m.down_rate == rate && m.recovery_c == recovery
        }),
{
    lemma_compare(a, c);
    let m = Levels::between(a, c, current, rate, recovery);
    lemma_within_value(current, m.floor, m.ceiling);
}

/// A live floor raises the highest ceiling to it if need be, and pulls the one
/// in force between the two; it changes nothing else.
pub proof fn lemma_live_floor_lifts_the_ceiling(m: Levels, floor: Num)
    requires
        floor.finite() && m.ceiling.finite() && m.current.finite(),
    ensures
        ({
            let r = m.on_floor(floor);
            let hi = high(m.ceiling.value(), floor.value());
            &&& r.floor == floor
            &&& r.ceiling.finite() && r.ceiling.value() == hi
            &&& r.current.finite() && r.current.value() == pulled(
                m.current.value(),
                floor.value(),
                hi,
            )
            &&& r.down_rate == m.down_rate && r.recovery_c == m.recovery_c
        }),
{
    lemma_lesser_value(m.ceiling, floor);
    lemma_within_value(m.current, floor, m.ceiling.greater(floor));
}

/// A hot GPU's share is eight watts below its present draw, but not below its
/// floor, up to rounding.
pub proof fn lemma_hot_share_is_eight_watts_lower(current: Num, floor: Num, b: nat)
    requires
        current.finite() && current.steps() <= b,
        floor.finite(),
        8 * unit() <= b && 16 * b <= reach(),
    ensures
        hot_share(current, floor).finite(),
        apart(hot_share(current, floor).value(), high(current.value() - 8 * unit(), floor.value()))
            <= 4 * grain(b as int),
{
    lemma2_to64();
    lemma2_to64_rest();
    let eight = Num(crate::allocator::DOWN_RATE_W);
    lemma_whole(eight, 8, 49);
    lemma_steps_zero(current);
    lemma_minus_error(current, eight);
    lemma_lesser_value(current.minus(eight), floor);
}

} // verus!
