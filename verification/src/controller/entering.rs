//! How a lane's loop is started and redirected, told from its readings.

use crate::controller::lane::{LaneInput, LaneView};
use crate::controller::readings::lemma_entry_starts_over_the_draw;
use crate::device_loop::LoopState;
use crate::num::{Num, ZERO};
use crate::order::lemma_steps_zero;
use crate::precision::{apart, grain, lemma_plus_error, reach};
use crate::spending::{high, lemma_lesser_value, lemma_within_value, low, pulled};
use vstd::prelude::*;

verus! {

/// A lane begins once, when its group is first there: its shadow candidate is
/// the draw with its headroom, or the thermal candidate without a draw; the cap
/// asked for is the one applied, or else the lower candidate; and the error
/// starts from the present one.
pub proof fn lemma_entry_seeds_both_candidates(l: LaneView, i: LaneInput, max: Num, b: nat)
    requires
        max.finite() && i.top.finite() && i.floor.finite() && i.headroom.finite(),
        i.draw is Some ==> i.draw->0.finite() && i.draw->0.steps() <= b,
        i.headroom.steps() <= b,
        i.warm is Some ==> i.warm->0.finite(),
        16 * b <= reach(),
    ensures
        ({
            let r = l.entered(i, max);
            let begins = i.group_c is Some && !l.facts.entry_seeded;
            let lower = low(r.state.thermal.value(), r.state.shadow.value());
            &&& !begins ==> r == l
            &&& begins ==> {
                &&& r.facts.entry_seeded
                &&& r.state.thermal == i.entry_thermal(max)
                &&& i.draw is None ==> r.state.shadow == r.state.thermal
                &&& i.draw is Some ==> r.state.shadow.finite() && apart(
                    r.state.shadow.value(),
                    i.draw->0.value() + i.headroom.value(),
                ) <= 2 * grain(b as int)
                &&& i.applied is Some ==> r.state.requested == i.applied
                &&& i.applied is None ==> r.state.requested is Some
                    && r.state.requested->0.value() == lower
                &&& r.state.last_applied == i.applied
                &&& r.state.e_prev == i.t_star.minus(i.group_c->0)
                &&& r.state.elapsed_s == Num(ZERO)
            }
        }),
{
    reveal(LaneView::entered);
    lemma_entry_starts_over_the_draw(i, max, b);
    if let Some(d) = i.draw {
        lemma_steps_zero(d);
        lemma_steps_zero(i.headroom);
        lemma_plus_error(d, i.headroom);
    }
    let thermal = i.entry_thermal(max);
    let shadow = if i.draw is Some {
        i.entry_floor()
    } else {
        thermal
    };
    lemma_lesser_value(thermal, shadow);
}

/// The first measured draw, while the actuator does as it is told, takes the
/// shadow candidate to the draw with its headroom within the bounds; with it a
/// recorded cap becomes the thermal candidate, no lower than that level and no
/// higher than the ceiling.
pub proof fn lemma_first_draw_seeds_the_shadow(l: LaneView, i: LaneInput, max: Num, b: nat)
    requires
        max.finite() && i.floor.finite() && i.floor.value() <= max.value(),
        i.headroom.finite() && i.headroom.steps() <= b,
        i.draw is Some && i.draw->0.finite() && i.draw->0.steps() <= b,
        i.warm is Some ==> i.warm->0.finite(),
        l.state.floor.finite() && l.state.max.finite(),
        l.state.floor.value() <= l.state.max.value(),
        16 * b <= reach(),
    ensures
        ({
            let r = l.shadow_entered(i, max);
            let (lo, hi) = (l.state.floor.value(), l.state.max.value());
            let calm = l.facts.calm(i.resumed);
            let seeds = i.group_c is Some && !l.facts.shadow_seeded && calm;
            let level = pulled(
                i.draw->0.value() + i.headroom.value(),
                i.floor.value(),
                max.value(),
            );
            &&& !seeds ==> r == l
            &&& seeds ==> {
                &&& r.facts.shadow_seeded && !r.state.draw_missing
                &&& r.state.shadow.finite() && apart(r.state.shadow.value(), pulled(level, lo, hi))
                    <= 2 * grain(b as int)
                &&& i.warm is None ==> r.state.thermal == l.state.thermal
                &&& i.warm is Some ==> r.state.thermal.finite() && apart(
                    r.state.thermal.value(),
                    pulled(low(high(i.warm->0.value(), level), max.value()), lo, hi),
                ) <= 2 * grain(b as int)
            }
        }),
{
    reveal(LaneView::shadow_entered);
    reveal(LaneInput::warmed);
    reveal(LoopState::drawing);
    let d = i.draw->0;
    lemma_steps_zero(d);
    lemma_steps_zero(i.headroom);
    lemma_plus_error(d, i.headroom);
    let sum = d.plus(i.headroom);
    lemma_within_value(sum, i.floor, max);
    let level = sum.within(i.floor, max);
    lemma_within_value(level, l.state.floor, l.state.max);
    if let Some(w) = i.warm {
        lemma_lesser_value(w, level);
        lemma_lesser_value(w.greater(level), max);
        lemma_within_value(w.greater(level).lesser(max), l.state.floor, l.state.max);
    }
}

/// A thermal candidate that is to start over goes to the ceiling as soon as the
/// group is there and the actuator does as it is told, and until then it is
/// remembered. Otherwise a resynchronised target has the error start from the
/// present one, and nothing else of the loop moves.
pub proof fn lemma_restart_goes_to_the_ceiling(l: LaneView, i: LaneInput, max: Num)
    requires
        max.finite() && l.state.floor.finite() && l.state.max.finite(),
        l.state.floor.value() <= l.state.max.value(),
    ensures
        ({
            let r = l.retargeted(i, max);
            let wanted = l.facts.restore_pending || i.restore;
            let may = i.group_c is Some && l.facts.calm(i.resumed);
            &&& wanted && may ==> {
                &&& r.state.thermal.value() == pulled(
                    max.value(),
                    l.state.floor.value(),
                    l.state.max.value(),
                )
                &&& r.state.e_prev == i.t_star.minus(i.group_c->0)
                &&& r.state.elapsed_s == Num(ZERO)
                &&& !r.facts.restore_pending
            }
            &&& !(wanted && may) ==> {
                &&& r.facts.restore_pending == wanted
                &&& i.resync && i.group_c is Some ==> r.state == (LoopState {
                    e_prev: i.t_star.minus(i.group_c->0),
                    ..l.state
                })
                &&& !(i.resync && i.group_c is Some) ==> r.state == l.state
            }
            &&& r.state.shadow == l.state.shadow && r.state.requested == l.state.requested
        }),
{
    reveal(LaneView::retargeted);
    lemma_within_value(max, l.state.floor, l.state.max);
}

} // verus!
