//! That what the budget winds up at a bound is bounded, and that a release
//! recovers from it at once.

use crate::budget::{lemma_no_difference, Budget, LoopError, PI_PERIOD_S};
use crate::num::{Num, ZERO};
use vstd::prelude::*;

verus! {

/// A budget pinned at its upper bound winds up no further under an increment
/// that does not raise it, and an increment that outweighs the windup takes it
/// off the bound in the same tick: what was wound up does not delay it.
pub proof fn lemma_release_leaves_the_upper_bound(b: Budget, err: LoopError)
    requires
        b.u == b.hi,
        b.hi.le(b.v),
        b.v.finite(),
        b.u.finite(),
        b.lo.le(b.hi),
        Num(ZERO).le(Num(PI_PERIOD_S).over(b.leg(err.about()).1)),
        Num(PI_PERIOD_S).over(b.leg(err.about()).1).finite(),
        b.noted(err, None).increment(err).le(Num(ZERO)),
        b.noted(err, None).increment(err).finite(),
    ensures
        ({
            let next = b.stepped(err, None);
            let outweighed = b.v.plus(b.noted(err, None).increment(err));
            &&& next.v.nan() || next.v.le(b.v)
            &&& next.u.nan() || next.u.le(b.u)
            &&& outweighed.lt(b.hi) && b.lo.lt(b.hi) && !next.v.nan() ==> next.u.lt(b.hi)
        }),
{
    reveal(Num::same);
    reveal(Num::le);
    reveal(Num::lt);
    reveal(Num::within);
    let du = b.noted(err, None).increment(err);
    let a = Num(PI_PERIOD_S).over(b.leg(err.about()).1);
    let d = b.u.minus(b.v);
    let back = a.times(d);
    let first = b.v.plus(du);
    crate::order::lemma_plus_nan(b.v, du);
    crate::order::lemma_plus_zero(b.v, Num(ZERO));
    crate::order::lemma_plus_monotone(b.v, du, Num(ZERO));
    assert(d.le(Num(ZERO)) && !d.nan()) by {
        lemma_below(b.u, b.v);
    }
    if !back.nan() {
        assert(back.le(Num(ZERO))) by {
            lemma_share_of_a_loss(a, d);
        }
        crate::order::lemma_plus_nan(first, back);
        if !first.plus(back).nan() {
            crate::order::lemma_plus_zero(first, Num(ZERO));
            crate::order::lemma_plus_monotone(first, back, Num(ZERO));
        }
    } else {
        crate::order::lemma_plus_nan(first, back);
    }
}

/// What is no larger leaves no positive difference.
proof fn lemma_below(a: Num, b: Num)
    requires
        a.finite(),
        b.finite(),
        a.le(b),
    ensures
        a.minus(b).le(Num(ZERO)),
        !a.minus(b).nan(),
{
    reveal(Num::le);
    reveal(Num::minus);
    lemma_no_difference(b);
    crate::order::lemma_plus_nan(a, b.opposite());
    crate::order::lemma_plus_nan(b, b.opposite());
    crate::order::lemma_plus_commutes(a, b.opposite());
    crate::order::lemma_plus_commutes(b, b.opposite());
    crate::order::lemma_plus_nan(b.opposite(), a);
    crate::order::lemma_plus_nan(b.opposite(), b);
    crate::order::lemma_plus_monotone(b.opposite(), a, b);
}

/// A share of what is not positive is not positive.
proof fn lemma_share_of_a_loss(a: Num, d: Num)
    requires
        Num(ZERO).le(a),
        a.finite(),
        d.le(Num(ZERO)),
        !a.times(d).nan(),
    ensures
        a.times(d).le(Num(ZERO)),
{
    reveal(Num::le);
    reveal(Num::times);
    if a.negative() == d.negative() && d.finite() {
        crate::order::lemma_steps_zero(a);
        crate::order::lemma_steps_zero(d);
        assert(a.steps() * d.steps() == 0) by (nonlinear_arith)
            requires
                a.steps() == 0 || d.steps() == 0,
        ;
        crate::order::lemma_round_nothing();
    }
}

/// The integrator after so many ticks of one error.
pub open spec fn held(b: Budget, err: LoopError, n: nat) -> Budget
    decreases n,
{
    if n == 0 {
        b
    } else {
        held(b, err, (n - 1) as nat).stepped(err, None)
    }
}

/// A steady error pins the budget at its upper bound, and has for a tick.
pub open spec fn pinned_by(b: Budget, err: LoopError) -> bool {
    &&& b.v.finite()
    &&& b.hi.le(b.v)
    &&& b.u.same(b.hi)
    &&& b.e_prev == err.amount()
    &&& b.last_kind == Some(err.about())
    &&& b.last_freeze is None
}

/// The windup under a steady error levels off below `w`: from `x` or below one
/// increment does not lead above `w`, and from above `x` the pull toward the
/// bound makes up for it.
pub open spec fn levels_off(b: Budget, err: LoopError, x: Num, w: Num) -> bool {
    let du = (Budget { e_prev: err.amount(), ..b }).increment(err);
    let share = Num(PI_PERIOD_S).over(b.leg(err.about()).1);
    let pull = share.times(b.hi.minus(x));
    &&& b.hi.finite() && x.finite() && w.finite() && du.finite() && share.finite() && pull.finite()
    &&& b.lo.le(b.hi)
    &&& Num(ZERO).lt(share)
    &&& b.hi.le(x)
    &&& x.plus(du).le(w)
    &&& w.plus(du).plus(pull).le(w)
}

proof fn lemma_pinned_tick(b: Budget, err: LoopError, x: Num, w: Num)
    requires
        pinned_by(b, err),
        levels_off(b, err, x, w),
        b.v.le(w),
    ensures
        b.stepped(err, None).v.le(w),
        b.hi.le(b.stepped(err, None).v) ==> pinned_by(b.stepped(err, None), err),
        levels_off(b.stepped(err, None), err, x, w),
{
    reveal(Num::same);
    reveal(Num::le);
    reveal(Num::lt);
    reveal(Num::within);
    let noted = b.noted(err, None);
    let du = noted.increment(err);
    let share = Num(PI_PERIOD_S).over(b.leg(err.about()).1);
    let d = b.u.minus(b.v);
    let back = share.times(d);
    let first = b.v.plus(du);
    lemma_below(b.u, b.v);
    assert(!back.nan()) by {
        reveal(Num::times);
    }
    lemma_share_of_a_loss(share, d);
    crate::order::lemma_plus_nan(b.v, du);
    crate::order::lemma_plus_commutes(b.v, du);
    if b.v.le(x) {
        crate::order::lemma_plus_nan(du, x);
        crate::order::lemma_plus_commutes(x, du);
        crate::order::lemma_plus_monotone(du, b.v, x);
        crate::order::lemma_plus_nan(first, back);
        crate::order::lemma_plus_zero(first, Num(ZERO));
        crate::order::lemma_plus_monotone(first, back, Num(ZERO));
    } else {
        let pull = share.times(b.hi.minus(x));
        crate::order::lemma_plus_nan(du, w);
        crate::order::lemma_plus_commutes(w, du);
        crate::order::lemma_plus_monotone(du, b.v, w);
        lemma_gap_grows(b.u, b.hi, x, b.v);
        crate::order::lemma_times_monotone(d, b.hi.minus(x), share);
        crate::order::lemma_times_commutes(share, d);
        crate::order::lemma_times_commutes(share, b.hi.minus(x));
        crate::order::lemma_plus_nan(w.plus(du), pull);
        lemma_no_overflow(w.plus(du), pull, w);
        crate::order::lemma_plus_nan(first, back);
        crate::order::lemma_plus_nan(first, pull);
        crate::order::lemma_plus_monotone(first, back, pull);
        crate::order::lemma_plus_commutes(first, pull);
        crate::order::lemma_plus_commutes(w.plus(du), pull);
        crate::order::lemma_plus_monotone(pull, first, w.plus(du));
    }
}

/// A finite term does not bring a sum back from beyond all numbers.
proof fn lemma_no_overflow(a: Num, p: Num, w: Num)
    requires
        p.finite(),
        w.finite(),
        a.plus(p).le(w),
    ensures
        !(a.infinite() && !a.negative()),
{
    reveal(Num::plus);
    reveal(Num::le);
}

/// What lies farther above leaves the larger gap.
proof fn lemma_gap_grows(u: Num, hi: Num, x: Num, v: Num)
    requires
        u.finite(),
        u.same(hi),
        hi.finite(),
        x.finite(),
        v.finite(),
        x.le(v),
    ensures
        u.minus(v).le(hi.minus(x)),
{
    reveal(Num::same);
    reveal(Num::le);
    reveal(Num::minus);
    crate::order::lemma_plus_nan(u, v.opposite());
    crate::order::lemma_plus_nan(u, x.opposite());
    crate::order::lemma_plus_nan(hi, x.opposite());
    crate::order::lemma_minus_from(u, hi, x);
    crate::order::lemma_plus_monotone(u, v.opposite(), x.opposite());
}

/// However long a steady error pins the budget at its upper bound, what is
/// wound up stays below the level at which the pull toward the bound makes up
/// for the error.
pub proof fn lemma_windup_levels_off(b: Budget, err: LoopError, n: nat, x: Num, w: Num)
    requires
        pinned_by(b, err),
        levels_off(b, err, x, w),
        b.v.le(w),
        forall|k: nat| k <= n ==> b.hi.le((#[trigger] held(b, err, k)).v),
    ensures
        held(b, err, n).v.le(w),
        pinned_by(held(b, err, n), err),
        levels_off(held(b, err, n), err, x, w),
        held(b, err, n).hi == b.hi,
        held(b, err, n).lo == b.lo,
        held(b, err, n).gains == b.gains,
        held(b, err, n).rpm_gain_scale == b.rpm_gain_scale,
    decreases n,
{
    if n > 0 {
        let m = (n - 1) as nat;
        lemma_windup_levels_off(b, err, m, x, w);
        lemma_pinned_tick(held(b, err, m), err, x, w);
        assert(b.hi.le(held(b, err, n).v));
    }
}

/// A release recovers at once, well within the integral time: after any number
/// of ticks pinned at the upper bound, the first error whose increment outweighs
/// that level takes the budget off the bound.
pub proof fn lemma_release_recovers(
    b: Budget,
    err: LoopError,
    n: nat,
    x: Num,
    w: Num,
    release: LoopError,
)
    requires
        pinned_by(b, err),
        levels_off(b, err, x, w),
        b.v.le(w),
        forall|k: nat| k <= n ==> b.hi.le((#[trigger] held(b, err, k)).v),
        release.about() == err.about(),
        ({
            let down = (Budget { e_prev: err.amount(), ..b }).increment(release);
            &&& down.finite()
            &&& down.le(Num(ZERO))
            &&& w.plus(down).lt(b.hi)
        }),
        b.lo.lt(b.hi),
    ensures
        held(b, err, n).stepped(release, None).u.lt(b.hi),
{
    lemma_windup_levels_off(b, err, n, x, w);
    let h = held(b, err, n);
    reveal(Num::same);
    reveal(Num::le);
    reveal(Num::lt);
    reveal(Num::within);
    let down = h.noted(release, None).increment(release);
    let share = Num(PI_PERIOD_S).over(h.leg(release.about()).1);
    let d = h.u.minus(h.v);
    let back = share.times(d);
    let first = h.v.plus(down);
    lemma_below(h.u, h.v);
    assert(!back.nan()) by {
        reveal(Num::times);
    }
    lemma_share_of_a_loss(share, d);
    crate::order::lemma_plus_nan(down, h.v);
    crate::order::lemma_plus_nan(down, w);
    crate::order::lemma_plus_commutes(h.v, down);
    crate::order::lemma_plus_commutes(w, down);
    crate::order::lemma_plus_monotone(down, h.v, w);
    crate::order::lemma_plus_nan(first, back);
    crate::order::lemma_plus_zero(first, Num(ZERO));
    crate::order::lemma_plus_monotone(first, back, Num(ZERO));
}

/// A steady error pins the budget at its lower bound, and has for a tick.
pub open spec fn pinned_below(b: Budget, err: LoopError) -> bool {
    &&& b.v.finite()
    &&& b.v.le(b.lo)
    &&& b.u.same(b.lo)
    &&& b.e_prev == err.amount()
    &&& b.last_kind == Some(err.about())
    &&& b.last_freeze is None
}

/// The windup below the lower bound levels off above `w`, as
/// [`levels_off`] says of the upper one.
pub open spec fn levels_off_below(b: Budget, err: LoopError, x: Num, w: Num) -> bool {
    let du = (Budget { e_prev: err.amount(), ..b }).increment(err);
    let share = Num(PI_PERIOD_S).over(b.leg(err.about()).1);
    let pull = share.times(b.lo.minus(x));
    &&& b.lo.finite() && x.finite() && w.finite() && du.finite() && share.finite() && pull.finite()
    &&& b.lo.le(b.hi)
    &&& Num(ZERO).lt(share)
    &&& x.le(b.lo)
    &&& w.le(x.plus(du))
    &&& w.le(w.plus(du).plus(pull))
}

/// A share of what is not negative is not negative.
proof fn lemma_share_of_a_gain(a: Num, d: Num)
    requires
        Num(ZERO).le(a),
        a.finite(),
        Num(ZERO).le(d),
        !a.times(d).nan(),
    ensures
        Num(ZERO).le(a.times(d)),
{
    reveal(Num::le);
    reveal(Num::times);
    if a.negative() != d.negative() && d.finite() {
        crate::order::lemma_steps_zero(a);
        crate::order::lemma_steps_zero(d);
        assert(a.steps() * d.steps() == 0) by (nonlinear_arith)
            requires
                a.steps() == 0 || d.steps() == 0,
        ;
        crate::order::lemma_round_nothing();
    }
}

/// What is no smaller leaves no negative difference.
proof fn lemma_above(a: Num, b: Num)
    requires
        a.finite(),
        b.finite(),
        b.le(a),
    ensures
        Num(ZERO).le(a.minus(b)),
        !a.minus(b).nan(),
{
    reveal(Num::le);
    reveal(Num::minus);
    lemma_no_difference(b);
    crate::order::lemma_plus_nan(b.opposite(), a);
    crate::order::lemma_plus_nan(b.opposite(), b);
    crate::order::lemma_plus_commutes(a, b.opposite());
    crate::order::lemma_plus_commutes(b, b.opposite());
    crate::order::lemma_plus_monotone(b.opposite(), b, a);
}

/// A finite term does not bring a sum back from below all numbers.
proof fn lemma_no_underflow(a: Num, p: Num, w: Num)
    requires
        p.finite(),
        w.finite(),
        w.le(a.plus(p)),
    ensures
        !(a.infinite() && a.negative()),
{
    reveal(Num::plus);
    reveal(Num::le);
}

proof fn lemma_pinned_tick_below(b: Budget, err: LoopError, x: Num, w: Num)
    requires
        pinned_below(b, err),
        levels_off_below(b, err, x, w),
        w.le(b.v),
    ensures
        w.le(b.stepped(err, None).v),
        b.stepped(err, None).v.le(b.lo) ==> pinned_below(b.stepped(err, None), err),
        levels_off_below(b.stepped(err, None), err, x, w),
{
    reveal(Num::same);
    reveal(Num::le);
    reveal(Num::lt);
    reveal(Num::within);
    let noted = b.noted(err, None);
    let du = noted.increment(err);
    let share = Num(PI_PERIOD_S).over(b.leg(err.about()).1);
    let d = b.u.minus(b.v);
    let back = share.times(d);
    let first = b.v.plus(du);
    lemma_above(b.u, b.v);
    assert(!back.nan()) by {
        reveal(Num::times);
    }
    lemma_share_of_a_gain(share, d);
    crate::order::lemma_plus_nan(b.v, du);
    crate::order::lemma_plus_commutes(b.v, du);
    if x.le(b.v) {
        crate::order::lemma_plus_nan(du, x);
        crate::order::lemma_plus_commutes(x, du);
        crate::order::lemma_plus_monotone(du, x, b.v);
        crate::order::lemma_plus_nan(first, back);
        crate::order::lemma_plus_grows(first, back);
    } else {
        let pull = share.times(b.lo.minus(x));
        crate::order::lemma_plus_nan(du, w);
        crate::order::lemma_plus_commutes(w, du);
        crate::order::lemma_plus_monotone(du, w, b.v);
        lemma_gap_shrinks(b.u, b.lo, x, b.v);
        crate::order::lemma_times_monotone(b.lo.minus(x), d, share);
        crate::order::lemma_times_commutes(share, d);
        crate::order::lemma_times_commutes(share, b.lo.minus(x));
        crate::order::lemma_plus_nan(w.plus(du), pull);
        lemma_no_underflow(w.plus(du), pull, w);
        crate::order::lemma_plus_nan(first, back);
        crate::order::lemma_plus_nan(first, pull);
        crate::order::lemma_plus_monotone(first, pull, back);
        crate::order::lemma_plus_commutes(first, pull);
        crate::order::lemma_plus_commutes(w.plus(du), pull);
        crate::order::lemma_plus_monotone(pull, w.plus(du), first);
    }
}

/// What lies farther below leaves the larger gap.
proof fn lemma_gap_shrinks(u: Num, lo: Num, x: Num, v: Num)
    requires
        u.finite(),
        u.same(lo),
        lo.finite(),
        x.finite(),
        v.finite(),
        v.le(x),
    ensures
        lo.minus(x).le(u.minus(v)),
{
    reveal(Num::same);
    reveal(Num::le);
    reveal(Num::minus);
    crate::order::lemma_plus_nan(u, v.opposite());
    crate::order::lemma_plus_nan(u, x.opposite());
    crate::order::lemma_plus_nan(lo, x.opposite());
    crate::order::lemma_minus_from(lo, u, x);
    crate::order::lemma_plus_monotone(u, x.opposite(), v.opposite());
}

/// However long a steady error pins the budget at its lower bound, what is
/// wound up below it stays above the level at which the pull toward the bound
/// makes up for the error.
pub proof fn lemma_windup_levels_off_below(b: Budget, err: LoopError, n: nat, x: Num, w: Num)
    requires
        pinned_below(b, err),
        levels_off_below(b, err, x, w),
        w.le(b.v),
        forall|k: nat| k <= n ==> (#[trigger] held(b, err, k)).v.le(b.lo),
    ensures
        w.le(held(b, err, n).v),
        pinned_below(held(b, err, n), err),
        levels_off_below(held(b, err, n), err, x, w),
        held(b, err, n).hi == b.hi,
        held(b, err, n).lo == b.lo,
        held(b, err, n).gains == b.gains,
        held(b, err, n).rpm_gain_scale == b.rpm_gain_scale,
    decreases n,
{
    if n > 0 {
        let m = (n - 1) as nat;
        lemma_windup_levels_off_below(b, err, m, x, w);
        lemma_pinned_tick_below(held(b, err, m), err, x, w);
        assert(held(b, err, n).v.le(b.lo));
    }
}

/// A release recovers at once from the lower bound too.
pub proof fn lemma_release_recovers_below(
    b: Budget,
    err: LoopError,
    n: nat,
    x: Num,
    w: Num,
    release: LoopError,
)
    requires
        pinned_below(b, err),
        levels_off_below(b, err, x, w),
        w.le(b.v),
        forall|k: nat| k <= n ==> (#[trigger] held(b, err, k)).v.le(b.lo),
        release.about() == err.about(),
        ({
            let raise = (Budget { e_prev: err.amount(), ..b }).increment(release);
            &&& raise.finite()
            &&& Num(ZERO).le(raise)
            &&& b.lo.lt(w.plus(raise))
        }),
        b.lo.lt(b.hi),
    ensures
        b.lo.lt(held(b, err, n).stepped(release, None).u),
{
    lemma_windup_levels_off_below(b, err, n, x, w);
    let h = held(b, err, n);
    reveal(Num::same);
    reveal(Num::le);
    reveal(Num::lt);
    reveal(Num::within);
    let raise = h.noted(release, None).increment(release);
    let share = Num(PI_PERIOD_S).over(h.leg(release.about()).1);
    let d = h.u.minus(h.v);
    let back = share.times(d);
    let first = h.v.plus(raise);
    lemma_above(h.u, h.v);
    assert(!back.nan()) by {
        reveal(Num::times);
    }
    lemma_share_of_a_gain(share, d);
    crate::order::lemma_plus_nan(raise, h.v);
    crate::order::lemma_plus_nan(raise, w);
    crate::order::lemma_plus_commutes(h.v, raise);
    crate::order::lemma_plus_commutes(w, raise);
    crate::order::lemma_plus_monotone(raise, w, h.v);
    crate::order::lemma_plus_nan(first, back);
    crate::order::lemma_plus_grows(first, back);
}

} // verus!
