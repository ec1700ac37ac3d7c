//! Clock-to-watts table from the calibration sweep, the feedforward of the
//! GPU's inner loop.
//!
//! Measured data may dip. The inverse lookup scans from the highest clock
//! down and takes the first bracket that fits the budget, so a dip only ever
//! gives a lower clock.
use crate::num::{Num, ZERO};
use vstd::prelude::*;

verus! {

/// 0.000001: absorbs rounding just below a whole megahertz.
pub const WHOLE_MHZ_EPSILON: u64 = 0x3eb0_c6f7_a0b5_ed8d;

/// Piecewise-linear map from a locked clock (MHz) to steady power (W).
pub struct ClockWattsLut {
    /// Clock and watts, by rising clock; a clock occurs once.
    pub points: Vec<(u32, Num)>,
}

/// The clocks strictly rise.
pub open spec fn rising(points: Seq<(u32, Num)>) -> bool {
    forall|i: int, j: int| 0 <= i < j < points.len() ==> (#[trigger] points[i]).0 < (#[trigger] points[j]).0
}

/// The clock is in the table.
pub open spec fn has_clock(points: Seq<(u32, Num)>, mhz: u32) -> bool {
    exists|i: int| 0 <= i < points.len() && (#[trigger] points[i]).0 == mhz
}

/// The watts at a clock of the table.
pub open spec fn watts_at(points: Seq<(u32, Num)>, mhz: u32) -> Num {
    points[choose|i: int| 0 <= i < points.len() && (#[trigger] points[i]).0 == mhz].1
}

/// The clock at which the line between two points reaches the budget.
#[verifier::opaque]
pub open spec fn crossing(lo: (u32, Num), hi: (u32, Num), target: Num) -> Num {
    let part = target.minus(lo.1).over(hi.1.minus(lo.1));
    let span = crate::num::of_int(hi.0 as nat).minus(crate::num::of_int(lo.0 as nat));
    crate::num::of_int(lo.0 as nat).plus(part.times(span))
}

/// That clock, rounded down.
#[verifier::opaque]
pub open spec fn interpolated(lo: (u32, Num), hi: (u32, Num), target: Num) -> u32 {
    crossing(lo, hi, target).plus(Num(WHOLE_MHZ_EPSILON)).floored().whole()
}

/// A clock is the largest whole one that lies at or below the one at which the
/// line between two points reaches the budget, or above it by no more than the
/// epsilon.
#[verifier::opaque]
pub open spec fn largest_between(lo: (u32, Num), hi: (u32, Num), target: Num, clock: u32) -> bool {
    let reach = crossing(lo, hi, target).plus(Num(WHOLE_MHZ_EPSILON));
    &&& crate::num::of_int(clock as nat).le(reach)
    &&& reach.lt(crate::num::of_int((clock + 1) as nat))
}

/// The clock from the brackets at and below the one that ends at `i`: the
/// first, from the top, that fits the budget, or the lowest clock.
pub open spec fn scanned(points: Seq<(u32, Num)>, i: int, target: Num) -> u32
    decreases i,
{
    if i <= 0 {
        points[0].0
    } else {
        let lo = points[i - 1];
        let hi = points[i];
        if hi.1.le(target) {
            hi.0
        } else if lo.1.lt(hi.1) && lo.1.le(target) {
            interpolated(lo, hi, target)
        } else {
            scanned(points, i - 1, target)
        }
    }
}

/// The largest clock whose watts fit the budget.
pub open spec fn clock_of(points: Seq<(u32, Num)>, target: Num) -> Option<u32> {
    if points.len() == 0 {
        None
    } else if points.last().1.le(target) {
        Some(points.last().0)
    } else {
        Some(scanned(points, points.len() - 1, target))
    }
}

/// The watts on the line between two points.
#[verifier::opaque]
pub open spec fn between(lo: (u32, Num), hi: (u32, Num), mhz: u32) -> Num {
    let part = crate::num::of_int((mhz - lo.0) as nat).over(
        crate::num::of_int((hi.0 - lo.0) as nat),
    );
    lo.1.plus(part.times(hi.1.minus(lo.1)))
}

/// `i` is where a clock that is not in the table belongs.
pub open spec fn belongs(points: Seq<(u32, Num)>, mhz: u32, i: int) -> bool {
    &&& 0 <= i <= points.len()
    &&& forall|j: int| 0 <= j < i ==> (#[trigger] points[j]).0 < mhz
    &&& forall|j: int| i <= j < points.len() ==> mhz < (#[trigger] points[j]).0
}

/// The watts at a clock.
pub open spec fn watts_of(points: Seq<(u32, Num)>, mhz: u32) -> Option<Num> {
    if points.len() == 0 {
        None
    } else if mhz <= points[0].0 {
        Some(points[0].1)
    } else if mhz >= points.last().0 {
        Some(points.last().1)
    } else if has_clock(points, mhz) {
        Some(watts_at(points, mhz))
    } else {
        let i = choose|i: int| belongs(points, mhz, i);
        Some(between(points[i - 1], points[i], mhz))
    }
}

impl View for ClockWattsLut {
    type V = Map<u32, Num>;

    open spec fn view(&self) -> Map<u32, Num> {
        Map::new(
            |mhz: u32| has_clock(self.points@, mhz),
            |mhz: u32| watts_at(self.points@, mhz),
        )
    }
}

impl Default for ClockWattsLut {
    fn default() -> (r: ClockWattsLut)
        ensures
            r.wf(),
            r.points@.len() == 0,
    {
        ClockWattsLut::new()
    }
}

impl ClockWattsLut {
    /// The clocks strictly rise.
    pub open spec fn wf(self) -> bool {
        rising(self.points@)
    }

    /// An empty table.
    pub fn new() -> (r: ClockWattsLut)
        ensures
            r.wf(),
            r.points@.len() == 0,
            r@ == Map::<u32, Num>::empty(),
    {
        let r = ClockWattsLut { points: Vec::new() };
        assert(r@ =~= Map::<u32, Num>::empty());
        r
    }

    /// Where a clock stands, or where it belongs.
    fn search(&self, mhz: u32) -> (r: Result<usize, usize>)
        requires
            self.wf(),
        ensures
            match r {
                Ok(i) => i < self.points@.len() && self.points@[i as int].0 == mhz,
                Err(i) => belongs(self.points@, mhz, i as int),
            },
    {
        let mut lo: usize = 0;
        let mut hi: usize = self.points.len();
        while lo < hi
            invariant
                self.wf(),
                lo <= hi <= self.points@.len(),
                forall|j: int| 0 <= j < lo ==> (#[trigger] self.points@[j]).0 < mhz,
                forall|j: int| hi <= j < self.points@.len() ==> mhz < (#[trigger] self.points@[j]).0,
            decreases hi - lo,
        {
            let mid: usize = lo + (hi - lo) / 2;
            let m: u32 = self.points[mid].0;
            if m == mhz {
                return Ok(mid);
            }
            if m < mhz {
                lo = mid + 1;
            } else {
                hi = mid;
            }
        }
        Err(lo)
    }

    /// Adds a point; one with the same clock is replaced.
    pub fn insert(&mut self, mhz: u32, watts: Num)
        requires
            old(self).wf(),
        ensures
            final(self).wf(),
            final(self)@ == old(self)@.insert(mhz, watts),
    {
        let ghost before = self.points@;
        match self.search(mhz) {
            Ok(i) => {
                self.points.set(i, (mhz, watts));
                proof {
                    let after = self.points@;
                    assert forall|q: u32| has_clock(after, q) == (q == mhz || has_clock(before, q)) by {
                        lemma_same_clocks(before, after, q);
                    }
                    assert forall|q: u32| has_clock(after, q) implies #[trigger] watts_at(after, q)
                        == (if q == mhz {
                        watts
                    } else {
                        watts_at(before, q)
                    }) by {
                        lemma_same_clocks(before, after, q);
                        if q != mhz {
                            let j = choose|j: int| 0 <= j < after.len() && (#[trigger] after[j]).0 == q;
                            lemma_watts(after, j);
                            lemma_watts(before, j);
                        } else {
                            lemma_watts(after, i as int);
                        }
                    }
                    assert(self@ =~= old(self)@.insert(mhz, watts));
                }
            },
            Err(i) => {
                self.points.insert(i, (mhz, watts));
                proof {
                    let after = self.points@;
                    lemma_inserted_rising(before, mhz, watts, i as int);
                    assert forall|q: u32| has_clock(after, q) == (q == mhz || has_clock(before, q)) by {
                        lemma_inserted_clocks(before, mhz, watts, i as int, q);
                    }
                    assert forall|q: u32| has_clock(after, q) implies #[trigger] watts_at(after, q)
                        == (if q == mhz {
                        watts
                    } else {
                        watts_at(before, q)
                    }) by {
                        lemma_inserted_clocks(before, mhz, watts, i as int, q);
                        if q == mhz {
                            lemma_watts(after, i as int);
                        } else {
                            let j = choose|j: int|
                                0 <= j < before.len() && (#[trigger] before[j]).0 == q;
                            lemma_watts(before, j);
                            lemma_watts(
                                after,
                                if j < i {
                                    j
                                } else {
                                    j + 1
                                },
                            );
                        }
                    }
                    assert(self@ =~= old(self)@.insert(mhz, watts));
                }
            },
        }
    }

    /// How many points there are.
    pub fn len(&self) -> (r: usize)
        ensures
            r == self.points@.len(),
    {
        self.points.len()
    }

    /// Whether there is no point.
    pub fn is_empty(&self) -> (r: bool)
        ensures
            r == (self.points@.len() == 0),
    {
        self.points.len() == 0
    }

    /// The largest clock whose watts stay within the budget: interpolated
    /// between points, never outside the clocks of the table.
    pub fn clock_for_watts(&self, target_w: Num) -> (r: Option<u32>)
        requires
            self.wf(),
        ensures
            r == clock_of(self.points@, target_w),
    {
        let n: usize = self.points.len();
        if n == 0 {
            return None;
        }
        let (hi_mhz, hi_w) = self.points[n - 1];
        if target_w >= hi_w {
            return Some(hi_mhz);
        }
        let mut i: usize = n - 1;
        while i > 0
            invariant
                0 < n == self.points@.len(),
                i < n,
                self.wf(),
                scanned(self.points@, n - 1, target_w) == scanned(
                    self.points@,
                    i as int,
                    target_w,
                ),
            decreases i,
        {
            let (m0, w0) = self.points[i - 1];
            let (m1, w1) = self.points[i];
            if target_w >= w1 {
                return Some(m1);
            }
            if w1 > w0 && target_w >= w0 {
                proof {
                    reveal(crossing);
                    reveal(interpolated);
                }
                let frac = (target_w - w0) / (w1 - w0);
                let mhz = Num::from_int(m0 as u64) + frac * (Num::from_int(m1 as u64)
                    - Num::from_int(m0 as u64));
                return Some((mhz + Num(WHOLE_MHZ_EPSILON)).floor().to_u32());
            }
            i -= 1;
        }
        Some(self.points[0].0)
    }

    /// The watts at a clock: interpolated between points, and at either end
    /// the watts of the last point there.
    pub fn watts_for_clock(&self, mhz: u32) -> (r: Option<Num>)
        requires
            self.wf(),
        ensures
            r == watts_of(self.points@, mhz),
    {
        let n: usize = self.points.len();
        if n == 0 {
            return None;
        }
        let (lo_mhz, lo_w) = self.points[0];
        let (hi_mhz, hi_w) = self.points[n - 1];
        if mhz <= lo_mhz {
            return Some(lo_w);
        }
        if mhz >= hi_mhz {
            return Some(hi_w);
        }
        match self.search(mhz) {
            Ok(i) => {
                proof {
                    lemma_watts(self.points@, i as int);
                }
                Some(self.points[i].1)
            },
            Err(i) => {
                proof {
                    reveal(between);
                    assert(self.points@[0].0 < mhz);
                    assert(self.points@[n - 1].0 > mhz);
                    lemma_inserted_clocks(self.points@, mhz, Num(ZERO), i as int, mhz);
                    lemma_one_place(self.points@, mhz, i as int);
                }
                let (m0, w0) = self.points[i - 1];
                let (m1, w1) = self.points[i];
                let frac = Num::from_int((mhz - m0) as u64) / Num::from_int((m1 - m0) as u64);
                Some(w0 + frac * (w1 - w0))
            },
        }
    }
}

/// A measured clock has its measured watts.
pub proof fn lemma_watts(points: Seq<(u32, Num)>, i: int)
    requires
        rising(points),
        0 <= i < points.len(),
    ensures
        has_clock(points, points[i].0),
        watts_at(points, points[i].0) == points[i].1,
{
    let j = choose|j: int| 0 <= j < points.len() && (#[trigger] points[j]).0 == points[i].0;
    assert(j == i);
}

/// A clock belongs in one place.
pub proof fn lemma_one_place(points: Seq<(u32, Num)>, mhz: u32, i: int)
    requires
        belongs(points, mhz, i),
    ensures
        (choose|j: int| belongs(points, mhz, j)) == i,
{
    let j = choose|j: int| belongs(points, mhz, j);
    if j < i {
        assert(points[j].0 < mhz);
    } else if i < j {
        assert(points[i].0 < mhz);
    }
}

proof fn lemma_same_clocks(before: Seq<(u32, Num)>, after: Seq<(u32, Num)>, q: u32)
    requires
        before.len() == after.len(),
        forall|j: int| 0 <= j < before.len() ==> (#[trigger] before[j]).0 == (#[trigger] after[j]).0,
    ensures
        has_clock(before, q) == has_clock(after, q),
{
    if has_clock(before, q) {
        let j = choose|j: int| 0 <= j < before.len() && (#[trigger] before[j]).0 == q;
        assert(after[j].0 == q);
    }
    if has_clock(after, q) {
        let j = choose|j: int| 0 <= j < after.len() && (#[trigger] after[j]).0 == q;
        assert(before[j].0 == q);
    }
}

proof fn lemma_inserted_rising(before: Seq<(u32, Num)>, mhz: u32, watts: Num, i: int)
    requires
        rising(before),
        belongs(before, mhz, i),
    ensures
        rising(before.insert(i, (mhz, watts))),
{
    let after = before.insert(i, (mhz, watts));
    assert forall|a: int, b: int| 0 <= a < b < after.len() implies (#[trigger] after[a]).0 < (
    #[trigger] after[b]).0 by {
        if a < i {
            assert(after[a] == before[a]);
        } else if a > i {
            assert(after[a] == before[a - 1]);
        }
        if b < i {
            assert(after[b] == before[b]);
        } else if b > i {
            assert(after[b] == before[b - 1]);
        }
    }
}

proof fn lemma_inserted_clocks(before: Seq<(u32, Num)>, mhz: u32, watts: Num, i: int, q: u32)
    requires
        belongs(before, mhz, i),
    ensures
        has_clock(before.insert(i, (mhz, watts)), q) == (q == mhz || has_clock(before, q)),
        !has_clock(before, mhz),
{
    let after = before.insert(i, (mhz, watts));
    assert(after[i].0 == mhz);
    if has_clock(before, q) {
        let j = choose|j: int| 0 <= j < before.len() && (#[trigger] before[j]).0 == q;
        if j < i {
            assert(after[j].0 == q);
        } else {
            assert(after[j + 1].0 == q);
        }
    }
    if has_clock(after, q) {
        let j = choose|j: int| 0 <= j < after.len() && (#[trigger] after[j]).0 == q;
        if j < i {
            assert(before[j].0 == q);
        } else if j > i {
            assert(before[j - 1].0 == q);
        }
    }
}

/// The differences between the watts of the table are finite, as they are for
/// any wattage that a machine can draw.
pub open spec fn finite_watts(points: Seq<(u32, Num)>) -> bool {
    forall|i: int, j: int|
        0 <= i < points.len() && 0 <= j < points.len() ==> (#[trigger] points[i]).1.finite() && (
        #[trigger] points[j]).1.minus(points[i].1).finite()
}

/// An interpolated clock lies between those of its bracket.
pub proof fn lemma_interpolated_between(lo: (u32, Num), hi: (u32, Num), target: Num)
    requires
        lo.0 < hi.0,
        lo.1.finite(),
        hi.1.finite(),
        hi.1.minus(lo.1).finite(),
        lo.1.le(target),
        target.lt(hi.1),
    ensures
        lo.0 <= interpolated(lo, hi, target) <= hi.0,
        crate::num::of_int(lo.0 as nat).le(crossing(lo, hi, target)),
        crossing(lo, hi, target).le(crate::num::of_int(hi.0 as nat)),
        largest_between(lo, hi, target, interpolated(lo, hi, target)),
{
    reveal(interpolated);
    reveal(crossing);
    reveal(largest_between);
    reveal(Num::le);
    reveal(Num::lt);
    let u = crate::num::unit();
    vstd::arithmetic::power2::lemma_pow2_pos(1074);
    let (m0, m1) = (crate::num::of_int(lo.0 as nat), crate::num::of_int(hi.0 as nat));
    crate::order::lemma_of_int_exact(lo.0 as nat);
    crate::order::lemma_of_int_exact(hi.0 as nat);
    // The part of the bracket.
    let a = target.minus(lo.1);
    let b = hi.1.minus(lo.1);
    crate::order::lemma_minus_sign(lo.1, target);
    crate::order::lemma_minus_sign(lo.1, hi.1);
    crate::order::lemma_minus_from(target, hi.1, lo.1);
    crate::order::lemma_over_share(a, b);
    let part = a.over(b);
    // Its share of the clocks.
    let gap = crate::num::of_int((hi.0 - lo.0) as nat);
    crate::order::lemma_of_int_exact((hi.0 - lo.0) as nat);
    let span = m1.minus(m0);
    assert(m1.value() - m0.value() == gap.value()) by (nonlinear_arith)
        requires
            m1.value() == hi.0 * u,
            m0.value() == lo.0 * u,
            gap.value() == (hi.0 - lo.0) * u,
    ;
    assert(span.key() == gap.key() && !span.nan()) by {
        reveal(Num::minus);
        assert(m0.opposite().value() == -m0.value());
        crate::order::lemma_plus_exact(m1, m0.opposite(), gap);
    }
    crate::num::lemma_order_is_numeric(span, gap);
    crate::order::lemma_steps_zero(Num(ZERO));
    crate::order::lemma_times_share(part, span);
    let prod = part.times(span);
    // Between the two clocks.
    let sum = m0.plus(prod);
    crate::order::lemma_plus_nan(m0, prod);
    crate::order::lemma_plus_nan(m0, span);
    crate::order::lemma_plus_grows(m0, prod);
    crate::order::lemma_plus_monotone(m0, prod, span);
    crate::order::lemma_plus_exact(m0, span, m1);
    assert(m0.le(sum) && sum.le(m1));
    // The epsilon does not reach the next whole clock.
    let eps = Num(WHOLE_MHZ_EPSILON);
    let half = Num(0x3fe0_0000_0000_0000);
    let next = sum.plus(eps);
    crate::order::lemma_plus_nan(sum, eps);
    crate::order::lemma_plus_nan(m1, eps);
    crate::order::lemma_plus_nan(m1, half);
    crate::order::lemma_plus_grows(sum, eps);
    crate::order::lemma_plus_commutes(sum, eps);
    crate::order::lemma_plus_commutes(m1, eps);
    crate::order::lemma_plus_monotone(eps, sum, m1);
    crate::order::lemma_plus_monotone(m1, eps, half);
    let odd = 2 * (hi.0 as nat) + 1;
    let mark = crate::num::signed(
        false,
        crate::rounding::round_magnitude(odd * vstd::arithmetic::power2::pow2(1073), 1),
    );
    crate::order::lemma_round_short(odd, 1073);
    let v = vstd::arithmetic::power2::pow2(1073);
    assert(u == 2 * v) by {
        vstd::arithmetic::power2::lemma_pow2_unfold(1074);
    }
    assert(half.value() == v) by {
        vstd::arithmetic::power2::lemma2_to64_rest();
        vstd::arithmetic::power2::lemma_pow2_adds(52, 1021);
        assert(half.significand() == 0x10_0000_0000_0000);
        assert(half.exponent() == 1021);
    }
    assert(m1.value() + half.value() == mark.value()) by (nonlinear_arith)
        requires
            m1.value() == hi.0 * u,
            half.value() == v,
            u == 2 * v,
            mark.value() == odd * v,
            odd == 2 * hi.0 + 1,
    ;
    crate::order::lemma_plus_exact(m1, half, mark);
    assert(m0.le(next) && next.le(mark));
    assert(next.finite() && !next.negative()) by {
        crate::order::lemma_steps_zero(next);
        lemma_not_negative(sum, eps, m0);
    }
    crate::num::lemma_magnitude_order(m0, next);
    crate::num::lemma_magnitude_order(next, mark);
    // The whole part.
    let w = next.steps() / u;
    assert(lo.0 <= w <= hi.0) by (nonlinear_arith)
        requires
            u > 0,
            u == 2 * v,
            lo.0 * u <= next.steps(),
            next.steps() <= (2 * hi.0 + 1) * v,
            w == next.steps() / u,
    ;
    crate::order::lemma_floor_whole(next);
    // The largest one.
    let (c, d) = (crate::num::of_int(w), crate::num::of_int(w + 1));
    crate::order::lemma_of_int_exact(w);
    crate::order::lemma_of_int_exact(w + 1);
    assert(w * u <= next.steps() < (w + 1) * u) by (nonlinear_arith)
        requires
            u > 0,
            w == next.steps() / u,
    ;
    crate::num::lemma_magnitude_order(c, next);
    crate::num::lemma_magnitude_order(d, next);
    crate::num::lemma_order_is_numeric(c, next);
    crate::num::lemma_order_is_numeric(d, next);
}

/// A sum with a positive term is not a negative zero.
proof fn lemma_not_negative(a: Num, b: Num, low: Num)
    requires
        a.finite(),
        b == Num(WHOLE_MHZ_EPSILON),
        !low.negative(),
        low.le(a),
    ensures
        !a.plus(b).negative(),
{
    reveal(Num::plus);
    reveal(Num::le);
    crate::order::lemma_steps_zero(b);
    crate::order::lemma_steps_zero(a);
}

/// Every clock that a lookup returns is one that the table covers: never below
/// the lowest, never above the highest, whatever the budget.
pub proof fn lemma_clock_is_covered(points: Seq<(u32, Num)>, target: Num)
    requires
        rising(points),
        points.len() > 0,
        finite_watts(points),
    ensures
        clock_of(points, target) is Some,
        points[0].0 <= clock_of(points, target)->0 <= points.last().0,
{
    if !points.last().1.le(target) {
        lemma_scanned_covered(points, points.len() - 1, target);
    }
}

proof fn lemma_scanned_covered(points: Seq<(u32, Num)>, i: int, target: Num)
    requires
        rising(points),
        finite_watts(points),
        0 <= i < points.len(),
    ensures
        points[0].0 <= scanned(points, i, target) <= points[i].0,
    decreases i,
{
    if i > 0 {
        let lo = points[i - 1];
        let hi = points[i];
        assert(lo.0 < hi.0);
        lemma_scanned_covered(points, i - 1, target);
        if !hi.1.le(target) && lo.1.lt(hi.1) && lo.1.le(target) {
            assert(target.lt(hi.1)) by {
                reveal(Num::le);
                reveal(Num::lt);
            }
            lemma_interpolated_between(lo, hi, target);
        }
    }
}

/// A clock rests on a measured point that fits the budget: it is that point's
/// clock, or lies between it and the next, which draws more than the budget,
/// and is the largest there at which the line between them fits.
pub open spec fn rests_on(points: Seq<(u32, Num)>, j: int, clock: u32, target: Num) -> bool {
    &&& 0 <= j < points.len()
    &&& points[j].1.le(target)
    &&& points[j].0 <= clock
    &&& clock == points[j].0 || (j + 1 < points.len() && clock <= points[j + 1].0 && target.lt(
        points[j + 1].1,
    ) && largest_between(points[j], points[j + 1], target, clock))
}

/// A lookup is conservative and wastes nothing. What it returns is the lowest
/// clock, or rests on a measured point that fits the budget; and no measured
/// clock above it fits, whether or not the watts dip on the way.
pub proof fn lemma_clock_fits_the_budget(points: Seq<(u32, Num)>, target: Num)
    requires
        rising(points),
        points.len() > 0,
        finite_watts(points),
    ensures
        ({
            let clock = clock_of(points, target)->0;
            &&& clock == points[0].0 || exists|j: int| #[trigger]
                rests_on(points, j, clock, target)
            &&& forall|k: int|
                0 <= k < points.len() && clock < (#[trigger] points[k]).0 ==> !points[k].1.le(
                    target,
                )
        }),
{
    let top = points.len() - 1;
    if points.last().1.le(target) {
        assert(rests_on(points, top, points[top].0, target));
    } else {
        lemma_scanned_fits(points, top, target);
    }
}

proof fn lemma_scanned_fits(points: Seq<(u32, Num)>, i: int, target: Num)
    requires
        rising(points),
        finite_watts(points),
        0 <= i < points.len(),
        forall|k: int| i < k < points.len() ==> !(#[trigger] points[k]).1.le(target),
    ensures
        ({
            let clock = scanned(points, i, target);
            &&& clock == points[0].0 || exists|j: int| #[trigger]
                rests_on(points, j, clock, target)
            &&& forall|k: int|
                0 <= k < points.len() && clock < (#[trigger] points[k]).0 ==> !points[k].1.le(
                    target,
                )
        }),
    decreases i,
{
    if i > 0 {
        let lo = points[i - 1];
        let hi = points[i];
        assert(lo.0 < hi.0);
        if hi.1.le(target) {
            assert(rests_on(points, i, hi.0, target));
        } else if lo.1.lt(hi.1) && lo.1.le(target) {
            assert(target.lt(hi.1)) by {
                reveal(Num::le);
                reveal(Num::lt);
            }
            lemma_interpolated_between(lo, hi, target);
            assert(rests_on(points, i - 1, interpolated(lo, hi, target), target));
        } else {
            lemma_scanned_fits(points, i - 1, target);
        }
    }
}

proof fn lemma_without_last(points: Seq<(u32, Num)>, q: u32)
    requires
        rising(points),
        points.len() > 0,
    ensures
        has_clock(points.drop_last(), q) == (has_clock(points, q) && q != points.last().0),
        has_clock(points.drop_last(), q) ==> watts_at(points.drop_last(), q) == watts_at(points, q),
{
    let rest = points.drop_last();
    assert(rising(rest));
    if has_clock(rest, q) {
        let j = choose|j: int| 0 <= j < rest.len() && (#[trigger] rest[j]).0 == q;
        assert(points[j].0 == q);
        lemma_watts(rest, j);
        lemma_watts(points, j);
    }
    if has_clock(points, q) && q != points.last().0 {
        let j = choose|j: int| 0 <= j < points.len() && (#[trigger] points[j]).0 == q;
        assert(rest[j].0 == q);
    }
}

proof fn lemma_one_table(a: Seq<(u32, Num)>, b: Seq<(u32, Num)>)
    requires
        rising(a),
        rising(b),
        forall|q: u32| #[trigger] has_clock(a, q) == has_clock(b, q),
        forall|q: u32| #[trigger] has_clock(a, q) ==> watts_at(a, q) == watts_at(b, q),
    ensures
        a == b,
    decreases a.len(),
{
    if a.len() == 0 {
        if b.len() > 0 {
            lemma_watts(b, 0);
            assert(has_clock(a, b[0].0));
        }
        assert(a =~= b);
    } else {
        let x = a.last();
        lemma_watts(a, a.len() - 1);
        assert(has_clock(b, x.0));
        let i = choose|i: int| 0 <= i < b.len() && (#[trigger] b[i]).0 == x.0;
        let y = b.last();
        lemma_watts(b, b.len() - 1);
        assert(has_clock(a, y.0));
        let j = choose|j: int| 0 <= j < a.len() && (#[trigger] a[j]).0 == y.0;
        assert(x == y);
        assert forall|q: u32| #[trigger] has_clock(a.drop_last(), q) == has_clock(
            b.drop_last(),
            q,
        ) by {
            lemma_without_last(a, q);
            lemma_without_last(b, q);
        }
        assert forall|q: u32| #[trigger] has_clock(a.drop_last(), q) implies watts_at(
            a.drop_last(),
            q,
        ) == watts_at(b.drop_last(), q) by {
            lemma_without_last(a, q);
            lemma_without_last(b, q);
        }
        lemma_one_table(a.drop_last(), b.drop_last());
        assert(a =~= a.drop_last().push(x));
        assert(b =~= b.drop_last().push(y));
    }
}

proof fn lemma_mapped(lut: ClockWattsLut, q: u32)
    ensures
        lut@.dom().contains(q) == has_clock(lut.points@, q),
        has_clock(lut.points@, q) ==> lut@[q] == watts_at(lut.points@, q),
{
}

/// What a table maps fixes its points: two tables in order that map the same
/// clocks to the same watts hold the same points, so every lookup in them
/// agrees.
pub proof fn lemma_map_fixes_the_points(a: ClockWattsLut, b: ClockWattsLut)
    requires
        a.wf(),
        b.wf(),
        a@ == b@,
    ensures
        a.points@ == b.points@,
{
    assert forall|q: u32| #[trigger] has_clock(a.points@, q) == has_clock(b.points@, q) by {
        lemma_mapped(a, q);
        lemma_mapped(b, q);
    }
    assert forall|q: u32| #[trigger] has_clock(a.points@, q) implies watts_at(a.points@, q)
        == watts_at(b.points@, q) by {
        lemma_mapped(a, q);
        lemma_mapped(b, q);
    }
    lemma_one_table(a.points@, b.points@);
}

/// The order in which two points of different clocks are added does not
/// matter.
pub proof fn lemma_order_of_inserts_is_free(
    start: Map<u32, Num>,
    a: ClockWattsLut,
    b: ClockWattsLut,
    p: (u32, Num),
    q: (u32, Num),
)
    requires
        a.wf(),
        b.wf(),
        p.0 != q.0,
        a@ == start.insert(p.0, p.1).insert(q.0, q.1),
        b@ == start.insert(q.0, q.1).insert(p.0, p.1),
    ensures
        a.points@ == b.points@,
{
    assert(a@ =~= b@);
    lemma_map_fixes_the_points(a, b);
}

/// A point just added is read back, whatever was at its clock before.
pub proof fn lemma_added_point_is_read_back(
    before: Map<u32, Num>,
    after: ClockWattsLut,
    mhz: u32,
    watts: Num,
)
    requires
        after.wf(),
        after@ == before.insert(mhz, watts),
    ensures
        watts_of(after.points@, mhz) == Some(watts),
{
    let points = after.points@;
    lemma_mapped(after, mhz);
    let i = choose|i: int| 0 <= i < points.len() && (#[trigger] points[i]).0 == mhz;
    lemma_watts(points, i);
    assert(after@[mhz] == watts);
}

} // verus!
