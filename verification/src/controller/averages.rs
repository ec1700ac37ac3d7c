//! What the means and slopes of the windows come to, told from the readings.

use crate::controller::windows::{mean, slope, smoothed, total};
use crate::num::{of_int, unit, Num, ZERO};
use crate::order::{lemma_of_int_exact, lemma_steps_zero};
use crate::precision::{apart, grain, lemma_minus_error, lemma_over_error, lemma_plus_error, reach};
use crate::values::lemma_zero;
use vstd::arithmetic::power2::lemma_pow2_pos;
use vstd::prelude::*;

verus! {

/// The exact sum of some readings.
pub open spec fn exact_sum(s: Seq<Num>) -> int
    decreases s.len(),
{
    if s.len() == 0 {
        0
    } else {
        exact_sum(s.drop_last()) + s.last().value()
    }
}

/// A window of at most 64 finite readings, each at most `b` steps large.
pub open spec fn modest(s: Seq<Num>, b: nat) -> bool {
    &&& s.len() <= 64
    &&& 256 * b <= reach()
    &&& forall|i: int| 0 <= i < s.len() ==> (#[trigger] s[i]).finite() && s[i].steps() <= b
}

/// A computed sum is the exact one, up to a rounding for each reading.
pub proof fn lemma_total_is_the_sum(s: Seq<Num>, b: nat)
    requires
        modest(s, b),
    ensures
        total(s).finite(),
        apart(exact_sum(s), 0) <= s.len() * b,
        apart(total(s).value(), exact_sum(s)) <= s.len() * grain(128 * b as int),
    decreases s.len(),
{
    lemma_zero();
    let g = grain(128 * b as int);
    if s.len() > 0 {
        let rest = s.drop_last();
        let x = s.last();
        assert forall|i: int| 0 <= i < rest.len() implies (#[trigger] rest[i]).finite()
            && rest[i].steps() <= b by {
            assert(rest[i] == s[i]);
        }
        assert(x == s[s.len() - 1]);
        lemma_total_is_the_sum(rest, b);
        lemma_steps_zero(x);
        let t = total(rest);
        let (n, e) = (rest.len() as int, exact_sum(rest));
        assert(n * b <= 63 * b && (n + 1) * b == n * b + b) by (nonlinear_arith)
            requires
                n <= 63,
                b >= 0,
        ;
        assert(n * g <= 63 * g && (n + 1) * g == n * g + g) by (nonlinear_arith)
            requires
                n <= 63,
                g >= 0,
        ;
        crate::spending::lemma_scales();
        lemma_pow2_pos(1074);
        lemma_plus_error(t, x);
        let z = apart(t.value() + x.value(), 0);
        assert(z <= 64 * b + 63 * g);
        assert(apart(t.plus(x).value(), t.value() + x.value()) <= g);
    } else {
        assert(s.len() * b == 0) by (nonlinear_arith)
            requires
                s.len() == 0,
        ;
        assert(s.len() * g == 0) by (nonlinear_arith)
            requires
                s.len() == 0,
        ;
    }
}

/// A sum over a whole number.
pub proof fn lemma_shared_out(t: Num, n: nat)
    requires
        t.finite() && t.steps() <= reach(),
        0 < n <= 64,
    ensures
        t.over(of_int(n)).finite(),
        apart(t.over(of_int(n)).value() * n, t.value()) * 0x20_0000_0000_0000 <= t.steps() + n
            * 0x10_0000_0000_0000,
{
    lemma_pow2_pos(1074);
    let u = unit() as int;
    lemma_of_int_exact(n);
    let d = of_int(n);
    let nu = n * u;
    assert(nu >= u) by (nonlinear_arith)
        requires
            nu == n * u,
            n >= 1,
            u > 0,
    ;
    assert(t.steps() * u <= reach() * nu) by (nonlinear_arith)
        requires
            t.steps() <= reach(),
            u <= nu,
            u > 0,
            t.steps() >= 0,
    ;
    lemma_over_error(t, d);
    let q = t.over(d).value();
    let (tv, k, h) = (t.value(), 0x20_0000_0000_0000int, 0x10_0000_0000_0000int);
    let e = apart(q * n, tv);
    assert(apart(q * nu, tv * u) == e * u) by (nonlinear_arith)
        requires
            e == apart(q * n, tv),
            nu == n * u,
            u > 0,
    ;
    assert(e * k <= t.steps() + n * h) by (nonlinear_arith)
        requires
            e * u * k <= t.steps() * u + nu * h,
            nu == n * u,
            u > 0,
    ;
}

/// The mean of a window times its length is the sum of its readings, up to
/// rounding.
pub proof fn lemma_mean_is_the_sum_shared_out(s: Seq<Num>, b: nat)
    requires
        modest(s, b),
        s.len() > 0,
    ensures
        mean(s).finite() && smoothed(s) == mean(s),
        apart(mean(s).value() * s.len(), exact_sum(s)) <= 2 * s.len() * grain(128 * b as int) + 2
            * grain(128 * b as int),
{
    reveal(mean);
    reveal(smoothed);
    let g = grain(128 * b as int);
    let n = s.len() as int;
    lemma_total_is_the_sum(s, b);
    let t = total(s);
    lemma_steps_zero(t);
    assert(n * b <= 64 * b && n * g <= 64 * g && 2 * n * g == n * g + n * g && n * g >= n)
        by (nonlinear_arith)
        requires
            0 < n <= 64,
            b >= 0,
            g >= 1,
    ;
    crate::spending::lemma_scales();
    lemma_pow2_pos(1074);
    lemma_shared_out(t, s.len());
}

/// An empty window smooths to nothing.
pub proof fn lemma_empty_window_is_nothing()
    ensures
        smoothed(Seq::empty()).finite() && smoothed(Seq::empty()).value() == 0,
        slope(Seq::empty()).value() == 0,
{
    reveal(smoothed);
    reveal(slope);
    lemma_zero();
    lemma_pow2_pos(1074);
    assert(total(Seq::empty()) == Num(ZERO));
    lemma_steps_zero(Num(ZERO));
    crate::spending::lemma_scales();
    lemma_shared_out(Num(ZERO), 1);
}

/// The slope of a window is the change from its oldest reading to its newest,
/// shared out over the samples between them.
pub proof fn lemma_slope_is_the_change_shared_out(s: Seq<Num>, b: nat)
    requires
        modest(s, b),
        s.len() > 1,
    ensures
        slope(s).finite(),
        apart(slope(s).value() * (s.len() - 1), s[s.len() - 1].value() - s[0].value()) <= 6 * grain(
            b as int,
        ) + s.len(),
{
    reveal(slope);
    let (first, last) = (s[0], s[s.len() - 1]);
    assert(s.first() == first && s.last() == last);
    lemma_steps_zero(first);
    lemma_steps_zero(last);
    lemma_minus_error(last, first);
    let d = last.minus(first);
    lemma_steps_zero(d);
    crate::spending::lemma_scales();
    lemma_pow2_pos(1074);
    let n = (s.len() - 1) as nat;
    lemma_shared_out(d, n);
    let exact = last.value() - first.value();
    assert(apart(d.value(), exact) * 0x20_0000_0000_0000 <= 2 * b);
    assert(d.steps() <= 3 * b + 1);
    let q = d.over(of_int(n));
    assert(slope(s) == q);
    assert(apart(q.value() * n, d.value()) * 0x20_0000_0000_0000 <= 3 * b + 1 + n
        * 0x10_0000_0000_0000);
    assert(apart(q.value() * n, exact) <= 6 * grain(b as int) + s.len());
    assert(q.value() * n == slope(s).value() * (s.len() - 1));
}

} // verus!
