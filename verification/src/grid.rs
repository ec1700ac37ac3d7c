//! That putting a value on a grid moves it by at most half a step of the grid.

use crate::num::{unit, Num};
use crate::order::{lemma_round_short, lemma_steps_zero};
use crate::precision::{apart, grain, lemma_over_error, lemma_times_error, reach};
use crate::spending::lemma_scales;
use vstd::arithmetic::power2::lemma_pow2_pos;
use vstd::prelude::*;

verus! {

/// A number rounded to a whole one: it is whole, and at most half away.
pub proof fn lemma_rounded_value(q: Num)
    requires
        q.finite(),
        q.steps() < 0x10_0000_0000_0000 * unit(),
    ensures
        q.rounded().finite(),
        2 * apart(q.rounded().value(), q.value()) <= unit(),
        exists|n: int| q.rounded().value() == #[trigger] (n * unit()),
{
    reveal(Num::rounded);
    let u = unit();
    lemma_pow2_pos(1074);
    lemma_steps_zero(q);
    let s = q.steps();
    let w = (2 * s + u) / (2 * u);
    vstd::arithmetic::div_mod::lemma_fundamental_div_mod((2 * s + u) as int, (2 * u) as int);
    let r = (2 * s + u) % (2 * u);
    assert(2 * (w * u) + r == 2 * s + u) by (nonlinear_arith)
        requires
            2 * s + u == (2 * u) * w + r,
    ;
    assert(w < 0x20_0000_0000_0000) by (nonlinear_arith)
        requires
            2 * (w * u) + r == 2 * s + u,
            s < 0x10_0000_0000_0000 * u,
            r >= 0,
            u > 0,
    ;
    lemma_round_short(w, 1074);
    let m = crate::rounding::round_magnitude(w * u, 1);
    let x = crate::num::signed(false, m);
    let y = q.rounded();
    assert(y.magnitude() == m);
    assert(y.steps() == x.steps());
    if q.negative() {
        assert(y.value() == (-w) * u) by (nonlinear_arith)
            requires
                y.value() == -(w * u),
        ;
    } else {
        assert(y.value() == w * u);
    }
}

/// A value over the grid's step, rounded to a whole number, times that step
/// lies within half a step of the value, but for rounding.
pub proof fn lemma_gridded_value(x: Num, g: Num, b: nat)
    requires
        x.finite() && x.steps() <= b,
        g.finite() && g.value() > 0,
        16 * (b + g.steps()) <= reach(),
        b <= 0x1_0000_0000 * g.steps(),
    ensures
        ({
            let y = x.over(g).rounded().times(g);
            &&& y.finite()
            &&& 2 * apart(y.value(), x.value()) <= g.value() + 16 * grain((b + g.steps()) as int)
        }),
{
    lemma_scales();
    lemma_pow2_pos(1074);
    lemma_steps_zero(g);
    let u = unit() as int;
    let k: int = 0x20_0000_0000_0000;
    let h: int = 0x10_0000_0000_0000;
    let gs = g.steps();
    assert(x.steps() * unit() <= reach() * gs) by (nonlinear_arith)
        requires
            x.steps() <= 0x1_0000_0000 * gs,
            0x1_0000_0000 * unit() <= reach(),
    ;
    lemma_over_error(x, g);
    let q = x.over(g);
    let (qv, xv, gv) = (q.value(), x.value(), gs as int);
    let e1 = apart(qv * gv, xv * u);
    assert(x.steps() * unit() <= b * u) by (nonlinear_arith)
        requires
            x.steps() <= b,
            u == unit(),
    ;
    assert(e1 * k <= b * u + gv * h);
    // The quotient is small.
    let z = apart(qv, 0);
    assert(apart(qv * gv, 0) == z * gv) by (nonlinear_arith)
        requires
            z == apart(qv, 0),
            gv > 0,
    ;
    assert(apart(xv * u, 0) == apart(xv, 0) * u) by (nonlinear_arith)
        requires
            u > 0,
    ;
    assert(apart(xv, 0) * u <= b * u) by (nonlinear_arith)
        requires
            apart(xv, 0) <= b,
            u > 0,
    ;
    assert(z * gv <= 2 * (b * u) + gv);
    assert(b * u <= 0x1_0000_0000 * (gv * u)) by (nonlinear_arith)
        requires
            b <= 0x1_0000_0000 * gv,
            u > 0,
    ;
    assert(z < h * u) by (nonlinear_arith)
        requires
            z * gv <= 0x2_0000_0000 * (gv * u) + gv,
            gv > 0,
            u >= 1,
            h == 0x10_0000_0000_0000,
    ;
    lemma_rounded_value(q);
    let r = q.rounded();
    let rv = r.value();
    let e2 = apart(rv, qv);
    let rz = apart(rv, 0);
    assert(r.steps() == rz) by {
        lemma_steps_zero(r);
    }
    assert(rz * gv <= 2 * (b * u) + gv + gv * u) by (nonlinear_arith)
        requires
            rz <= z + u,
            z * gv <= 2 * (b * u) + gv,
            gv > 0,
    ;
    assert(r.steps() * gs <= reach() * unit()) by (nonlinear_arith)
        requires
            r.steps() * gs <= 2 * (b * u) + gs + gs * u,
            16 * (b + gs) <= reach(),
            u == unit(),
            u >= 1,
    ;
    lemma_times_error(r, g);
    let y = r.times(g);
    let yv = y.value();
    let e3 = apart(yv * u, rv * gv);
    assert(e3 * k <= 2 * (b * u) + gv + gv * u + u * h);
    assert(apart(rv * gv, qv * gv) == e2 * gv) by (nonlinear_arith)
        requires
            e2 == apart(rv, qv),
            gv > 0,
    ;
    assert(2 * (e2 * gv) <= gv * u) by (nonlinear_arith)
        requires
            2 * e2 <= u,
            gv > 0,
    ;
    let d = apart(yv, xv);
    assert(apart(yv * u, xv * u) == d * u) by (nonlinear_arith)
        requires
            d == apart(yv, xv),
            u > 0,
    ;
    assert(d * u <= e3 + e2 * gv + e1);
    let m = b + gs;
    let n = grain(m as int);
    assert(m * u == b * u + gs * u) by (nonlinear_arith)
        requires
            m == b + gs,
    ;
    assert(gv <= gv * u && gv * h <= gv * u) by (nonlinear_arith)
        requires
            u >= h,
            h >= 1,
            gv > 0,
    ;
    assert((e1 + e3) * k <= 5 * (m * u) + u * h);
    assert(m + k <= n * k);
    assert(e1 + e3 <= 6 * (n * u)) by (nonlinear_arith)
        requires
            (e1 + e3) * k <= 5 * (m * u) + u * h,
            m + k <= n * k,
            k == 2 * h,
            u > 0,
            h > 0,
            m >= 0,
    ;
    assert(2 * d <= gv + 16 * n) by (nonlinear_arith)
        requires
            d * u <= 6 * (n * u) + e2 * gv,
            2 * (e2 * gv) <= gv * u,
            u > 0,
            n >= 0,
    ;
}

} // verus!
