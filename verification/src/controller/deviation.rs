//! When a window of readings counts as steady, told from the readings.

use crate::controller::averages::{lemma_shared_out, modest};
use crate::controller::windows::{
    deviation, mean, squares, SteadyView, STEADY_WINDOW_STDEV_MAX_RPM,
};
use crate::estimation::{lemma_add, lemma_product};
use crate::num::{of_int, unit, Num, ZERO};
use crate::order::lemma_steps_zero;
use crate::precision::{apart, reach};
use crate::spending::lemma_scales;
use crate::values::{lemma_compare, lemma_root_side, lemma_whole, lemma_zero};
use vstd::arithmetic::power2::{lemma2_to64, lemma2_to64_rest, lemma_pow2_pos};
use vstd::prelude::*;

verus! {

/// The exact sum of the squared distances of some readings from a level.
pub open spec fn exact_squares(s: Seq<Num>, level: int) -> int
    decreases s.len(),
{
    if s.len() == 0 {
        0
    } else {
        exact_squares(s.drop_last(), level) + (s.last().value() - level) * (s.last().value() - level)
    }
}

/// One squared distance.
proof fn lemma_square(x: Num, m: Num)
    requires
        x.finite() && x.steps() <= 0x10_0000 * unit(),
        m.finite() && m.steps() <= 0x10_0001 * unit(),
    ensures
        ({
            let d = x.minus(m);
            let t = d.times(d);
            let e = x.value() - m.value();
            &&& t.finite() && t.value() >= 0
            &&& apart(t.value(), 0) <= 0x400_0080_0005 * unit()
            &&& apart(t.value() * unit(), e * e) * 8 <= unit() * unit()
        }),
{
    lemma_scales();
    lemma_pow2_pos(1074);
    lemma_steps_zero(x);
    lemma_steps_zero(m);
    let u = unit() as int;
    let o = m.opposite();
    assert(o.finite() && o.value() == -m.value());
    lemma_add(x, o, 0x10_0000, 0x10_0001);
    reveal(Num::minus);
    let d = x.minus(m);
    lemma_steps_zero(d);
    assert((0x10_0000 + 0x10_0001) * u <= 0x20_0001 * u && (0x10_0000 + 0x10_0001 + 1) * u
        <= 0x20_0002 * u) by (nonlinear_arith)
        requires
            u > 0,
    ;
    assert(0x20_0002 * 0x20_0002 == 0x400_0080_0004int) by (nonlinear_arith);
    lemma_product(d, d, 0x20_0002, 0x20_0002);
    let t = d.times(d);
    assert(t.value() >= 0) by {
        reveal(Num::times);
    }
    assert((0x20_0002 * 0x20_0002 + 1) * u == 0x400_0080_0005 * u);
    lemma_square_value(t.value(), d.value(), x.value() - m.value(), u);
}

proof fn lemma_square_value(t: int, d: int, e: int, u: int)
    requires
        u >= 0x20_0000_0000_0000,
        apart(d, e) * 0x20_0000_0000_0000 <= 0x20_0001 * u,
        apart(d, 0) <= 0x20_0002 * u,
        apart(t * u, d * d) * 0x20_0000_0000_0000 <= u * (0x20_0002 * 0x20_0002 * u
            + 0x10_0000_0000_0000),
    ensures
        apart(t * u, e * e) * 8 <= u * u,
{
    let q: int = 0x20_0000_0000_0000;
    let uu = u * u;
    let f = apart(d, e);
    let g = apart(d + e, 0);
    assert(g <= 0x50_0000 * u);
    assert(d * d - e * e == (d - e) * (d + e)) by (nonlinear_arith);
    assert(apart(d * d, e * e) == f * g) by (nonlinear_arith)
        requires
            d * d - e * e == (d - e) * (d + e),
            f == apart(d, e),
            g == apart(d + e, 0),
    ;
    assert(f * g * q <= 0x1000_0000_0000 * uu) by (nonlinear_arith)
        requires
            f * q <= 0x20_0001 * u,
            0 <= g <= 0x50_0000 * u,
            f >= 0,
            uu == u * u,
            u > 0,
    ;
    assert(u * (0x20_0002 * 0x20_0002 * u + 0x10_0000_0000_0000) <= 0x400_0080_0005 * uu)
        by (nonlinear_arith)
        requires
            uu == u * u,
            u >= 0x10_0000_0000_0000,
    ;
    assert(uu >= 0) by (nonlinear_arith)
        requires
            uu == u * u,
            u > 0,
    ;
}

proof fn lemma_squares_value(s: Seq<Num>, m: Num)
    requires
        s.len() <= 64,
        forall|i: int|
            0 <= i < s.len() ==> (#[trigger] s[i]).finite() && s[i].steps() <= 0x10_0000 * unit(),
        m.finite() && m.steps() <= 0x10_0001 * unit(),
    ensures
        squares(s, m).finite() && squares(s, m).value() >= 0,
        squares(s, m).value() <= s.len() * 0x400_0080_0006 * unit(),
        apart(squares(s, m).value() * unit(), exact_squares(s, m.value())) <= s.len() * (unit()
            * unit()),
    decreases s.len(),
{
    lemma_zero();
    let u = unit() as int;
    lemma_pow2_pos(1074);
    if s.len() > 0 {
        let rest = s.drop_last();
        let x = s.last();
        assert forall|i: int| 0 <= i < rest.len() implies (#[trigger] rest[i]).finite()
            && rest[i].steps() <= 0x10_0000 * unit() by {
            assert(rest[i] == s[i]);
        }
        assert(x == s[s.len() - 1]);
        lemma_squares_value(rest, m);
        lemma_square(x, m);
        let t = x.minus(m).times(x.minus(m));
        let n = rest.len() as int;
        let b = n * 0x400_0080_0006;
        let p = squares(rest, m);
        assert(b * u == n * 0x400_0080_0006 * u);
        assert(b <= 64 * 0x400_0080_0006);
        assert(p.value() + t.value() >= 0);
        lemma_add(p, t, b, 0x400_0080_0005);
        let r = p.plus(t);
        crate::values::lemma_sum_side(p, t, Num(ZERO));
        lemma_compare(Num(ZERO), r);
        let e = x.value() - m.value();
        lemma_one_more(
            r.value(),
            p.value(),
            t.value(),
            exact_squares(rest, m.value()),
            e * e,
            n,
            u,
        );
    } else {
        assert(s.len() * 0x400_0080_0006 * unit() == 0 && s.len() * (unit() * unit()) == 0 && 0
            * unit() == 0) by (nonlinear_arith)
            requires
                s.len() == 0,
        ;
    }
}

proof fn lemma_one_more(r: int, p: int, t: int, sum: int, ee: int, n: int, u: int)
    requires
        u >= 0,
        0 <= n < 64,
        apart(r, p + t) * 0x20_0000_0000_0000 <= (n * 0x400_0080_0006 + 0x400_0080_0005) * u,
        r <= (n * 0x400_0080_0006 + 0x400_0080_0005 + 1) * u,
        apart(p * u, sum) <= n * (u * u),
        apart(t * u, ee) * 8 <= u * u,
    ensures
        r <= (n + 1) * 0x400_0080_0006 * u,
        apart(r * u, sum + ee) <= (n + 1) * (u * u),
{
    let q: int = 0x20_0000_0000_0000;
    let uu = u * u;
    let b = n * 0x400_0080_0006 + 0x400_0080_0005;
    assert((n + 1) * 0x400_0080_0006 == b + 1);
    assert(b <= 0x1_1000_0000_0000);
    let d = apart(r, p + t);
    assert(d * q <= 0x1_1000_0000_0000 * u) by (nonlinear_arith)
        requires
            d * q <= b * u,
            b <= 0x1_1000_0000_0000,
            u >= 0,
    ;
    assert(apart(r * u, (p + t) * u) == d * u && (p + t) * u == p * u + t * u) by (nonlinear_arith)
        requires
            d == apart(r, p + t),
            u >= 0,
    ;
    assert(d * u * q <= 0x1_1000_0000_0000 * uu) by (nonlinear_arith)
        requires
            d * q <= 0x1_1000_0000_0000 * u,
            uu == u * u,
            u >= 0,
    ;
    assert((n + 1) * uu == n * uu + uu) by (nonlinear_arith);
    assert(uu >= 0) by (nonlinear_arith)
        requires
            uu == u * u,
    ;
}

proof fn lemma_variance(sq: int, v: int, exact: int, u: int)
    requires
        u >= 0x20_0000_0000_0000,
        sq >= 0,
        sq <= 0xa000_1400_00f0 * u,
        apart(sq * u, exact) <= 40 * (u * u),
        apart(v * 40, sq) * 0x20_0000_0000_0000 <= sq + 0x280_0000_0000_0000,
    ensures
        exact <= 134560 * (u * u) ==> v * u <= (59 * u) * (59 * u),
        exact >= 148840 * (u * u) ==> (60 * u) * (60 * u) <= v * u,
{
    let uu = u * u;
    assert(uu >= 0) by (nonlinear_arith)
        requires
            uu == u * u,
    ;
    assert(apart(v * 40, sq) <= u);
    if exact <= 134560 * uu {
        assert(sq <= 134600 * u) by (nonlinear_arith)
            requires
                sq * u <= 134600 * uu,
                uu == u * u,
                u > 0,
        ;
        assert(v <= 3366 * u);
        assert(v * u <= (59 * u) * (59 * u)) by (nonlinear_arith)
            requires
                v <= 3366 * u,
                u > 0,
        ;
    }
    if exact >= 148840 * uu {
        assert(sq >= 148800 * u) by (nonlinear_arith)
            requires
                sq * u >= 148800 * uu,
                uu == u * u,
                u > 0,
        ;
        assert(v >= 3719 * u);
        assert((60 * u) * (60 * u) <= v * u) by (nonlinear_arith)
            requires
                v >= 3719 * u,
                u > 0,
        ;
    }
}

/// A full window of forty readings settles, on their mean, if their squared
/// distances from it come to at most those of forty readings 58 RPM away, and
/// does not if they come to at least those of forty readings 61 RPM away.
pub proof fn lemma_window_settles_by_its_spread(w: SteadyView, key: Seq<char>, rpm: Num)
    requires
        w.key == Some(key),
        w.readings(rpm).len() == 40,
        forall|i: int|
            0 <= i < 40 ==> (#[trigger] w.readings(rpm)[i]).finite() && w.readings(rpm)[i].steps()
                <= 0x10_0000 * unit(),
    ensures
        ({
            let s = w.readings(rpm);
            let spread = exact_squares(s, mean(s).value());
            let uu = unit() * unit();
            &&& spread <= 40 * (58 * 58) * uu ==> w.settled(key, true, rpm) == Some(mean(s))
            &&& spread >= 40 * (61 * 61) * uu ==> w.settled(key, true, rpm) is None
            &&& w.settled(key, false, rpm) is None
        }),
{
    reveal(SteadyView::settled);
    reveal(deviation);
    lemma_scales();
    lemma_pow2_pos(1074);
    let u = unit() as int;
    let s = w.readings(rpm);
    lemma_mean_is_modest(s);
    let m = mean(s);
    lemma_squares_value(s, m);
    let sq = squares(s, m);
    lemma_steps_zero(sq);
    assert(s.len() * 0x400_0080_0006 * unit() == 0xa000_1400_00f0 * u && s.len() * (unit() * unit())
        == 40 * (u * u)) by (nonlinear_arith)
        requires
            s.len() == 40,
            u == unit(),
    ;
    assert(40 * (58 * 58) * (unit() * unit()) == 134560 * (u * u) && 40 * (61 * 61) * (unit() * unit())
        == 148840 * (u * u)) by (nonlinear_arith)
        requires
            u == unit(),
    ;
    assert(sq.steps() <= reach());
    lemma_shared_out(sq, 40);
    let v = sq.over(of_int(40));
    lemma_variance(sq.value(), v.value(), exact_squares(s, m.value()), u);
    lemma_sign_of_share(sq, v);
    lemma_steps_zero(v);
    lemma2_to64();
    lemma2_to64_rest();
    let sixty = Num(STEADY_WINDOW_STDEV_MAX_RPM);
    lemma_whole(sixty, 60, 47);
    crate::order::lemma_of_int_exact(59);
    lemma_steps_zero(sixty);
    let below = of_int(59);
    lemma_steps_zero(below);
    lemma_root_side(v, sixty);
    lemma_root_side(v, below);
    lemma_compare(below, sixty);
    reveal(Num::le);
    reveal(Num::lt);
}

proof fn lemma_sign_of_share(sq: Num, v: Num)
    requires
        sq.finite() && sq.value() >= 0,
        v.finite() && v == sq.over(of_int(40)),
    ensures
        v.value() >= 0,
{
    lemma_zero();
    lemma_pow2_pos(1074);
    crate::order::lemma_of_int_exact(40);
    lemma_steps_zero(sq);
    lemma_steps_zero(v);
    reveal(Num::over);
    if sq.negative() {
        assert(sq.steps() == 0);
        assert(sq.steps() * unit() == 0) by (nonlinear_arith)
            requires
                sq.steps() == 0,
        ;
        crate::order::lemma_round_zero_over(of_int(40).steps());
    }
}

proof fn lemma_mean_is_modest(s: Seq<Num>)
    requires
        s.len() == 40,
        forall|i: int|
            0 <= i < 40 ==> (#[trigger] s[i]).finite() && s[i].steps() <= 0x10_0000 * unit(),
    ensures
        mean(s).finite() && mean(s).steps() <= 0x10_0001 * unit(),
{
    lemma_scales();
    lemma_pow2_pos(1074);
    let b = (0x10_0000 * unit()) as nat;
    assert(modest(s, b));
    crate::controller::averages::lemma_mean_is_the_sum_shared_out(s, b);
    crate::controller::averages::lemma_total_is_the_sum(s, b);
    lemma_steps_zero(mean(s));
    let g = crate::precision::grain(128 * b as int);
    let u = unit() as int;
    assert(s.len() * b == 40 * b && 2 * s.len() * g == 80 * g) by (nonlinear_arith)
        requires
            s.len() == 40,
    ;
    let v = mean(s).value();
    assert(v * s.len() == v * 40) by (nonlinear_arith)
        requires
            s.len() == 40,
    ;
    assert(128 * b == 0x800_0000 * u);
    assert(g <= u / 0x400_0000 + 2);
    let sum = crate::controller::averages::exact_sum(s);
    assert(apart(sum, 0) <= 40 * b);
    assert(apart(v * s.len(), sum) <= 2 * s.len() * g + 2 * g);
    assert(2 * s.len() * g + 2 * g == 82 * g) by (nonlinear_arith)
        requires
            s.len() == 40,
    ;
    assert(apart(v * 40, sum) <= 82 * g);
    assert(82 * g <= u);
    assert(40 * b == 0x280_0000 * u);
    assert(apart(v * 40, 0) <= 0x280_0001 * u);
    assert(apart(v, 0) <= 0x10_0001 * u);
    assert(mean(s).steps() == apart(v, 0));
}

} // verus!
