//! That the split of a budget spends all of it: no watt is left unspent
//! between the floors and the ceilings, up to rounding.

use crate::allocator::{
    above_floors, cpu_score, gpu_pinned, gpu_score, lemma_rates, lemma_split_meets_floors, limited,
    on_grid, proper, rejected, settled, share_of, shares, split, wanted, AllocInput, Allocator,
    Demand, CPU_PINNED_MARGIN_W, DOWN_RATE_W, GPU_PINNED_MARGIN_MHZ, GPU_PINNED_UTIL_PCT,
    GRID_STEP_W, HALF, PERCENT, UP_RATE_W,
};
use crate::grid::lemma_gridded_value;
use crate::num::{lemma_order_is_numeric, unit, Num, ONE, ZERO};
use crate::order::{
    lemma_one, lemma_over_share, lemma_plus_grows, lemma_steps_zero, lemma_times_share,
};
use crate::precision::{
    apart, grain, lemma_minus_error, lemma_over_error, lemma_plus_error, lemma_times_error, reach,
};
use crate::types::Sample;
use crate::values::lemma_difference_side;
use vstd::arithmetic::power2::{lemma2_to64_rest, lemma_pow2_adds, lemma_pow2_pos, pow2};
use vstd::prelude::*;

verus! {

/// The lesser of two values.
pub open spec fn low(a: int, b: int) -> int {
    if a <= b {
        a
    } else {
        b
    }
}

/// The greater of two values.
pub open spec fn high(a: int, b: int) -> int {
    if a >= b {
        a
    } else {
        b
    }
}

/// What there is to spend: the budget, raised to the floors and cut to the
/// ceilings.
pub open spec fn spendable(
    budget: Num,
    cpu_floor: Num,
    gpu_floor: Num,
    cpu_max: Num,
    gpu_max: Num,
) -> int {
    low(
        high(budget.value(), cpu_floor.value() + gpu_floor.value()),
        cpu_max.value() + gpu_max.value(),
    )
}

/// One in steps is far from the ends of the range.
pub proof fn lemma_scales()
    ensures
        unit() >= 0x20_0000_0000_0000,
        reach() >= 0x20_0000_0000_0000 * unit(),
{
    reveal(reach);
    lemma2_to64_rest();
    lemma_pow2_adds(53, 1021);
    lemma_pow2_pos(1021);
    lemma_pow2_adds(53, 1074);
    vstd::arithmetic::power2::lemma_pow2_strictly_increases(53 + 1074, 1980);
    assert(pow2(53) * pow2(1021) >= pow2(53)) by (nonlinear_arith)
        requires
            pow2(1021) >= 1,
            pow2(53) >= 0,
    ;
}

/// The lesser and the greater number have the lesser and the greater value.
pub proof fn lemma_lesser_value(a: Num, b: Num)
    requires
        a.finite(),
        b.finite(),
    ensures
        a.lesser(b).finite(),
        a.lesser(b).value() == low(a.value(), b.value()),
        a.greater(b).finite(),
        a.greater(b).value() == high(a.value(), b.value()),
{
    reveal(Num::lesser);
    reveal(Num::greater);
    lemma_order_is_numeric(a, b);
    lemma_order_is_numeric(b, a);
}

proof fn lemma_zero_value()
    ensures
        Num(ZERO).finite(),
        Num(ZERO).value() == 0,
{
    lemma_steps_zero(Num(ZERO));
}

/// Quotients by a common sum add up to one.
proof fn lemma_quotients(p: int, q: int, s: int, f: int, g: int, u: int)
    requires
        0 <= p,
        0 <= q,
        0 < s,
        u >= 0x20_0000_0000_0000,
        apart(s, p + q) * 0x20_0000_0000_0000 <= p + q,
        apart(f * s, p * u) * 0x20_0000_0000_0000 <= p * u + s * 0x10_0000_0000_0000,
        apart(g * s, q * u) * 0x20_0000_0000_0000 <= q * u + s * 0x10_0000_0000_0000,
    ensures
        apart(f + g, u) * 0x4_0000_0000_0000 <= u,
{
    let k: int = 0x20_0000_0000_0000;
    assert((f + g) * s == f * s + g * s) by (nonlinear_arith);
    assert((p + q) * u == p * u + q * u) by (nonlinear_arith);
    assert(p + q <= 2 * s);
    assert((p + q) * u <= 2 * (s * u)) by (nonlinear_arith)
        requires
            p + q <= 2 * s,
            u >= 0,
    ;
    let d = apart(s, p + q);
    assert(apart(s * u, (p + q) * u) == d * u) by (nonlinear_arith)
        requires
            d == apart(s, p + q),
            u >= 0,
    ;
    assert(d * u * k <= (p + q) * u) by (nonlinear_arith)
        requires
            d * k <= p + q,
            u >= 0,
    ;
    assert(apart((f + g) * s, s * u) * k <= 4 * (s * u) + s * k);
    let e = apart(f + g, u);
    assert(apart((f + g) * s, s * u) == e * s) by (nonlinear_arith)
        requires
            e == apart(f + g, u),
            s > 0,
    ;
    assert(e * k <= 4 * u + k) by (nonlinear_arith)
        requires
            e * s * k <= 4 * (s * u) + s * k,
            s > 0,
    ;
}

/// Both shares lie between nothing and everything, and add up to everything
/// but for rounding.
proof fn lemma_shares_add_up(d: Demand)
    requires
        proper(d),
    ensures
        ({
            let (f, g) = shares(d);
            &&& Num(ZERO).le(f) && f.le(Num(ONE)) && f.finite()
            &&& Num(ZERO).le(g) && g.le(Num(ONE)) && g.finite()
            &&& 0 <= f.value() <= unit()
            &&& 0 <= g.value() <= unit()
            &&& apart(f.value() + g.value(), unit() as int) * 0x4_0000_0000_0000 <= unit()
        }),
{
    reveal(shares);
    lemma_scales();
    lemma_one();
    lemma_zero_value();
    let (p, q) = (d.cpu_starved, d.gpu_starved);
    let one = Num(ONE);
    let zero = Num(ZERO);
    assert(p.finite() && q.finite()) by {
        reveal(Num::le);
    }
    lemma_order_is_numeric(zero, p);
    lemma_order_is_numeric(zero, q);
    lemma_order_is_numeric(p, one);
    lemma_order_is_numeric(q, one);
    let u = unit();
    lemma_plus_error(p, q);
    let s = p.plus(q);
    lemma_order_is_numeric(zero, s);
    let (f, g) = shares(d);
    if zero.lt(s) {
        lemma_plus_grows(p, q);
        crate::order::lemma_plus_commutes(p, q);
        lemma_plus_grows(q, p);
        lemma_over_share(p, s);
        lemma_over_share(q, s);
        lemma_order_is_numeric(p, s);
        lemma_order_is_numeric(q, s);
        assert(p.steps() * u <= reach() * s.steps()) by (nonlinear_arith)
            requires
                p.steps() <= s.steps(),
                u <= reach(),
        ;
        assert(q.steps() * u <= reach() * s.steps()) by (nonlinear_arith)
            requires
                q.steps() <= s.steps(),
                u <= reach(),
        ;
        lemma_over_error(p, s);
        lemma_over_error(q, s);
        lemma_quotients(p.value(), q.value(), s.value(), f.value(), g.value(), u as int);
    } else {
        lemma_half();
    }
    lemma_order_is_numeric(zero, f);
    lemma_order_is_numeric(zero, g);
    lemma_order_is_numeric(f, one);
    lemma_order_is_numeric(g, one);
}

proof fn lemma_half()
    ensures
        Num(HALF).finite(),
        2 * Num(HALF).value() == unit(),
{
    let half = Num(HALF);
    lemma2_to64_rest();
    lemma_pow2_adds(52, 1021);
    vstd::arithmetic::power2::lemma_pow2_unfold(1074);
    assert(half.significand() == 0x10_0000_0000_0000);
    assert(half.exponent() == 1021);
    assert(half.steps() == pow2(52) * pow2(1021));
}

/// The parts of what is above the floors add up to it.
proof fn lemma_parts_add_up(rest: int, f: int, g: int, p: int, q: int, u: int)
    requires
        0 <= rest,
        0 <= f <= u,
        0 <= g <= u,
        u > 0,
        apart(f + g, u) * 0x4_0000_0000_0000 <= u,
        apart(p * u, rest * f) * 0x20_0000_0000_0000 <= rest * f + u * 0x10_0000_0000_0000,
        apart(q * u, rest * g) * 0x20_0000_0000_0000 <= rest * g + u * 0x10_0000_0000_0000,
    ensures
        apart(p + q, rest) * 0x20_0000_0000_0000 <= 10 * rest + 0x20_0000_0000_0000,
{
    let k: int = 0x20_0000_0000_0000;
    assert((p + q) * u == p * u + q * u) by (nonlinear_arith);
    assert(rest * (f + g) == rest * f + rest * g) by (nonlinear_arith);
    assert(rest * f + rest * g <= 2 * (rest * u)) by (nonlinear_arith)
        requires
            0 <= rest,
            f <= u,
            g <= u,
    ;
    let e = apart(f + g, u);
    assert(apart(rest * (f + g), rest * u) == rest * e) by (nonlinear_arith)
        requires
            e == apart(f + g, u),
            rest >= 0,
    ;
    assert(rest * e * k <= 8 * (rest * u)) by (nonlinear_arith)
        requires
            e * 0x4_0000_0000_0000 <= u,
            rest >= 0,
            k == 8 * 0x4_0000_0000_0000,
    ;
    assert(apart((p + q) * u, rest * u) * k <= 10 * (rest * u) + u * k);
    let d = apart(p + q, rest);
    assert(apart((p + q) * u, rest * u) == d * u) by (nonlinear_arith)
        requires
            d == apart(p + q, rest),
            u > 0,
    ;
    assert(d * k <= 10 * rest + k) by (nonlinear_arith)
        requires
            d * u * k <= 10 * (rest * u) + u * k,
            u > 0,
    ;
}

/// A budget's numbers are at most `b` steps large, and that is within reach.
pub open spec fn at_most(
    b: nat,
    budget: Num,
    cpu_floor: Num,
    gpu_floor: Num,
    cpu_max: Num,
    gpu_max: Num,
) -> bool {
    &&& 16 * b <= reach()
    &&& budget.finite() && budget.steps() <= b
    &&& cpu_floor.finite() && cpu_floor.steps() <= b
    &&& gpu_floor.finite() && gpu_floor.steps() <= b
    &&& cpu_max.finite() && cpu_max.steps() <= b
    &&& gpu_max.finite() && gpu_max.steps() <= b
}

/// What is above the floors, but for rounding.
proof fn lemma_rest(budget: Num, cpu_floor: Num, gpu_floor: Num, b: nat)
    requires
        at_most(b, budget, cpu_floor, gpu_floor, cpu_floor, gpu_floor),
    ensures
        ({
            let rest = above_floors(budget, cpu_floor, gpu_floor);
            let exact = high(budget.value() - cpu_floor.value() - gpu_floor.value(), 0);
            &&& rest.finite()
            &&& 0 <= rest.value() <= 5 * b
            &&& apart(rest.value(), exact) * 0x20_0000_0000_0000 <= 7 * b
        }),
{
    reveal(above_floors);
    lemma_zero_value();
    let first = budget.minus(cpu_floor);
    lemma_minus_error(budget, cpu_floor);
    lemma_minus_error(first, gpu_floor);
    lemma_lesser_value(first.minus(gpu_floor), Num(ZERO));
}

/// A share of it.
proof fn lemma_share(rest: Num, f: Num)
    requires
        rest.finite(),
        rest.value() >= 0,
        rest.steps() <= reach(),
        f.finite(),
        Num(ZERO).le(f),
        f.le(Num(ONE)),
        0 <= f.value() <= unit(),
    ensures
        rest.times(f).finite(),
        Num(ZERO).le(rest.times(f)),
        0 <= rest.times(f).value() <= rest.value(),
        apart(rest.times(f).value() * unit(), rest.value() * f.value()) * 0x20_0000_0000_0000
            <= rest.value() * f.value() + unit() * 0x10_0000_0000_0000,
{
    lemma_zero_value();
    lemma_steps_zero(rest);
    lemma_steps_zero(f);
    lemma_order_is_numeric(Num(ZERO), rest);
    crate::order::lemma_times_commutes(rest, f);
    lemma_times_share(f, rest);
    let p = rest.times(f);
    lemma_order_is_numeric(Num(ZERO), p);
    lemma_order_is_numeric(p, rest);
    assert(rest.steps() * f.steps() <= reach() * unit()) by (nonlinear_arith)
        requires
            rest.steps() <= reach(),
            f.steps() <= unit(),
    ;
    lemma_times_error(rest, f);
}

/// A floor and what comes on top.
proof fn lemma_on_top(floor: Num, p: Num, b: nat)
    requires
        16 * b <= reach(),
        floor.finite() && floor.steps() <= b,
        p.finite() && Num(ZERO).le(p) && 0 <= p.value() <= 5 * b,
    ensures
        floor.plus(p).finite(),
        floor.value() <= floor.plus(p).value() <= 7 * b,
        apart(floor.plus(p).value(), floor.value() + p.value()) * 0x20_0000_0000_0000 <= 6 * b,
{
    lemma_plus_error(floor, p);
    lemma_plus_grows(floor, p);
    lemma_order_is_numeric(floor, floor.plus(p));
}

#[verifier::rlimit(40)]
proof fn lemma_wanted_adds_up(budget: Num, d: Demand, cpu_floor: Num, gpu_floor: Num, b: nat)
    requires
        proper(d),
        at_most(b, budget, cpu_floor, gpu_floor, cpu_floor, gpu_floor),
    ensures
        ({
            let (c, g) = wanted(budget, d, cpu_floor, gpu_floor);
            let all = high(budget.value(), cpu_floor.value() + gpu_floor.value());
            &&& c.finite() && g.finite()
            &&& cpu_floor.value() <= c.value() <= 7 * b
            &&& gpu_floor.value() <= g.value() <= 7 * b
            &&& apart(c.value() + g.value(), all) * 0x20_0000_0000_0000 <= 69 * b
                + 0x20_0000_0000_0000
        }),
{
    reveal(wanted);
    lemma_pow2_pos(1074);
    let rest = above_floors(budget, cpu_floor, gpu_floor);
    lemma_rest(budget, cpu_floor, gpu_floor, b);
    let (f, g) = shares(d);
    lemma_shares_add_up(d);
    assert(rest.steps() <= reach()) by {
        lemma_steps_zero(rest);
    }
    lemma_share(rest, f);
    lemma_share(rest, g);
    let (p, q) = (rest.times(f), rest.times(g));
    lemma_parts_add_up(
        rest.value(),
        f.value(),
        g.value(),
        p.value(),
        q.value(),
        unit() as int,
    );
    lemma_on_top(cpu_floor, p, b);
    lemma_on_top(gpu_floor, q, b);
}

proof fn lemma_settled_value(raw: Num, other: Num, floor: Num, max: Num, other_max: Num, b: nat)
    requires
        16 * b <= reach(),
        raw.finite() && other.finite() && floor.finite() && max.finite() && other_max.finite(),
        floor.value() <= raw.value() <= 7 * b,
        -b <= other.value() <= 7 * b,
        -b <= floor.value() <= max.value() <= b,
        -b <= other_max.value() <= b,
    ensures
        ({
            let r = settled(raw, rejected(other, other_max), floor, max);
            let over = high(other.value() - other_max.value(), 0);
            let exact = low(low(raw.value(), max.value()) + over, max.value());
            &&& r.finite()
            &&& apart(r.value(), exact) * 0x20_0000_0000_0000 <= 18 * b
        }),
{
    reveal(settled);
    reveal(rejected);
    lemma_zero_value();
    lemma_lesser_value(other, other_max);
    let kept = other.lesser(other_max);
    lemma_minus_error(other, kept);
    let over = other.minus(kept);
    crate::order::lemma_minus_sign(kept, other);
    lemma_order_is_numeric(kept, other);
    lemma_order_is_numeric(Num(ZERO), over);
    lemma_lesser_value(raw, max);
    let own = raw.lesser(max);
    lemma_plus_error(own, over);
    let sum = own.plus(over);
    lemma_plus_grows(own, over);
    lemma_order_is_numeric(own, sum);
    lemma_lesser_value(sum, max);
    lemma_lesser_value(sum.lesser(max), floor);
}

/// No watt is left unspent: the two shares of a split add up to the budget,
/// raised to the floors and cut to the ceilings, up to the rounding of numbers
/// of this size.
pub proof fn lemma_split_spends_the_budget(
    budget: Num,
    d: Demand,
    cpu_floor: Num,
    gpu_floor: Num,
    cpu_max: Num,
    gpu_max: Num,
    b: nat,
)
    requires
        proper(d),
        at_most(b, budget, cpu_floor, gpu_floor, cpu_max, gpu_max),
        cpu_floor.le(cpu_max),
        gpu_floor.le(gpu_max),
    ensures
        ({
            let (cpu, gpu) = split(budget, d, cpu_floor, gpu_floor, cpu_max, gpu_max);
            &&& cpu.finite() && gpu.finite()
            &&& apart(
                cpu.value() + gpu.value(),
                spendable(budget, cpu_floor, gpu_floor, cpu_max, gpu_max),
            ) <= 106 * grain(b as int)
        }),
{
    reveal(split);
    lemma_wanted_adds_up(budget, d, cpu_floor, gpu_floor, b);
    let (c, g) = wanted(budget, d, cpu_floor, gpu_floor);
    lemma_order_is_numeric(cpu_floor, cpu_max);
    lemma_order_is_numeric(gpu_floor, gpu_max);
    lemma_settled_value(c, g, cpu_floor, cpu_max, gpu_max, b);
    lemma_settled_value(g, c, gpu_floor, gpu_max, cpu_max, b);
}

/// A share of what is above the floors is to it as the demand is to all demand.
proof fn lemma_in_proportion(rest: int, f: int, p: int, d: int, s: int, u: int)
    requires
        0 <= rest,
        0 <= f <= u,
        0 <= d <= s,
        0 < s,
        u >= 0x20_0000_0000_0000,
        apart(f * s, d * u) * 0x20_0000_0000_0000 <= d * u + s * 0x10_0000_0000_0000,
        apart(p * u, rest * f) * 0x20_0000_0000_0000 <= rest * f + u * 0x10_0000_0000_0000,
    ensures
        apart(p * s, rest * d) * 0x20_0000_0000_0000 <= s * (3 * rest + 0x10_0000_0000_0000),
{
    let k: int = 0x20_0000_0000_0000;
    let h: int = 0x10_0000_0000_0000;
    let su = s * u;
    let e1 = apart(f * s, d * u);
    assert(d * u <= su && s * h <= su) by (nonlinear_arith)
        requires
            0 <= d <= s,
            h <= u,
            0 < u,
            s > 0,
            su == s * u,
    ;
    assert(e1 * k <= 2 * su);
    assert(apart(rest * f * s, rest * d * u) == rest * e1) by (nonlinear_arith)
        requires
            e1 == apart(f * s, d * u),
            rest >= 0,
    ;
    assert(rest * e1 * k <= 2 * (rest * su)) by (nonlinear_arith)
        requires
            e1 * k <= 2 * su,
            rest >= 0,
    ;
    let e2 = apart(p * u, rest * f);
    assert(rest * f <= rest * u) by (nonlinear_arith)
        requires
            f <= u,
            rest >= 0,
    ;
    assert(apart(p * u * s, rest * f * s) == e2 * s) by (nonlinear_arith)
        requires
            e2 == apart(p * u, rest * f),
            s > 0,
    ;
    assert(e2 * s * k <= rest * su + su * h) by (nonlinear_arith)
        requires
            e2 * k <= rest * u + u * h,
            s > 0,
            su == s * u,
    ;
    let e = apart(p * s, rest * d);
    assert(apart(p * u * s, rest * d * u) == e * u) by (nonlinear_arith)
        requires
            e == apart(p * s, rest * d),
            u > 0,
    ;
    assert(e * u * k <= 3 * (rest * su) + su * h);
    assert(e * k <= s * (3 * rest + h)) by (nonlinear_arith)
        requires
            e * u * k <= 3 * (rest * su) + su * h,
            su == s * u,
            u > 0,
    ;
}

/// Two parts that are in proportion to their demands are so to each other.
proof fn lemma_cross_products(p: int, q: int, rest: int, x: int, y: int, s: int)
    requires
        0 <= rest,
        0 <= x,
        0 <= y,
        0 < s,
        apart(p * s, rest * x) * 0x20_0000_0000_0000 <= s * (3 * rest + 0x10_0000_0000_0000),
        apart(q * s, rest * y) * 0x20_0000_0000_0000 <= s * (3 * rest + 0x10_0000_0000_0000),
    ensures
        apart(p * y, q * x) * 0x20_0000_0000_0000 <= (x + y) * (3 * rest + 0x10_0000_0000_0000),
{
    let k: int = 0x20_0000_0000_0000;
    let m = 3 * rest + 0x10_0000_0000_0000;
    let e1 = apart(p * s, rest * x);
    let e2 = apart(q * s, rest * y);
    assert(apart(p * s * y, rest * x * y) == e1 * y) by (nonlinear_arith)
        requires
            e1 == apart(p * s, rest * x),
            y >= 0,
    ;
    assert(apart(q * s * x, rest * y * x) == e2 * x) by (nonlinear_arith)
        requires
            e2 == apart(q * s, rest * y),
            x >= 0,
    ;
    assert(rest * x * y == rest * y * x) by (nonlinear_arith);
    assert(e1 * y * k <= s * m * y) by (nonlinear_arith)
        requires
            e1 * k <= s * m,
            y >= 0,
    ;
    assert(e2 * x * k <= s * m * x) by (nonlinear_arith)
        requires
            e2 * k <= s * m,
            x >= 0,
    ;
    let e = apart(p * y, q * x);
    assert(apart(p * s * y, q * s * x) == e * s) by (nonlinear_arith)
        requires
            e == apart(p * y, q * x),
            s > 0,
    ;
    assert(s * m * y + s * m * x == s * (m * (x + y))) by (nonlinear_arith);
    assert(e * k <= (x + y) * m) by (nonlinear_arith)
        requires
            e * s * k <= s * (m * (x + y)),
            s > 0,
    ;
}

/// What each axis is given above its floor before any ceiling.
proof fn lemma_wanted_in_proportion(
    budget: Num,
    d: Demand,
    cpu_floor: Num,
    gpu_floor: Num,
    b: nat,
)
    requires
        proper(d),
        at_most(b, budget, cpu_floor, gpu_floor, cpu_floor, gpu_floor),
    ensures
        ({
            let (c, g) = wanted(budget, d, cpu_floor, gpu_floor);
            let (x, y) = (d.cpu_starved.value(), d.gpu_starved.value());
            let cross = apart(
                (c.value() - cpu_floor.value()) * y,
                (g.value() - gpu_floor.value()) * x,
            );
            &&& x + y > 0 ==> cross <= 48 * grain(b as int) * unit()
            &&& x == y ==> apart(
                c.value() - cpu_floor.value(),
                g.value() - gpu_floor.value(),
            ) <= 48 * grain(b as int)
        }),
{
    reveal(wanted);
    reveal(shares);
    lemma_scales();
    lemma_one();
    lemma_zero_value();
    lemma_pow2_pos(1074);
    let u = unit() as int;
    let k: int = 0x20_0000_0000_0000;
    let rest = above_floors(budget, cpu_floor, gpu_floor);
    lemma_rest(budget, cpu_floor, gpu_floor, b);
    let (f, g) = shares(d);
    lemma_shares_add_up(d);
    assert(rest.steps() <= reach()) by {
        lemma_steps_zero(rest);
    }
    lemma_share(rest, f);
    lemma_share(rest, g);
    let (p, q) = (rest.times(f), rest.times(g));
    lemma_on_top(cpu_floor, p, b);
    lemma_on_top(gpu_floor, q, b);
    let (dc, dg) = (d.cpu_starved, d.gpu_starved);
    assert(dc.finite() && dg.finite()) by {
        reveal(Num::le);
    }
    lemma_order_is_numeric(Num(ZERO), dc);
    lemma_order_is_numeric(Num(ZERO), dg);
    lemma_order_is_numeric(dc, Num(ONE));
    lemma_order_is_numeric(dg, Num(ONE));
    let (x, y) = (dc.value(), dg.value());
    lemma_plus_error(dc, dg);
    let s = dc.plus(dg);
    lemma_order_is_numeric(Num(ZERO), s);
    let (cv, gv) = (cpu_floor.plus(p).value(), gpu_floor.plus(q).value());
    let (c, e) = (cv - cpu_floor.value(), gv - gpu_floor.value());
    let (pv, qv, rv) = (p.value(), q.value(), rest.value());
    let n = grain(b as int);
    assert(b + k <= n * k);
    if x + y > 0 {
        assert(s.value() > 0);
        lemma_plus_grows(dc, dg);
        crate::order::lemma_plus_commutes(dc, dg);
        lemma_plus_grows(dg, dc);
        lemma_order_is_numeric(dc, s);
        lemma_order_is_numeric(dg, s);
        assert(dc.steps() * unit() <= reach() * s.steps()) by (nonlinear_arith)
            requires
                dc.steps() <= s.steps(),
                unit() <= reach(),
        ;
        assert(dg.steps() * unit() <= reach() * s.steps()) by (nonlinear_arith)
            requires
                dg.steps() <= s.steps(),
                unit() <= reach(),
        ;
        lemma_over_error(dc, s);
        lemma_over_error(dg, s);
        let sv = s.value();
        lemma_in_proportion(rv, f.value(), pv, x, sv, u);
        lemma_in_proportion(rv, g.value(), qv, y, sv, u);
        lemma_cross_products(pv, qv, rv, x, y, sv);
        assert((x + y) * (3 * rv + 0x10_0000_0000_0000) <= (2 * u) * (15 * b + k)) by (nonlinear_arith)
            requires
                0 <= x + y <= 2 * u,
                0 <= rv <= 5 * b,
                k == 0x20_0000_0000_0000,
        ;
        let near = apart(c * y, e * x);
        assert(apart(c * y, pv * y) * k <= 6 * (b * u)) by (nonlinear_arith)
            requires
                apart(c, pv) * k <= 6 * b,
                0 <= y <= u,
        ;
        assert(apart(e * x, qv * x) * k <= 6 * (b * u)) by (nonlinear_arith)
            requires
                apart(e, qv) * k <= 6 * b,
                0 <= x <= u,
        ;
        assert(near * k <= (2 * u) * (15 * b + k) + 12 * (b * u));
        assert(near <= 48 * n * u) by (nonlinear_arith)
            requires
                near * k <= (2 * u) * (15 * b + k) + 12 * (b * u),
                b + k <= n * k,
                b >= 0,
                u > 0,
                k > 0,
        ;
        if x == y {
            assert(apart(pv * y, qv * x) == apart(pv, qv) * x) by (nonlinear_arith)
                requires
                    x == y,
                    x >= 0,
            ;
            assert(apart(pv, qv) * k <= 2 * (3 * rv + 0x10_0000_0000_0000)) by (nonlinear_arith)
                requires
                    apart(pv, qv) * x * k <= (x + y) * (3 * rv + 0x10_0000_0000_0000),
                    x == y,
                    x > 0,
            ;
        }
    } else {
        assert(f == g);
        assert(pv == qv);
    }
}

/// What the two axes get above their floors is in proportion to their demands,
/// as long as neither is at its ceiling: the watts of one times the demand of
/// the other are equal, up to rounding. Equal demands, and no demand at all,
/// get equal parts.
pub proof fn lemma_split_is_in_proportion(
    budget: Num,
    d: Demand,
    cpu_floor: Num,
    gpu_floor: Num,
    cpu_max: Num,
    gpu_max: Num,
    b: nat,
)
    requires
        proper(d),
        at_most(b, budget, cpu_floor, gpu_floor, cpu_max, gpu_max),
        cpu_floor.le(cpu_max),
        gpu_floor.le(gpu_max),
        ({
            let (cpu, gpu) = split(budget, d, cpu_floor, gpu_floor, cpu_max, gpu_max);
            cpu.lt(cpu_max) && gpu.lt(gpu_max)
        }),
    ensures
        ({
            let (cpu, gpu) = split(budget, d, cpu_floor, gpu_floor, cpu_max, gpu_max);
            let (x, y) = (d.cpu_starved.value(), d.gpu_starved.value());
            let (c, g) = (cpu.value() - cpu_floor.value(), gpu.value() - gpu_floor.value());
            &&& x + y > 0 ==> apart(c * y, g * x) <= 48 * grain(b as int) * unit()
            &&& x == y ==> apart(c, g) <= 48 * grain(b as int)
        }),
{
    lemma_wanted_adds_up(budget, d, cpu_floor, gpu_floor, b);
    lemma_wanted_in_proportion(budget, d, cpu_floor, gpu_floor, b);
    let (c, g) = wanted(budget, d, cpu_floor, gpu_floor);
    let (cpu, gpu) = split(budget, d, cpu_floor, gpu_floor, cpu_max, gpu_max);
    lemma_order_is_numeric(cpu_floor, cpu_max);
    lemma_order_is_numeric(gpu_floor, gpu_max);
    lemma_untouched(c, g, cpu_floor, cpu_max, gpu_max, b);
    lemma_untouched(g, c, gpu_floor, gpu_max, cpu_max, b);
    reveal(split);
    lemma_order_is_numeric(cpu, cpu_max);
    lemma_order_is_numeric(gpu, gpu_max);
}

/// An axis that ends below its ceiling has taken nothing over and lost nothing,
/// if the other one fits too.
proof fn lemma_untouched(raw: Num, other: Num, floor: Num, max: Num, other_max: Num, b: nat)
    requires
        16 * b <= reach(),
        raw.finite() && other.finite() && floor.finite() && max.finite() && other_max.finite(),
        floor.value() <= raw.value() <= 7 * b,
        -b <= other.value() <= 7 * b,
        -b <= floor.value() <= max.value() <= b,
        -b <= other_max.value() <= b,
    ensures
        ({
            let r = settled(raw, rejected(other, other_max), floor, max);
            &&& r.finite()
            &&& low(raw.value(), max.value()) <= r.value() <= max.value()
            &&& other.value() <= other_max.value() ==> r.value() == low(raw.value(), max.value())
        }),
{
    reveal(settled);
    reveal(rejected);
    lemma_zero_value();
    lemma_lesser_value(other, other_max);
    let kept = other.lesser(other_max);
    lemma_minus_error(other, kept);
    let over = other.minus(kept);
    crate::order::lemma_minus_sign(kept, other);
    lemma_order_is_numeric(kept, other);
    lemma_order_is_numeric(Num(ZERO), over);
    lemma_lesser_value(raw, max);
    let own = raw.lesser(max);
    lemma_plus_error(own, over);
    let sum = own.plus(over);
    lemma_plus_grows(own, over);
    lemma_order_is_numeric(own, sum);
    lemma_lesser_value(sum, max);
    lemma_lesser_value(sum.lesser(max), floor);
    if other.value() <= other_max.value() {
        assert(over.value() == 0);
        crate::order::lemma_plus_exact(own, over, own);
        lemma_order_is_numeric(sum, own);
        reveal(Num::same);
    }
}

/// A ceiling only cuts: with lower ceilings than ones that neither axis
/// reaches, each axis gets what it would get without them, up to its own, and
/// more only if the other axis is cut.
pub proof fn lemma_ceilings_only_cut(
    budget: Num,
    d: Demand,
    cpu_floor: Num,
    gpu_floor: Num,
    cpu_max: Num,
    gpu_max: Num,
    cpu_wide: Num,
    gpu_wide: Num,
    b: nat,
)
    requires
        proper(d),
        at_most(b, budget, cpu_floor, gpu_floor, cpu_max, gpu_max),
        at_most(b, budget, cpu_floor, gpu_floor, cpu_wide, gpu_wide),
        cpu_floor.le(cpu_max) && cpu_floor.le(cpu_wide),
        gpu_floor.le(gpu_max) && gpu_floor.le(gpu_wide),
        ({
            let (cpu, gpu) = split(budget, d, cpu_floor, gpu_floor, cpu_wide, gpu_wide);
            cpu.lt(cpu_wide) && gpu.lt(gpu_wide)
        }),
    ensures
        ({
            let (cpu, gpu) = split(budget, d, cpu_floor, gpu_floor, cpu_max, gpu_max);
            let (c, g) = split(budget, d, cpu_floor, gpu_floor, cpu_wide, gpu_wide);
            &&& low(c.value(), cpu_max.value()) <= cpu.value() <= cpu_max.value()
            &&& low(g.value(), gpu_max.value()) <= gpu.value() <= gpu_max.value()
            &&& g.value() <= gpu_max.value() ==> cpu.value() == low(c.value(), cpu_max.value())
            &&& c.value() <= cpu_max.value() ==> gpu.value() == low(g.value(), gpu_max.value())
        }),
{
    lemma_wanted_adds_up(budget, d, cpu_floor, gpu_floor, b);
    let (c, g) = wanted(budget, d, cpu_floor, gpu_floor);
    lemma_order_is_numeric(cpu_floor, cpu_max);
    lemma_order_is_numeric(gpu_floor, gpu_max);
    lemma_order_is_numeric(cpu_floor, cpu_wide);
    lemma_order_is_numeric(gpu_floor, gpu_wide);
    lemma_untouched(c, g, cpu_floor, cpu_max, gpu_max, b);
    lemma_untouched(g, c, gpu_floor, gpu_max, cpu_max, b);
    lemma_untouched(c, g, cpu_floor, cpu_wide, gpu_wide, b);
    lemma_untouched(g, c, gpu_floor, gpu_wide, cpu_wide, b);
    reveal(split);
    let (x, y) = split(budget, d, cpu_floor, gpu_floor, cpu_wide, gpu_wide);
    lemma_order_is_numeric(x, cpu_wide);
    lemma_order_is_numeric(y, gpu_wide);
}

/// A value pulled between two others.
pub open spec fn pulled(x: int, lo: int, hi: int) -> int {
    low(high(x, lo), hi)
}

/// A number pulled between two others has the value pulled between theirs.
pub proof fn lemma_within_value(x: Num, lo: Num, hi: Num)
    requires
        x.finite() && lo.finite() && hi.finite(),
        lo.value() <= hi.value(),
    ensures
        x.within(lo, hi).finite(),
        x.within(lo, hi).value() == pulled(x.value(), lo.value(), hi.value()),
{
    reveal(Num::within);
    lemma_order_is_numeric(x, lo);
    lemma_order_is_numeric(hi, lo);
    lemma_order_is_numeric(hi, x);
}

proof fn lemma_rates_value()
    ensures
        Num(DOWN_RATE_W).finite() && Num(DOWN_RATE_W).value() == 8 * unit(),
        Num(UP_RATE_W).finite() && Num(UP_RATE_W).value() == 2 * unit(),
        Num(GRID_STEP_W).finite() && 0 < Num(GRID_STEP_W).value() <= unit(),
        2 * Num(GRID_STEP_W).value() == unit(),
{
    lemma2_to64_rest();
    lemma_pow2_adds(52, 1022);
    lemma_pow2_adds(52, 1023);
    lemma_pow2_adds(52, 1025);
    lemma_pow2_adds(52, 1021);
    vstd::arithmetic::power2::lemma2_to64();
    lemma_pow2_adds(1074, 1);
    lemma_pow2_adds(1074, 3);
    lemma_pow2_adds(1073, 1);
    lemma_pow2_pos(1073);
    assert(Num(DOWN_RATE_W).significand() == 0x10_0000_0000_0000);
    assert(Num(DOWN_RATE_W).exponent() == 1025);
    assert(Num(UP_RATE_W).significand() == 0x10_0000_0000_0000);
    assert(Num(UP_RATE_W).exponent() == 1023);
    assert(Num(GRID_STEP_W).significand() == 0x10_0000_0000_0000);
    assert(Num(GRID_STEP_W).exponent() == 1021);
}

/// One axis of a step goes to its share of the split, as far as eight watts
/// down or two watts up from its last command lead, but not below its floor;
/// then to the grid, which moves it by at most half a step.
proof fn lemma_limited_value(raw: Num, last: Num, floor: Num, b: nat)
    requires
        unit() <= b,
        256 * b <= reach(),
        b <= 0x800_0000 * unit(),
        raw.finite() && raw.steps() <= b,
        last.finite() && last.steps() <= b,
        floor.finite() && floor.steps() <= b,
    ensures
        ({
            let r = limited(raw, last, floor);
            let goal = high(
                pulled(raw.value(), last.value() - 8 * unit(), last.value() + 2 * unit()),
                floor.value(),
            );
            &&& r.finite()
            &&& 4 * apart(r.value(), goal) <= unit() + 1024 * grain(b as int)
        }),
{
    reveal(limited);
    reveal(on_grid);
    lemma_rates_value();
    lemma_scales();
    let (down, up) = (Num(DOWN_RATE_W), Num(UP_RATE_W));
    lemma_minus_error(last, down);
    lemma_plus_error(last, up);
    let (lo, hi) = (last.minus(down), last.plus(up));
    assert(lo.value() <= hi.value()) by {
        lemma_rates(last);
        lemma_order_is_numeric(lo, hi);
    }
    lemma_within_value(raw, lo, hi);
    let w = raw.within(lo, hi);
    lemma_steps_zero(w);
    let g = Num(GRID_STEP_W);
    lemma_gridded_value(w, g, 12 * b);
    let y = on_grid(w);
    lemma_within_value(y, lo, hi);
    lemma_lesser_value(y.within(lo, hi), floor);
    let n = grain(b as int);
    lemma_grains(b as int, g.value());
    lemma_pulled_twice(
        raw.value(),
        lo.value(),
        hi.value(),
        last.value() - 8 * unit(),
        last.value() + 2 * unit(),
        y.value(),
        floor.value(),
        16 * n,
        g.value() + 208 * n,
    );
}

proof fn lemma_grains(b: int, g: int)
    requires
        0 <= g <= b,
    ensures
        grain(12 * b + g) <= 13 * grain(b),
        10 * b <= 10 * grain(b) * 0x20_0000_0000_0000,
{
}

proof fn lemma_pulled_twice(
    raw: int,
    lo: int,
    hi: int,
    low_end: int,
    high_end: int,
    y: int,
    floor: int,
    e: int,
    m: int,
)
    requires
        lo <= hi,
        low_end <= high_end,
        apart(lo, low_end) <= e,
        apart(hi, high_end) <= e,
        2 * apart(y, pulled(raw, lo, hi)) <= m,
    ensures
        2 * apart(
            high(pulled(y, lo, hi), floor),
            high(pulled(raw, low_end, high_end), floor),
        ) <= m + 2 * e,
{
}

/// A command follows the split within the rates, above the floor and on the
/// grid, from the last command.
pub proof fn lemma_step_follows_the_split(
    a: Allocator,
    inp: AllocInput,
    cpu_last: Num,
    gpu_last: Num,
    b: nat,
)
    requires
        proper(inp.demand),
        a.last == Some((cpu_last, gpu_last)),
        cpu_last.finite() && cpu_last.steps() <= b,
        gpu_last.finite() && gpu_last.steps() <= b,
        unit() <= b <= 0x800_0000 * unit(),
        at_most(b, inp.budget_w, inp.floors, inp.gpu_floor_w, inp.cpu_max_w, inp.gpu_max_w),
        Num(ZERO).le(inp.floors) && inp.floors.le(inp.cpu_max_w),
        Num(ZERO).le(inp.gpu_floor_w) && inp.gpu_floor_w.le(inp.gpu_max_w),
    ensures
        ({
            let (cpu, gpu) = split(
                inp.budget_w,
                inp.demand,
                inp.floors,
                inp.gpu_floor_w,
                inp.cpu_max_w,
                inp.gpu_max_w,
            );
            let (c, g) = a.stepped(inp);
            let u = unit() as int;
            let slack = u + 1024 * grain(b as int);
            let cpu_goal = pulled(cpu.value(), cpu_last.value() - 8 * u, cpu_last.value() + 2 * u);
            let gpu_goal = pulled(gpu.value(), gpu_last.value() - 8 * u, gpu_last.value() + 2 * u);
            &&& c.finite() && g.finite()
            &&& 4 * apart(c.value(), high(cpu_goal, inp.floors.value())) <= slack
            &&& 4 * apart(g.value(), high(gpu_goal, inp.gpu_floor_w.value())) <= slack
        }),
{
    reveal(Allocator::stepped);
    lemma_scales();
    assert(256 * b <= reach());
    let (budget, d) = (inp.budget_w, inp.demand);
    let (cf, gf, cm, gm) = (inp.floors, inp.gpu_floor_w, inp.cpu_max_w, inp.gpu_max_w);
    assert(cf.within(Num(ZERO), cm) == cf && gf.within(Num(ZERO), gm) == gf) by {
        reveal(Num::within);
        reveal(Num::le);
        reveal(Num::lt);
    }
    lemma_split_meets_floors(budget, d, cf, gf, cm, gm);
    lemma_split_spends_the_budget(budget, d, cf, gf, cm, gm, b);
    let (x, y) = split(budget, d, cf, gf, cm, gm);
    lemma_order_is_numeric(cf, x);
    lemma_order_is_numeric(x, cm);
    lemma_order_is_numeric(gf, y);
    lemma_order_is_numeric(y, gm);
    lemma_limited_value(x, cpu_last, cf, b);
    lemma_limited_value(y, gpu_last, gf, b);
}

/// The first command goes from the floors.
pub proof fn lemma_first_step_goes_from_the_floors(a: Allocator, inp: AllocInput)
    requires
        a.last is None,
        Num(ZERO).le(inp.floors) && inp.floors.le(inp.cpu_max_w),
        Num(ZERO).le(inp.gpu_floor_w) && inp.gpu_floor_w.le(inp.gpu_max_w),
    ensures
        a.stepped(inp) == (Allocator { last: Some((inp.floors, inp.gpu_floor_w)) }).stepped(inp),
{
    reveal(Allocator::stepped);
    reveal(Num::within);
    reveal(Num::le);
    reveal(Num::lt);
}

/// A CPU that draws nearly its limit is starved altogether, and one that draws
/// less is so by the share of its limit that it draws.
pub proof fn lemma_cpu_demand_is_the_drawn_share(s: Sample, limit: Num, z: Num)
    requires
        limit.finite() && limit.value() > 0,
        s.cpu_pkg_w.finite() && s.cpu_pkg_w.value() > 0,
        limit.steps() <= reach() && s.cpu_pkg_w.steps() * unit() <= reach() * limit.steps(),
        z.finite() && Num(CPU_PINNED_MARGIN_W).value() < z.value(),
    ensures
        ({
            let r = cpu_score(s, Some(limit));
            let gap = limit.value() - s.cpu_pkg_w.value();
            &&& gap <= Num(CPU_PINNED_MARGIN_W).value() ==> r.finite() && r.value() == unit()
            &&& z.value() <= gap ==> r.finite() && apart(
                r.value() * limit.value(),
                s.cpu_pkg_w.value() * unit(),
            ) * 0x20_0000_0000_0000 <= s.cpu_pkg_w.value() * unit() + limit.value()
                * 0x10_0000_0000_0000
        }),
{
    reveal(cpu_score);
    lemma_one();
    lemma_zero_value();
    let w = s.cpu_pkg_w;
    lemma_order_is_numeric(Num(ZERO), limit);
    lemma_order_is_numeric(Num(ZERO), w);
    lemma_difference_side(limit, w, Num(CPU_PINNED_MARGIN_W));
    lemma_difference_side(limit, w, z);
    lemma_order_is_numeric(Num(CPU_PINNED_MARGIN_W), z);
    reveal(Num::le);
    reveal(Num::lt);
    lemma_over_error(w, limit);
    if w.value() < limit.value() {
        lemma_order_is_numeric(w, limit);
        lemma_over_share(w, limit);
        lemma_lesser_value(w.over(limit), Num(ONE));
        lemma_order_is_numeric(w.over(limit), Num(ONE));
    }
    assert(Num(CPU_PINNED_MARGIN_W).value() >= 0);
}

/// Without a limit or a draw, demand is the utilization: nothing from 0 % down,
/// everything from 100 % up, and its hundredth in between.
pub proof fn lemma_idle_demand_is_the_utilization(s: Sample, limit: Option<Num>)
    requires
        limit is None || !(s.cpu_pkg_w.finite() && s.cpu_pkg_w.value() > 0),
        s.cpu_util_pct.finite() && s.cpu_util_pct.steps() <= 0x1_0000_0000 * unit(),
    ensures
        ({
            let r = cpu_score(s, limit);
            let p = s.cpu_util_pct.value();
            &&& r.finite()
            &&& p <= 0 ==> r.value() == 0
            &&& p >= 100 * unit() ==> r.value() == unit()
            &&& 0 <= p <= 100 * unit() ==> apart(r.value() * 100, p) * 0x20_0000_0000_0000 <= p
                + 100 * 0x10_0000_0000_0000
        }),
{
    reveal(cpu_score);
    lemma_zero_value();
    if s.cpu_pkg_w.finite() {
        lemma_order_is_numeric(Num(ZERO), s.cpu_pkg_w);
    }
    lemma_share_of(s.cpu_util_pct);
}

proof fn lemma_share_of(pct: Num)
    requires
        pct.finite() && pct.steps() <= 0x1_0000_0000 * unit(),
    ensures
        ({
            let r = share_of(pct);
            let p = pct.value();
            &&& r.finite()
            &&& p <= 0 ==> r.value() == 0
            &&& p >= 100 * unit() ==> r.value() == unit()
            &&& 0 <= p <= 100 * unit() ==> apart(r.value() * 100, p) * 0x20_0000_0000_0000 <= p
                + 100 * 0x10_0000_0000_0000
        }),
{
    reveal(share_of);
    lemma_scales();
    lemma_one();
    lemma_zero_value();
    lemma_pow2_pos(1074);
    let u = unit() as int;
    let hundred = Num(PERCENT);
    let n = crate::num::of_int(100);
    crate::order::lemma_of_int_exact(100);
    assert(hundred.finite() && hundred.value() == 100 * u) by {
        lemma2_to64_rest();
        lemma_pow2_adds(46, 1028);
        vstd::arithmetic::power2::lemma2_to64();
        assert(hundred.significand() == 0x19_0000_0000_0000);
        assert(hundred.exponent() == 1028);
        assert(0x19_0000_0000_0000 == 100 * pow2(46));
        assert(hundred.value() == 100 * pow2(46) * pow2(1028));
        assert(100 * pow2(46) * pow2(1028) == 100 * (pow2(46) * pow2(1028))) by (nonlinear_arith);
    }
    assert(pct.steps() * unit() <= reach() * hundred.steps()) by (nonlinear_arith)
        requires
            pct.steps() <= 0x1_0000_0000 * unit(),
            hundred.steps() == 100 * unit(),
            0x1_0000_0000 * unit() <= reach(),
    ;
    lemma_over_error(pct, hundred);
    let q = pct.over(hundred);
    let (qv, p) = (q.value(), pct.value());
    let e = apart(qv * 100, p);
    assert(apart(qv * (100 * u), p * u) == e * u) by (nonlinear_arith)
        requires
            e == apart(qv * 100, p),
            u > 0,
    ;
    let z = apart(p, 0);
    assert(pct.steps() == z);
    assert(e * 0x20_0000_0000_0000 <= z + 100 * 0x10_0000_0000_0000) by (nonlinear_arith)
        requires
            e * u * 0x20_0000_0000_0000 <= z * u + (100 * u) * 0x10_0000_0000_0000,
            u > 0,
    ;
    lemma_within_value(q, Num(ZERO), Num(ONE));
    lemma_order_is_numeric(Num(ZERO), hundred);
    if p >= 0 {
        lemma_order_is_numeric(Num(ZERO), pct);
        if p <= 100 * u {
            lemma_order_is_numeric(pct, hundred);
            lemma_over_share(pct, hundred);
            lemma_order_is_numeric(Num(ZERO), q);
            lemma_order_is_numeric(q, Num(ONE));
        }
    }
    if p <= 0 {
        assert(qv <= 0) by {
            reveal(Num::over);
            lemma_steps_zero(pct);
            if !q.negative() {
                assert(pct.steps() == 0);
                assert(pct.steps() * unit() == 0) by (nonlinear_arith)
                    requires
                        pct.steps() == 0,
                ;
                crate::order::lemma_round_zero_over(hundred.steps());
                lemma_steps_zero(q);
            }
        }
    }
    if p >= 100 * u {
        assert(qv >= u) by {
            lemma_order_is_numeric(hundred, pct);
            crate::order::lemma_over_monotone(hundred, pct, hundred);
            lemma_whole_over(hundred);
            lemma_order_is_numeric(hundred.over(hundred), q);
        }
    }
}

proof fn lemma_whole_over(x: Num)
    requires
        x.finite() && x.value() > 0,
    ensures
        x.over(x).finite(),
        x.over(x).value() == unit(),
{
    reveal(Num::over);
    lemma_steps_zero(x);
    lemma_one();
    crate::order::lemma_round_cancel(unit(), x.steps());
    assert(x.steps() * unit() == unit() * x.steps()) by (nonlinear_arith);
    crate::order::lemma_round_exact(Num(ONE));
}

/// A busy GPU whose clock is within 30 MHz of its limit is starved altogether.
/// Any other is so by the share of its target that it draws, at most all of it
/// and never less than nothing; without a target or a reading, by its
/// utilization. `z` is any number above 30.
pub proof fn lemma_gpu_demand_is_the_drawn_share(
    s: Sample,
    target: Option<Num>,
    max_mhz: Option<u32>,
    z: Num,
)
    requires
        s.gpu_sm_mhz.finite() && s.gpu_util_pct.finite() && s.gpu_w.finite(),
        s.gpu_util_pct.steps() <= 0x1_0000_0000 * unit(),
        z.finite() && 30 * unit() < z.value(),
        target is Some ==> target->0.finite() && s.gpu_w.steps() * unit() <= reach()
            * target->0.steps(),
    ensures
        ({
            let r = gpu_score(s, target, max_mhz);
            let gap = max_mhz->0 * unit() - s.gpu_sm_mhz.value();
            let (p, w, t) = (s.gpu_util_pct.value(), s.gpu_w.value(), target->0.value());
            let pinned = max_mhz is Some && s.gpu_mhz_valid && p > 90 * unit() && gap <= 30 * unit();
            let free = max_mhz is None || !s.gpu_mhz_valid || p <= 90 * unit() || gap >= z.value();
            let told = target is Some && t > 0 && s.gpu_w_valid;
            &&& r.finite()
            &&& pinned ==> r.value() == unit()
            &&& free && told ==> apart(r.value() * t, pulled(w, 0, t) * unit())
                * 0x20_0000_0000_0000 <= s.gpu_w.steps() * unit() + t * 0x10_0000_0000_0000
            &&& free && !told ==> {
                &&& p <= 0 ==> r.value() == 0
                &&& p >= 100 * unit() ==> r.value() == unit()
                &&& 0 <= p <= 100 * unit() ==> apart(r.value() * 100, p) * 0x20_0000_0000_0000 <= p
                    + 100 * 0x10_0000_0000_0000
            }
        }),
{
    reveal(gpu_score);
    reveal(gpu_pinned);
    lemma_one();
    lemma_zero_value();
    lemma_pow2_pos(1074);
    lemma2_to64_rest();
    vstd::arithmetic::power2::lemma2_to64();
    let (margin, busy) = (Num(GPU_PINNED_MARGIN_MHZ), Num(GPU_PINNED_UTIL_PCT));
    crate::values::lemma_whole(margin, 30, 48);
    crate::values::lemma_whole(busy, 90, 46);
    lemma_order_is_numeric(busy, s.gpu_util_pct);
    lemma_order_is_numeric(margin, z);
    if let Some(m) = max_mhz {
        crate::order::lemma_of_int_exact(m as nat);
        let top = crate::num::of_int(m as nat);
        lemma_difference_side(top, s.gpu_sm_mhz, margin);
        lemma_difference_side(top, s.gpu_sm_mhz, z);
    }
    reveal(Num::le);
    reveal(Num::lt);
    lemma_share_of(s.gpu_util_pct);
    if let Some(t) = target {
        lemma_order_is_numeric(Num(ZERO), t);
        if t.value() > 0 {
            lemma_drawn_share(s.gpu_w, t);
        }
    }
}

proof fn lemma_drawn_share(w: Num, t: Num)
    requires
        w.finite() && t.finite() && t.value() > 0,
        w.steps() * unit() <= reach() * t.steps(),
    ensures
        ({
            let r = w.over(t).within(Num(ZERO), Num(ONE));
            &&& r.finite()
            &&& apart(r.value() * t.value(), pulled(w.value(), 0, t.value()) * unit())
                * 0x20_0000_0000_0000 <= w.steps() * unit() + t.value() * 0x10_0000_0000_0000
        }),
{
    lemma_one();
    lemma_zero_value();
    lemma_pow2_pos(1074);
    crate::order::lemma_steps_zero(t);
    crate::order::lemma_steps_zero(Num(ONE));
    let u = unit() as int;
    lemma_over_error(w, t);
    let q = w.over(t);
    lemma_within_value(q, Num(ZERO), Num(ONE));
    let (qv, tv, wv) = (q.value(), t.value(), w.value());
    let tu = tv * u;
    assert(tu > 0) by (nonlinear_arith)
        requires
            tu == tv * u,
            tv > 0,
            u > 0,
    ;
    assert((qv < 0 ==> qv * tv < 0) && (qv >= 0 ==> qv * tv >= 0) && (qv <= u ==> qv * tv <= u * tv)
        && (qv > u ==> qv * tv > u * tv) && 0 * tv == 0 && u * tv == tu) by (nonlinear_arith)
        requires
            tv > 0,
            tu == tv * u,
    ;
    assert((wv < 0 ==> wv * u < 0) && (wv >= 0 ==> wv * u >= 0) && (wv <= tv ==> wv * u <= tv * u)
        && (wv > tv ==> wv * u > tv * u) && 0 * u == 0) by (nonlinear_arith)
        requires
            u > 0,
    ;
    assert(pulled(qv, 0, u) * tv == pulled(qv * tv, 0, tu));
    assert(pulled(wv, 0, tv) * u == pulled(wv * u, 0, tu));
    assert(apart(pulled(qv * tv, 0, tu), pulled(wv * u, 0, tu)) <= apart(qv * tv, wv * u));
}

} // verus!
