//! That the default gains are those of internal-model tuning.

use crate::device_loop::{
    imc_gains, DeviceUnit, Mhz, Plant, LAMBDA_DELAYS, MIN_LAMBDA_S, W,
};
use crate::num::{of_int, unit, Num, TWO};
use crate::order::{lemma_of_int_exact, lemma_steps_zero};
use crate::precision::reach;
use crate::relative::{
    about, lemma_about_back, lemma_about_chain, lemma_about_over, lemma_about_plus,
    lemma_about_scaled, lemma_about_sum, lemma_about_times, lemma_vast, vast,
};
use crate::spending::{high, lemma_scales};
use vstd::arithmetic::power2::{lemma2_to64, lemma2_to64_rest, lemma_pow2_adds, lemma_pow2_pos, pow2};
use vstd::prelude::*;

verus! {

/// A plant whose constants are positive and of an ordinary size: between two
/// to the -40th and two to the 40th power.
pub open spec fn ordinary(x: Num) -> bool {
    &&& x.finite()
    &&& unit() <= x.value() * 0x100_0000_0000
    &&& x.value() <= 0x100_0000_0000 * unit()
}

/// Its time constant, gain and delay are.
pub open spec fn ordinary_plant(p: Plant) -> bool {
    ordinary(p.tau_s) && ordinary(p.plant_gain) && ordinary(p.base_delay_s)
}

/// Twice the delay that a loop sees: the plant's, and half of the moving
/// average's interval.
pub open spec fn twice_delay(p: Plant, ma_interval: u32) -> int {
    2 * p.base_delay_s.value() + ma_interval * unit()
}

/// Twice the closed-loop time constant: three delays, but at least 90 s.
pub open spec fn twice_lambda(p: Plant, ma_interval: u32) -> int {
    high(180 * unit() as int, 3 * twice_delay(p, ma_interval))
}

/// The values of small numbers.
pub proof fn lemma_small_numbers()
    ensures
        Num(TWO).finite() && Num(TWO).value() == 2 * unit(),
        Num(MIN_LAMBDA_S).finite() && Num(MIN_LAMBDA_S).value() == 90 * unit(),
        Num(LAMBDA_DELAYS).finite() && Num(LAMBDA_DELAYS).value() == 3 * unit(),
{
    lemma2_to64();
    lemma2_to64_rest();
    lemma_pow2_adds(52, 1022);
    lemma_pow2_adds(52, 1023);
    lemma_pow2_adds(1074, 1);
    assert(Num(TWO).significand() == 0x10_0000_0000_0000);
    assert(Num(TWO).exponent() == 1023);
    lemma_pow2_adds(46, 1028);
    let p = pow2(1028);
    assert(Num(MIN_LAMBDA_S).significand() == 0x16_8000_0000_0000);
    assert(Num(MIN_LAMBDA_S).exponent() == 1028);
    assert(0x16_8000_0000_0000 * p == 90 * (0x4000_0000_0000 * p)) by (nonlinear_arith);
    lemma_pow2_adds(51, 1023);
    let q = pow2(1023);
    assert(Num(LAMBDA_DELAYS).significand() == 0x18_0000_0000_0000);
    assert(Num(LAMBDA_DELAYS).exponent() == 1023);
    assert(0x18_0000_0000_0000 * q == 3 * (0x8_0000_0000_0000 * q)) by (nonlinear_arith);
}

/// The delay is near the exact one.
proof fn lemma_delay(p: Plant, ma_interval: u32)
    requires
        ordinary_plant(p),
    ensures
        ({
            let theta = p.base_delay_s.plus(of_int(ma_interval as nat).over(Num(TWO)));
            &&& theta.finite()
            &&& theta.value() > 0
            &&& about(2 * theta.value(), twice_delay(p, ma_interval), 4)
        }),
{
    lemma_small_numbers();
    lemma_scales();
    lemma_vast();
    lemma_pow2_pos(1074);
    let u = unit() as int;
    let n = of_int(ma_interval as nat);
    lemma_of_int_exact(ma_interval as nat);
    let half = n.over(Num(TWO));
    let base = p.base_delay_s.value();
    let ma = ma_interval as int;
    assert(0 <= ma * u <= 0x1_0000_0000 * u) by (nonlinear_arith)
        requires
            0 <= ma <= 0x1_0000_0000,
            u > 0,
    ;
    if ma > 0 {
        assert((2 * u) * 0x10_0000_0000_0000 <= (ma * u) * u) by (nonlinear_arith)
            requires
                ma >= 1,
                u >= 0x20_0000_0000_0000,
        ;
        assert((ma * u) * u <= reach() * (2 * u)) by (nonlinear_arith)
            requires
                ma * u <= 0x1_0000_0000 * u,
                0x20_0000_0000_0000 * u <= reach(),
                u > 0,
        ;
        assert(ma * u > 0) by (nonlinear_arith)
            requires
                ma >= 1,
                u > 0,
        ;
        lemma_about_over(n, Num(TWO));
        let h = half.value();
        assert(about(2 * h, ma * u, 1)) by {
            let d = crate::precision::apart(2 * h, ma * u);
            assert(crate::precision::apart(h * (2 * u), (ma * u) * u) == d * u) by (nonlinear_arith)
                requires
                    d == crate::precision::apart(2 * h, ma * u),
                    u > 0,
            ;
            assert(d * 0x4_0000_0000_0000 <= ma * u) by (nonlinear_arith)
                requires
                    d * u * 0x4_0000_0000_0000 <= 1 * ((ma * u) * u),
                    u > 0,
            ;
        }
        lemma_about_sum(2 * base, 2 * base, 2 * h, ma * u, 1);
        lemma_about_plus(p.base_delay_s, half);
        let theta = p.base_delay_s.plus(half).value();
        lemma_about_scaled(theta, base + h, 2, 1);
        lemma_about_chain(2 * theta, 2 * base + 2 * h, 2 * base + ma * u, 1, 1);
        lemma_about_back(2 * theta, 2 * base + ma * u, 3);
    } else {
        assert(half.finite() && half.value() == 0) by {
            reveal(Num::over);
            lemma_steps_zero(n);
            assert(n.steps() == 0) by (nonlinear_arith)
                requires
                    n.steps() == ma * u,
                    ma == 0,
            ;
            assert(n.steps() * unit() == 0) by (nonlinear_arith)
                requires
                    n.steps() == 0,
            ;
            crate::order::lemma_round_zero_over(Num(TWO).steps());
            lemma_steps_zero(half);
        }
        lemma_about_plus(p.base_delay_s, half);
        let theta = p.base_delay_s.plus(half).value();
        lemma_about_back(theta, base, 1);
        assert(ma * u == 0) by (nonlinear_arith)
            requires
                ma == 0,
        ;
    }
}

/// The default gains of a plant: the gain times the plant's gain times the
/// closed-loop time constant and the delay is the plant's time constant, which
/// is also the integral time. The closed-loop time constant is three delays,
/// and never below 90 s, whatever the moving average's interval is.
pub proof fn lemma_default_gains_are_tuned(p: Plant, ma_interval: u32)
    requires
        ordinary_plant(p),
    ensures
        ({
            let g = imc_gains(p, ma_interval);
            &&& g.ti_s == p.tau_s
            &&& g.kc.finite()
            &&& g.kc.value() > 0
            &&& about(
                g.kc.value() * p.plant_gain.value() * (twice_lambda(p, ma_interval) + twice_delay(
                    p,
                    ma_interval,
                )),
                2 * p.tau_s.value() * unit() * unit(),
                40,
            )
        }),
{
    lemma_small_numbers();
    lemma_scales();
    lemma_vast();
    lemma_pow2_pos(1074);
    let u = unit() as int;
    let theta = p.base_delay_s.plus(of_int(ma_interval as nat).over(Num(TWO)));
    lemma_delay(p, ma_interval);
    let t = theta.value();
    let t2 = twice_delay(p, ma_interval);
    let ma = ma_interval as int;
    assert(0 <= ma * u <= 0x1_0000_0000 * u) by (nonlinear_arith)
        requires
            0 <= ma <= 0x1_0000_0000,
            u > 0,
    ;
    lemma_about_back(2 * t, t2, 4);
    let small: int = 0x100_0000_0000;
    assert(u <= t * (2 * small) && t <= (2 * small) * u);
    // Three delays.
    assert(u * 0x10_0000_0000_0000 <= (3 * u) * t) by (nonlinear_arith)
        requires
            u <= t * (2 * small),
            small == 0x100_0000_0000,
            u >= 0x1_0000_0000_0000_0000_0000_0000_0000,
    ;
    assert((3 * u) * t <= reach() * u) by (nonlinear_arith)
        requires
            t <= (2 * small) * u,
            small == 0x100_0000_0000,
            0x20_0000_0000_0000 * u <= reach(),
            u > 0,
    ;
    let delays = Num(LAMBDA_DELAYS).times(theta);
    lemma_about_times(Num(LAMBDA_DELAYS), theta);
    let d = delays.value();
    assert(about(2 * d, 3 * (2 * t), 1)) by {
        assert((3 * u) * t == (3 * t) * u) by (nonlinear_arith);
        lemma_cancel(d, 3 * t, u, 1);
        lemma_about_scaled(d, 3 * t, 2, 1);
    }
    lemma_about_scaled(2 * t, t2, 3, 4);
    lemma_about_chain(2 * d, 3 * (2 * t), 3 * t2, 1, 4);
    // The closed-loop time constant.
    let lambda = Num(MIN_LAMBDA_S).greater(delays);
    crate::spending::lemma_lesser_value(Num(MIN_LAMBDA_S), delays);
    let l = lambda.value();
    let l2 = twice_lambda(p, ma_interval);
    assert(2 * l == high(180 * u, 2 * d));
    lemma_about_high(180 * u, 180 * u, 2 * d, 3 * t2, 6);
    assert(about(2 * l, l2, 6));
    lemma_about_more(2 * t, t2, 4, 6);
    lemma_about_sum(2 * l, l2, 2 * t, t2, 6);
    lemma_about_back(2 * l, l2, 6);
    // Both together.
    lemma_about_plus(lambda, theta);
    let all = lambda.plus(theta);
    let a = all.value();
    lemma_about_scaled(a, l + t, 2, 1);
    lemma_about_chain(2 * a, 2 * l + 2 * t, l2 + t2, 1, 6);
    lemma_about_back(2 * a, l2 + t2, 8);
    // Against the plant's gain.
    let gain = p.plant_gain.value();
    assert(t2 <= 0x300_0000_0000 * u);
    assert(45 * u <= a && a <= 0x2000_0000_0000 * u);
    assert(0x2000_0000_0000 * u == (32 * small) * u) by (nonlinear_arith)
        requires
            small == 0x100_0000_0000,
    ;
    assert(u * 0x10_0000_0000_0000 <= gain * a && gain * a <= reach() * u && gain * a <= (small * (
    32 * small)) * (u * u) && u * u <= (gain * a) * (2 * small)) by {
        lemma_product_size(gain, a, u, small, 32 * small);
    }
    let den = p.plant_gain.times(all);
    lemma_about_times(p.plant_gain, all);
    let m = den.value();
    lemma_about_back(m * u, gain * a, 1);
    let tau = p.tau_s.value();
    assert(m > 0) by (nonlinear_arith)
        requires
            m * u > 0,
            u > 0,
    ;
    assert(m * 0x10_0000_0000_0000 <= tau * u && tau * u <= reach() * m) by {
        lemma_quotient_size(tau, m, gain * a, u, small);
    }
    lemma_about_over(p.tau_s, den);
    let kc = imc_gains(p, ma_interval).kc;
    let k = kc.value();
    lemma_about_back(k * m, tau * u, 1);
    assert(k > 0) by (nonlinear_arith)
        requires
            k * m > 0,
            m > 0,
    ;
    // All of it.
    lemma_about_scaled(k * m, tau * u, u, 1);
    lemma_about_back(m * u, gain * a, 1);
    lemma_about_scaled(gain * a, m * u, k, 2);
    assert(gain * a * k == k * gain * a && m * u * k == k * m * u) by (nonlinear_arith);
    lemma_about_chain(k * gain * a, k * m * u, tau * u * u, 2, 1);
    assert(k * gain > 0) by (nonlinear_arith)
        requires
            k > 0,
            gain > 0,
    ;
    lemma_about_scaled(l2 + t2, 2 * a, k * gain, 9);
    let total = l2 + t2;
    assert(total * (k * gain) == k * gain * total && 2 * a * (k * gain) == 2 * (k * gain * a))
        by (nonlinear_arith);
    lemma_about_scaled(k * gain * a, tau * u * u, 2, 4);
    assert(k * gain * a * 2 == 2 * (k * gain * a) && tau * u * u * 2 == 2 * tau * u * u)
        by (nonlinear_arith);
    lemma_about_chain(k * gain * total, 2 * (k * gain * a), 2 * tau * u * u, 9, 4);
    lemma_about_more(k * gain * total, 2 * tau * u * u, 14, 40);
}

proof fn lemma_product_size(gain: int, a: int, u: int, small: int, wide: int)
    requires
        small == 0x100_0000_0000,
        wide == 32 * small,
        u >= vast(),
        vast() * u <= reach(),
        u <= gain * small,
        gain <= small * u,
        45 * u <= a,
        a <= wide * u,
    ensures
        gain > 0,
        u * 0x10_0000_0000_0000 <= gain * a,
        gain * a <= reach() * u,
        gain * a <= (small * wide) * (u * u),
        u * u <= (gain * a) * (2 * small),
{
    lemma_vast();
    assert(gain > 0) by (nonlinear_arith)
        requires
            u <= gain * small,
            u > 0,
            small > 0,
    ;
    let uu = u * u;
    assert(45 * uu <= (gain * a) * small) by (nonlinear_arith)
        requires
            u <= gain * small,
            45 * u <= a,
            u > 0,
            uu == u * u,
    ;
    assert(gain * a <= (small * wide) * uu) by (nonlinear_arith)
        requires
            0 < gain <= small * u,
            0 < a <= wide * u,
            small > 0,
            wide > 0,
            u > 0,
            uu == u * u,
    ;
    assert((gain * a) * (2 * small) == 2 * ((gain * a) * small)) by (nonlinear_arith);
    assert(uu > 0) by (nonlinear_arith)
        requires
            u > 0,
            uu == u * u,
    ;
    assert(u * 0x10_0000_0000_0000 * small <= uu) by (nonlinear_arith)
        requires
            u >= 0x10_0000_0000_0000 * small,
            small > 0,
            uu == u * u,
    ;
    assert(u * 0x10_0000_0000_0000 <= gain * a) by (nonlinear_arith)
        requires
            u * 0x10_0000_0000_0000 * small <= (gain * a) * small,
            small > 0,
    ;
    let v = vast();
    assert((small * wide) * u <= v * u) by (nonlinear_arith)
        requires
            small == 0x100_0000_0000,
            wide == 32 * small,
            v >= 0x1_0000_0000_0000_0000_0000_0000_0000,
            u > 0,
    ;
    assert((small * wide) * uu <= reach() * u) by (nonlinear_arith)
        requires
            (small * wide) * u <= reach(),
            u > 0,
            uu == u * u,
    ;
}

proof fn lemma_quotient_size(tau: int, m: int, product: int, u: int, small: int)
    requires
        small == 0x100_0000_0000,
        u >= vast(),
        vast() * u <= reach(),
        u <= tau * small,
        tau <= small * u,
        m > 0,
        m * u <= 2 * product,
        product <= 2 * (m * u),
        product <= (small * (32 * small)) * (u * u),
        u * u <= product * (2 * small),
    ensures
        m * 0x10_0000_0000_0000 <= tau * u,
        tau * u <= reach() * m,
{
    lemma_vast();
    let c: int = 64 * small * small;
    assert(m <= c * u) by (nonlinear_arith)
        requires
            m * u <= 2 * product,
            product <= (small * (32 * small)) * (u * u),
            c == 64 * small * small,
            u > 0,
    ;
    assert(u <= 4 * small * m) by (nonlinear_arith)
        requires
            u * u <= product * (2 * small),
            product <= 2 * (m * u),
            u > 0,
            small > 0,
    ;
    assert(u * u <= tau * u * small) by (nonlinear_arith)
        requires
            u <= tau * small,
            u > 0,
    ;
    let h: int = 0x10_0000_0000_0000;
    let r: int = 0x4_0000_0000_0000;
    assert(c * h * small <= r * r * (r * r)) by (nonlinear_arith)
        requires
            c == 64 * small * small,
            small == 0x100_0000_0000,
            h == 0x10_0000_0000_0000,
            r == 0x4_0000_0000_0000,
    ;
    assert(m * h * small <= u * u) by (nonlinear_arith)
        requires
            m <= c * u,
            c * h * small <= u,
            m > 0,
            h > 0,
            small > 0,
            u > 0,
    ;
    assert(m * h <= tau * u) by (nonlinear_arith)
        requires
            m * h * small <= tau * u * small,
            small > 0,
    ;
    assert(tau * u <= (4 * small * small) * (m * u)) by (nonlinear_arith)
        requires
            tau <= small * u,
            u <= 4 * small * m,
            u > 0,
            small > 0,
    ;
    let v = vast();
    assert((4 * small * small) * u <= v * u) by (nonlinear_arith)
        requires
            small == 0x100_0000_0000,
            v >= 0x1_0000_0000_0000_0000_0000_0000_0000,
            u > 0,
    ;
    assert((4 * small * small) * (m * u) <= reach() * m) by (nonlinear_arith)
        requires
            (4 * small * small) * u <= reach(),
            m > 0,
    ;
}

proof fn lemma_cancel(x: int, y: int, k: int, n: int)
    requires
        about(x * k, y * k, n),
        k > 0,
    ensures
        about(x, y, n),
{
    let d = crate::precision::apart(x, y);
    assert(crate::precision::apart(x * k, y * k) == d * k) by (nonlinear_arith)
        requires
            d == crate::precision::apart(x, y),
            k > 0,
    ;
    assert(d * 0x4_0000_0000_0000 <= n * y) by (nonlinear_arith)
        requires
            d * k * 0x4_0000_0000_0000 <= n * (y * k),
            k > 0,
    ;
    assert(y > 0) by (nonlinear_arith)
        requires
            y * k > 0,
            k > 0,
    ;
}

proof fn lemma_about_high(x: int, y: int, p: int, q: int, n: int)
    requires
        about(x, y, n),
        about(p, q, n),
    ensures
        about(high(x, p), high(y, q), n),
{
    let (a, b) = (high(x, p), high(y, q));
    assert(n * y <= n * b && n * q <= n * b) by (nonlinear_arith)
        requires
            y <= b,
            q <= b,
            n >= 0,
    ;
}

/// What is near is near.
pub proof fn lemma_about_more(x: int, y: int, n: int, m: int)
    requires
        about(x, y, n),
        n <= m <= 0x10_0000,
    ensures
        about(x, y, m),
{
    assert(n * y <= m * y) by (nonlinear_arith)
        requires
            n <= m,
            y > 0,
    ;
}

/// Both devices are of an ordinary size.
pub proof fn lemma_plants_are_ordinary()
    ensures
        ordinary_plant(W::plant()),
        ordinary_plant(Mhz::plant()),
{
    lemma_ordinary_bits(W::plant().tau_s);
    lemma_ordinary_bits(W::plant().plant_gain);
    lemma_ordinary_bits(W::plant().base_delay_s);
    lemma_ordinary_bits(Mhz::plant().tau_s);
    lemma_ordinary_bits(Mhz::plant().plant_gain);
    lemma_ordinary_bits(Mhz::plant().base_delay_s);
}

proof fn lemma_ordinary_bits(x: Num)
    requires
        0x3e00_0000_0000_0000 <= x.0 <= 0x4200_0000_0000_0000,
    ensures
        ordinary(x),
{
    let (lo, hi) = (Num(0x3d70_0000_0000_0000), Num(0x4270_0000_0000_0000));
    lemma2_to64();
    lemma2_to64_rest();
    lemma_pow2_adds(52, 982);
    lemma_pow2_adds(1034, 40);
    lemma_pow2_adds(52, 1062);
    lemma_pow2_adds(1074, 40);
    assert(lo.significand() == 0x10_0000_0000_0000);
    assert(lo.exponent() == 982);
    assert(hi.significand() == 0x10_0000_0000_0000);
    assert(hi.exponent() == 1062);
    crate::num::lemma_magnitude_order(lo, x);
    crate::num::lemma_magnitude_order(x, hi);
}

} // verus!
