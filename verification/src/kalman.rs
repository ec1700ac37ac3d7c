//! Two-state clamped Kalman filter over a bias and a gain.
//!
//! The measurement model is `rpm = baseline + bias + gain * w`. The filter
//! keeps the state in a box: the bias saturates at its authority, and an
//! update whose gain would leave its range is rejected whole
//! ([`lemma_state_stays_in_box`]). A rejected update leaves no trace, in the
//! state, in the covariance or in the cadence.
use crate::num::{Num, ONE, TWO, ZERO};
use vstd::prelude::*;

verus! {

/// 20: the least time between accepted updates, s.
pub const KF_PERIOD_S: u64 = 0x4034_0000_0000_0000;

/// 400: the bound on the bias, RPM.
pub const MAX_BIAS_AUTHORITY_RPM: u64 = 0x4079_0000_0000_0000;

/// 0.6: the least gain.
pub const GAIN_MIN: u64 = 0x3fe3_3333_3333_3333;

/// 1.6: the largest gain.
pub const GAIN_MAX: u64 = 0x3ff9_9999_9999_999a;

/// 1.2: the least gain times two.
pub const LEAST_SLOPE: u64 = 0x3ff3_3333_3333_3333;

/// 10000: measurement noise variance, RPM squared.
pub const R: u64 = 0x40c3_8800_0000_0000;

/// 26: bias process noise per update, RPM squared.
pub const Q_BIAS: u64 = 0x403a_0000_0000_0000;

/// 0.0001: gain process noise per update.
pub const Q_GAIN: u64 = 0x3f1a_36e2_eb1c_432d;

/// 526: variance of a fresh bias.
pub const P0_BIAS: u64 = 0x4080_7000_0000_0000;

/// 0.25: variance of a fresh gain.
pub const P0_GAIN: u64 = 0x3fd0_0000_0000_0000;

/// 1000000: a larger covariance trace is rescaled.
pub const TRACE_CAP: u64 = 0x412e_8480_0000_0000;

/// 100000: what it is rescaled to.
pub const TRACE_RESCALE_TO: u64 = 0x40f8_6a00_0000_0000;

/// Two components.
#[derive(Clone, Copy, Debug)]
pub struct Pair {
    pub a: Num,
    pub b: Num,
}

/// A two-by-two matrix, by rows.
#[derive(Clone, Copy, Debug)]
pub struct Mat2 {
    pub m00: Num,
    pub m01: Num,
    pub m10: Num,
    pub m11: Num,
}

impl Mat2 {
    /// Entry by entry.
    pub open spec fn plus(self, o: Mat2) -> Mat2 {
        Mat2 {
            m00: self.m00.plus(o.m00),
            m01: self.m01.plus(o.m01),
            m10: self.m10.plus(o.m10),
            m11: self.m11.plus(o.m11),
        }
    }

    /// Entry by entry.
    pub open spec fn minus(self, o: Mat2) -> Mat2 {
        Mat2 {
            m00: self.m00.minus(o.m00),
            m01: self.m01.minus(o.m01),
            m10: self.m10.minus(o.m10),
            m11: self.m11.minus(o.m11),
        }
    }

    /// Row by column; the second product is taken first.
    pub open spec fn times_pair(self, v: Pair) -> Pair {
        Pair {
            a: self.m01.times(v.b).plus(self.m00.times(v.a)),
            b: self.m11.times(v.b).plus(self.m10.times(v.a)),
        }
    }

    /// Row by column, column after column.
    pub open spec fn times(self, o: Mat2) -> Mat2 {
        let left = self.times_pair(Pair { a: o.m00, b: o.m10 });
        let right = self.times_pair(Pair { a: o.m01, b: o.m11 });
        Mat2 { m00: left.a, m01: right.a, m10: left.b, m11: right.b }
    }

    /// Each entry by a factor.
    pub open spec fn scaled(self, f: Num) -> Mat2 {
        Mat2 {
            m00: self.m00.times(f),
            m01: self.m01.times(f),
            m10: self.m10.times(f),
            m11: self.m11.times(f),
        }
    }

    /// Sum of the diagonal.
    pub open spec fn trace(self) -> Num {
        Num(ZERO).plus(self.m00).plus(self.m11)
    }

    fn add_mat(self, o: Mat2) -> (r: Mat2)
        ensures
            r == self.plus(o),
    {
        Mat2 {
            m00: self.m00 + o.m00,
            m01: self.m01 + o.m01,
            m10: self.m10 + o.m10,
            m11: self.m11 + o.m11,
        }
    }

    fn sub_mat(self, o: Mat2) -> (r: Mat2)
        ensures
            r == self.minus(o),
    {
        Mat2 {
            m00: self.m00 - o.m00,
            m01: self.m01 - o.m01,
            m10: self.m10 - o.m10,
            m11: self.m11 - o.m11,
        }
    }

    fn mul_pair(self, v: Pair) -> (r: Pair)
        ensures
            r == self.times_pair(v),
    {
        Pair { a: self.m01 * v.b + self.m00 * v.a, b: self.m11 * v.b + self.m10 * v.a }
    }

    fn mul_mat(self, o: Mat2) -> (r: Mat2)
        ensures
            r == self.times(o),
    {
        let left = self.mul_pair(Pair { a: o.m00, b: o.m10 });
        let right = self.mul_pair(Pair { a: o.m01, b: o.m11 });
        Mat2 { m00: left.a, m01: right.a, m10: left.b, m11: right.b }
    }

    fn scale(self, f: Num) -> (r: Mat2)
        ensures
            r == self.scaled(f),
    {
        Mat2 { m00: self.m00 * f, m01: self.m01 * f, m10: self.m10 * f, m11: self.m11 * f }
    }

    fn sum_diagonal(self) -> (r: Num)
        ensures
            r == self.trace(),
    {
        Num(ZERO) + self.m00 + self.m11
    }
}

/// A column times a row.
pub open spec fn outer(k: Pair, x: Pair) -> Mat2 {
    Mat2 {
        m00: k.a.times(x.a),
        m01: k.a.times(x.b),
        m10: k.b.times(x.a),
        m11: k.b.times(x.b),
    }
}

fn outer_product(k: Pair, x: Pair) -> (r: Mat2)
    ensures
        r == outer(k, x),
{
    Mat2 { m00: k.a * x.a, m01: k.a * x.b, m10: k.b * x.a, m11: k.b * x.b }
}

/// The filter.
#[derive(Clone, Copy, Debug)]
pub struct Kalman {
    /// Bias (RPM) and gain.
    pub theta: Pair,
    /// Covariance.
    pub p: Mat2,
    /// When the last update was accepted.
    pub last_update_t: Option<Num>,
}

/// The covariance of a fresh filter.
pub open spec fn fresh_prior() -> Mat2 {
    Mat2 { m00: Num(P0_BIAS), m01: Num(ZERO), m10: Num(ZERO), m11: Num(P0_GAIN) }
}

/// A bias within its authority; 0 for one that is not finite.
pub open spec fn sane_bias(bias: Num) -> Num {
    if bias.finite() {
        bias.within(Num(MAX_BIAS_AUTHORITY_RPM).opposite(), Num(MAX_BIAS_AUTHORITY_RPM))
    } else {
        Num(ZERO)
    }
}

/// A gain within its range; 1 for one that is not finite.
pub open spec fn sane_gain(gain: Num) -> Num {
    if gain.finite() {
        gain.within(Num(GAIN_MIN), Num(GAIN_MAX))
    } else {
        Num(ONE)
    }
}

/// Process noise.
pub open spec fn noise() -> Mat2 {
    Mat2 { m00: Num(Q_BIAS), m01: Num(ZERO), m10: Num(ZERO), m11: Num(Q_GAIN) }
}

/// The identity.
pub open spec fn identity() -> Mat2 {
    Mat2 { m00: Num(ONE), m01: Num(ZERO), m10: Num(ZERO), m11: Num(ONE) }
}

impl Kalman {
    /// The state lies in its box, and the last update has a time.
    pub open spec fn wf(self) -> bool {
        &&& self.last_update_t matches Some(t) ==> t.finite()
        &&& Num(MAX_BIAS_AUTHORITY_RPM).opposite().le(self.theta.a)
        &&& self.theta.a.le(Num(MAX_BIAS_AUTHORITY_RPM))
        &&& Num(GAIN_MIN).le(self.theta.b)
        &&& self.theta.b.le(Num(GAIN_MAX))
    }

    /// Covariance before a measurement.
    pub open spec fn predicted(self) -> Mat2 {
        self.p.plus(noise())
    }

    /// The Kalman gain for the regressor `[1, w]`.
    #[verifier::opaque]
    pub open spec fn weights(self, w: Num) -> Pair {
        let x = Pair { a: Num(ONE), b: w };
        let px = self.predicted().times_pair(x);
        let s = x.a.times(px.a).plus(x.b.times(px.b)).plus(Num(R));
        Pair { a: px.a.over(s), b: px.b.over(s) }
    }

    /// How far the measurement lies from the prediction.
    #[verifier::opaque]
    pub open spec fn innovation(self, measured: Num, baseline: Num, w: Num) -> Num {
        measured.minus(baseline.plus(self.theta.a).plus(self.theta.b.times(w)))
    }

    /// The state that the measurement asks for.
    #[verifier::opaque]
    pub open spec fn candidate(self, measured: Num, baseline: Num, w: Num) -> Pair {
        let k = self.weights(w);
        let e = self.innovation(measured, baseline, w);
        Pair { a: self.theta.a.plus(k.a.times(e)), b: self.theta.b.plus(k.b.times(e)) }
    }

    /// The cadence allows an update.
    pub open spec fn due(self, t: Num) -> bool {
        !(self.last_update_t matches Some(last) && t.minus(last).lt(Num(KF_PERIOD_S)))
    }

    /// The update is taken: it is due, its inputs are finite, the time among
    /// them, and the state that it asks for is finite with a gain in range.
    pub open spec fn accepts(self, t: Num, measured: Num, baseline: Num, w: Num) -> bool {
        let c = self.candidate(measured, baseline, w);
        &&& self.due(t)
        &&& t.finite() && measured.finite() && baseline.finite() && w.finite()
        &&& c.a.finite() && c.b.finite()
        &&& !c.b.lt(Num(GAIN_MIN)) && !Num(GAIN_MAX).lt(c.b)
    }

    /// The state after a taken update.
    pub open spec fn settled(self, measured: Num, baseline: Num, w: Num) -> Pair {
        let c = self.candidate(measured, baseline, w);
        Pair {
            a: c.a.within(Num(MAX_BIAS_AUTHORITY_RPM).opposite(), Num(MAX_BIAS_AUTHORITY_RPM)),
            b: c.b,
        }
    }

    /// The covariance after a taken update.
    #[verifier::opaque]
    pub open spec fn corrected(self, w: Num) -> Mat2 {
        let x = Pair { a: Num(ONE), b: w };
        let next = identity().minus(outer(self.weights(w), x)).times(self.predicted());
        if Num(TRACE_CAP).lt(next.trace()) {
            next.scaled(Num(TRACE_RESCALE_TO).over(next.trace()))
        } else {
            next
        }
    }

    /// The filter after a call.
    pub open spec fn updated(self, t: Num, measured: Num, baseline: Num, w: Num) -> Kalman {
        if self.accepts(t, measured, baseline, w) {
            Kalman {
                theta: self.settled(measured, baseline, w),
                p: self.corrected(w),
                last_update_t: Some(t),
            }
        } else {
            self
        }
    }

    /// Starts from a bias and a gain, which may come from a damaged file:
    /// each is made finite and pulled into its range. The covariance is
    /// fresh.
    pub fn new(bias: Num, gain: Num) -> (r: Kalman)
        ensures
            r.theta == (Pair { a: sane_bias(bias), b: sane_gain(gain) }),
            r.p == fresh_prior(),
            r.last_update_t is None,
            r.wf(),
    {
        proof {
            reveal(Num::le);
            reveal(Num::lt);
            reveal(Num::within);
        }
        let limit = Num(MAX_BIAS_AUTHORITY_RPM);
        let bias = if bias.is_finite() {
            bias.clamp(limit.negate(), limit)
        } else {
            Num(ZERO)
        };
        let gain = if gain.is_finite() {
            gain.clamp(Num(GAIN_MIN), Num(GAIN_MAX))
        } else {
            Num(ONE)
        };
        Kalman {
            theta: Pair { a: bias, b: gain },
            p: Mat2 { m00: Num(P0_BIAS), m01: Num(ZERO), m10: Num(ZERO), m11: Num(P0_GAIN) },
            last_update_t: None,
        }
    }

    /// The bias, RPM.
    pub fn bias(&self) -> (r: Num)
        ensures
            r == self.theta.a,
    {
        self.theta.a
    }

    /// The gain.
    pub fn gain(&self) -> (r: Num)
        ensures
            r == self.theta.b,
    {
        self.theta.b
    }

    fn predict(&self) -> (r: Mat2)
        ensures
            r == self.predicted(),
    {
        self.p.add_mat(
            Mat2 { m00: Num(Q_BIAS), m01: Num(ZERO), m10: Num(ZERO), m11: Num(Q_GAIN) },
        )
    }

    fn weigh(&self, w: Num) -> (r: Pair)
        ensures
            r == self.weights(w),
    {
        proof {
            reveal(Kalman::weights);
        }
        let x = Pair { a: Num(ONE), b: w };
        let px = self.predict().mul_pair(x);
        let s = x.a * px.a + x.b * px.b + Num(R);
        Pair { a: px.a / s, b: px.b / s }
    }

    fn correct(&self, w: Num) -> (r: Mat2)
        ensures
            r == self.corrected(w),
    {
        proof {
            reveal(Kalman::corrected);
        }
        let x = Pair { a: Num(ONE), b: w };
        let eye = Mat2 { m00: Num(ONE), m01: Num(ZERO), m10: Num(ZERO), m11: Num(ONE) };
        let next = eye.sub_mat(outer_product(self.weigh(w), x)).mul_mat(self.predict());
        let trace = next.sum_diagonal();
        if trace > Num(TRACE_CAP) {
            next.scale(Num(TRACE_RESCALE_TO) / trace)
        } else {
            next
        }
    }

    /// One update; returns whether the state changed. A call that is not
    /// taken changes nothing.
    pub fn update(&mut self, t_mono: Num, measured: Num, baseline: Num, w: Num) -> (r: bool)
        requires
            old(self).wf(),
        ensures
            *final(self) == old(self).updated(t_mono, measured, baseline, w),
            r == (old(self).accepts(t_mono, measured, baseline, w) && !(final(self).theta.a.same(
                old(self).theta.a,
            ) && final(self).theta.b.same(old(self).theta.b))),
            final(self).wf(),
    {
        proof {
            lemma_state_stays_in_box(*self, t_mono, measured, baseline, w);
        }
        if let Some(last) = self.last_update_t {
            if t_mono - last < Num(KF_PERIOD_S) {
                return false;
            }
        }
        if !(t_mono.is_finite() && measured.is_finite() && baseline.is_finite() && w.is_finite()) {
            return false;
        }
        let k = self.weigh(w);
        let innovation = measured - (baseline + self.theta.a + self.theta.b * w);
        let c = Pair { a: self.theta.a + k.a * innovation, b: self.theta.b + k.b * innovation };
        assert(c == self.candidate(measured, baseline, w)) by {
            reveal(Kalman::candidate);
            reveal(Kalman::innovation);
        }
        if !(c.a.is_finite() && c.b.is_finite()) || c.b < Num(GAIN_MIN) || c.b > Num(GAIN_MAX) {
            return false;
        }
        let limit = Num(MAX_BIAS_AUTHORITY_RPM);
        assert(limit.opposite().le(limit)) by {
            reveal(Num::le);
        }
        let next = Pair { a: c.a.clamp(limit.negate(), limit), b: c.b };
        let changed = !(next.a == self.theta.a && next.b == self.theta.b);
        let p = self.correct(w);
        *self = Kalman { theta: next, p, last_update_t: Some(t_mono) };
        changed
    }

    /// Back to no correction, with a fresh covariance and no cadence.
    pub fn reset(&mut self)
        ensures
            final(self).theta == (Pair { a: Num(ZERO), b: Num(ONE) }),
            final(self).p == fresh_prior(),
            final(self).last_update_t is None,
            final(self).wf(),
    {
        proof {
            reveal(Num::within);
            reveal(Num::lt);
        }
        *self = Kalman::new(Num(ZERO), Num(ONE));
    }
}

/// Whatever is measured, the bias stays within its authority and the gain in
/// its range.
pub proof fn lemma_state_stays_in_box(k: Kalman, t: Num, measured: Num, baseline: Num, w: Num)
    requires
        k.wf(),
    ensures
        k.updated(t, measured, baseline, w).wf(),
{
    reveal(Num::le);
    reveal(Num::lt);
    reveal(Num::within);
}

/// Once an update is taken, none is for the rest of its period, nor is one
/// whose time is no number: the cadence cannot be switched off.
pub proof fn lemma_cadence_is_kept(
    k: Kalman,
    t: Num,
    measured: Num,
    baseline: Num,
    w: Num,
    later: Num,
    measured_later: Num,
    baseline_later: Num,
    w_later: Num,
)
    requires
        k.accepts(t, measured, baseline, w),
        !later.finite() || later.minus(t).lt(Num(KF_PERIOD_S)),
    ensures
        ({
            let next = k.updated(t, measured, baseline, w);
            &&& next.last_update_t == Some(t) && t.finite()
            &&& next.updated(later, measured_later, baseline_later, w_later) == next
        }),
{
}

/// An update that is not taken leaves no trace, and so the next one is as due
/// as it was.
pub proof fn lemma_rejected_update_leaves_no_trace(
    k: Kalman,
    t: Num,
    measured: Num,
    baseline: Num,
    w: Num,
    later: Num,
)
    requires
        !k.accepts(t, measured, baseline, w),
    ensures
        k.updated(t, measured, baseline, w) == k,
        k.updated(t, measured, baseline, w).due(later) == k.due(later),
{
}

/// A surface whose slope in the GPU's watts is at least two keeps one of at
/// least [`LEAST_SLOPE`] under every gain that the filter can hold, so
/// dividing by the corrected slope is always safe.
pub proof fn lemma_corrected_slope_is_safe(k: Kalman, slope: Num)
    requires
        k.wf(),
        slope.finite(),
        Num(TWO).le(slope),
    ensures
        Num(LEAST_SLOPE).le(k.theta.b.times(slope)),
{
    reveal(Num::le);
    reveal(Num::times);
    let (gain, least, two) = (k.theta.b, Num(GAIN_MIN), Num(TWO));
    let u = crate::num::unit();
    vstd::arithmetic::power2::lemma_pow2_pos(1074);
    vstd::arithmetic::power2::lemma_pow2_unfold(1023);
    vstd::arithmetic::power2::lemma_pow2_unfold(1022);
    crate::order::lemma_one();
    assert(two.significand() == Num(ONE).significand() && two.exponent() == 1023);
    assert(Num(LEAST_SLOPE).significand() == least.significand() && least.exponent() == 1021
        && Num(LEAST_SLOPE).exponent() == 1022);
    assert(two.steps() == 2 * u && Num(LEAST_SLOPE).steps() == 2 * least.steps()) by (nonlinear_arith)
        requires
            two.significand() == Num(ONE).significand(),
            two.steps() == two.significand() * vstd::arithmetic::power2::pow2(1023),
            u == Num(ONE).significand() * vstd::arithmetic::power2::pow2(1022),
            vstd::arithmetic::power2::pow2(1023) == 2 * vstd::arithmetic::power2::pow2(1022),
            vstd::arithmetic::power2::pow2(1022) == 2 * vstd::arithmetic::power2::pow2(1021),
            Num(LEAST_SLOPE).significand() == least.significand(),
            Num(LEAST_SLOPE).steps() == least.significand() * vstd::arithmetic::power2::pow2(1022),
            least.steps() == least.significand() * vstd::arithmetic::power2::pow2(1021),
    ;
    crate::num::lemma_magnitude_order(least, gain);
    crate::num::lemma_magnitude_order(two, slope);
    let product = gain.steps() * slope.steps();
    assert((2 * least.steps()) * u <= product) by (nonlinear_arith)
        requires
            product == gain.steps() * slope.steps(),
            least.steps() <= gain.steps(),
            2 * u <= slope.steps(),
    ;
    crate::order::lemma_round_monotone((2 * least.steps()) * u, product, u);
    crate::order::lemma_round_cancel(2 * least.steps(), u);
    crate::order::lemma_round_exact(Num(LEAST_SLOPE));
}

} // verus!
