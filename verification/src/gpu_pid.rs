//! The GPU's inner loop from watts to clock.
//!
//! The calibration table gives the feedforward, and a light PI trims what is
//! left. Whenever the returned clock was saturated (correction, floor,
//! ceiling or rate), the next update leaves the integrator alone and reuses
//! its last contribution. A floor wins over the rate limit and over the hold
//! near the target ([`lemma_clock_is_allowed`]).
use crate::lut::{clock_of, ClockWattsLut};
use crate::num::{Num, ZERO};
use crate::pid::Pid;
use vstd::prelude::*;

verus! {

/// 5: proportional gain, MHz per watt.
pub const KP: u64 = 0x4014_0000_0000_0000;

/// 15: integral gain, MHz per watt and call.
pub const KI: u64 = 0x402e_0000_0000_0000;

/// 400: the most that the PI corrects either way, MHz.
pub const OUTPUT_LIMIT: u64 = 0x4079_0000_0000_0000;

/// 3: within this distance of the target the clock holds, W.
pub const DEADBAND_W: u64 = 0x4008_0000_0000_0000;

/// The largest change of the clock in a call, MHz.
pub const RATE_LIMIT_MHZ: u32 = 105;

/// The largest clock, MHz.
pub const MAX_CLOCK_MHZ: u32 = 3090;

/// The watts-to-clock loop.
#[derive(Clone, Copy, Debug)]
pub struct GpuPid {
    pub pid: Pid,
    /// The clock last returned, from which the rate is limited.
    pub last_clock: Option<u32>,
    /// The clock last returned was saturated.
    pub saturated: bool,
    /// The integral term of the last step that was not.
    pub frozen_i: Num,
}

/// A controller at rest.
pub open spec fn pid_at(setpoint: Num) -> Pid {
    Pid {
        kp: Num(KP),
        ki: Num(KI),
        kd: Num(ZERO),
        p_limit: Num(OUTPUT_LIMIT),
        i_limit: Num(OUTPUT_LIMIT),
        d_limit: Num(ZERO),
        setpoint,
        integral_term: Num(ZERO),
        prev_measurement: None,
    }
}

/// The loop at rest with a target.
pub open spec fn at_rest(setpoint: Num) -> GpuPid {
    GpuPid { pid: pid_at(setpoint), last_clock: None, saturated: false, frozen_i: Num(ZERO) }
}

fn make_pid(setpoint: Num) -> (r: Pid)
    ensures
        r == pid_at(setpoint),
{
    Pid {
        kp: Num(KP),
        ki: Num(KI),
        kd: Num(ZERO),
        p_limit: Num(OUTPUT_LIMIT),
        i_limit: Num(OUTPUT_LIMIT),
        d_limit: Num(ZERO),
        setpoint,
        integral_term: Num(ZERO),
        prev_measurement: None,
    }
}

/// A clock within the rate limit of the last one.
pub open spec fn rate_limited(clock: u32, last: u32) -> u32 {
    let lo = if last < RATE_LIMIT_MHZ {
        0
    } else {
        (last - RATE_LIMIT_MHZ) as u32
    };
    let hi = if last > u32::MAX - RATE_LIMIT_MHZ {
        u32::MAX
    } else {
        (last + RATE_LIMIT_MHZ) as u32
    };
    if clock < lo {
        lo
    } else if clock > hi {
        hi
    } else {
        clock
    }
}

fn limit_rate(clock: u32, last: u32) -> (r: u32)
    ensures
        r == rate_limited(clock, last),
{
    let lo: u32 = if last < RATE_LIMIT_MHZ {
        0
    } else {
        last - RATE_LIMIT_MHZ
    };
    let hi: u32 = if last > u32::MAX - RATE_LIMIT_MHZ {
        u32::MAX
    } else {
        last + RATE_LIMIT_MHZ
    };
    if clock < lo {
        lo
    } else if clock > hi {
        hi
    } else {
        clock
    }
}

impl GpuPid {
    /// The gains and limits are the loop's own; until a clock has been
    /// returned, nothing has been integrated.
    pub open spec fn wf(self) -> bool {
        &&& self.pid.kp == Num(KP)
        &&& self.pid.ki == Num(KI)
        &&& self.pid.kd == Num(ZERO)
        &&& self.pid.p_limit == Num(OUTPUT_LIMIT)
        &&& self.pid.i_limit == Num(OUTPUT_LIMIT)
        &&& self.pid.d_limit == Num(ZERO)
        &&& self.last_clock is None ==> self == at_rest(self.pid.setpoint)
        &&& self.last_clock matches Some(c) ==> c <= MAX_CLOCK_MHZ
    }

    /// The measurement says nothing.
    pub open spec fn blind(self, measured: Num) -> bool {
        !self.pid.setpoint.minus(measured).finite()
    }

    /// The measurement is close enough to the target.
    pub open spec fn near_target(self, measured: Num) -> bool {
        self.pid.setpoint.minus(measured).size().le(Num(DEADBAND_W))
    }

    /// The floor has risen above the clock last returned.
    pub open spec fn below(self, floor: u32) -> bool {
        self.last_clock matches Some(last) && last < floor
    }

    /// The loop after a risen floor lifted the clock near the target: the
    /// integrator is left alone.
    pub open spec fn lifted(self, floor: u32) -> GpuPid {
        GpuPid { saturated: true, last_clock: Some(floor), ..self }
    }

    /// The PI correction before it is bounded.
    #[verifier::opaque]
    pub open spec fn correction(self, measured: Num) -> Num {
        if self.saturated {
            self.pid.setpoint.minus(measured).times(Num(KP)).within(
                Num(OUTPUT_LIMIT).opposite(),
                Num(OUTPUT_LIMIT),
            ).plus(self.frozen_i)
        } else {
            self.pid.proportional(measured).plus(self.pid.integral(measured)).plus(
                self.pid.derivative(measured),
            )
        }
    }

    /// The correction within its authority.
    pub open spec fn trimmed(self, measured: Num) -> Num {
        self.correction(measured).within(Num(OUTPUT_LIMIT).opposite(), Num(OUTPUT_LIMIT))
    }

    /// The whole clock that the loop wants.
    pub open spec fn wanted(self, measured: Num, feedforward: u32) -> Num {
        crate::num::of_int(feedforward as nat).plus(self.trimmed(measured)).rounded()
    }

    /// That clock between the floor and the ceiling.
    pub open spec fn allowed(self, measured: Num, feedforward: u32, floor: u32) -> Num {
        self.wanted(measured, feedforward).within(
            crate::num::of_int(floor as nat),
            crate::num::of_int(MAX_CLOCK_MHZ as nat),
        )
    }

    /// The clock that is returned: within the rate limit of the last one, but
    /// not below the floor.
    pub open spec fn clock(self, measured: Num, feedforward: u32, floor: u32) -> u32 {
        let c = self.allowed(measured, feedforward, floor).whole();
        match self.last_clock {
            Some(last) => {
                let limited = rate_limited(c, last);
                if limited < floor {
                    floor
                } else {
                    limited
                }
            },
            None => c,
        }
    }

    /// Some limit changed the clock.
    pub open spec fn saturates(self, measured: Num, feedforward: u32, floor: u32) -> bool {
        let c = self.allowed(measured, feedforward, floor).whole();
        ||| !self.trimmed(measured).same(self.correction(measured))
        ||| !self.allowed(measured, feedforward, floor).same(self.wanted(measured, feedforward))
        ||| self.last_clock matches Some(last) && rate_limited(c, last) != c
    }

    /// The loop after it returned a clock.
    pub open spec fn moved(self, measured: Num, feedforward: u32, floor: u32) -> GpuPid {
        GpuPid {
            pid: if self.saturated {
                self.pid
            } else {
                Pid {
                    integral_term: self.pid.integral(measured),
                    prev_measurement: Some(measured),
                    ..self.pid
                }
            },
            frozen_i: if self.saturated {
                self.frozen_i
            } else {
                self.pid.integral(measured)
            },
            saturated: self.saturates(measured, feedforward, floor),
            last_clock: Some(self.clock(measured, feedforward, floor)),
        }
    }

    /// A loop at rest with a target of 0.
    pub fn new() -> (r: GpuPid)
        ensures
            r == at_rest(Num(ZERO)),
            r.wf(),
    {
        GpuPid { pid: make_pid(Num(ZERO)), last_clock: None, saturated: false, frozen_i: Num(ZERO) }
    }

    /// A new target; the integrator and the rate reference stay, so the clock
    /// ramps from where it is.
    pub fn set_target_w(&mut self, w: Num)
        requires
            old(self).wf(),
        ensures
            *final(self) == (GpuPid { pid: Pid { setpoint: w, ..old(self).pid }, ..*old(self) }),
            final(self).wf(),
    {
        self.pid.setpoint = w;
    }

    fn correct(&mut self, measured_w: Num) -> (r: Num)
        requires
            old(self).wf(),
        ensures
            r == old(self).correction(measured_w),
            final(self).saturated == old(self).saturated,
            final(self).last_clock == old(self).last_clock,
            old(self).saturated ==> *final(self) == *old(self),
            !old(self).saturated ==> final(self).frozen_i == old(self).pid.integral(measured_w),
            !old(self).saturated ==> final(self).pid == (Pid {
                integral_term: old(self).pid.integral(measured_w),
                prev_measurement: Some(measured_w),
                ..old(self).pid
            }),
    {
        proof {
            reveal(GpuPid::correction);
            reveal(Num::le);
        }
        if self.saturated {
            let error = self.pid.setpoint - measured_w;
            let p = (error * Num(KP)).clamp(Num(OUTPUT_LIMIT).negate(), Num(OUTPUT_LIMIT));
            p + self.frozen_i
        } else {
            let out = self.pid.next_control_output(measured_w);
            self.frozen_i = out.i;
            out.output
        }
    }

    /// One update on measured watts: the clock to lock, or nothing to hold.
    /// It holds without a finite measurement and without a calibration. Near
    /// the target it holds too, without integrating, unless the floor has
    /// risen above the clock last returned: then that floor is the clock.
    pub fn update(&mut self, measured_w: Num, lut: &ClockWattsLut, gpu_floor_mhz: u32) -> (r: Option<
        u32,
    >)
        requires
            old(self).wf(),
            lut.wf(),
            gpu_floor_mhz <= MAX_CLOCK_MHZ,
        ensures
            final(self).wf(),
            match clock_of(lut.points@, old(self).pid.setpoint) {
                Some(ff) => if old(self).blind(measured_w) {
                    r is None && *final(self) == *old(self)
                } else if !old(self).near_target(measured_w) {
                    &&& r == Some(old(self).clock(measured_w, ff, gpu_floor_mhz))
                    &&& *final(self) == old(self).moved(measured_w, ff, gpu_floor_mhz)
                } else if old(self).below(gpu_floor_mhz) {
                    &&& r == Some(gpu_floor_mhz)
                    &&& *final(self) == old(self).lifted(gpu_floor_mhz)
                } else {
                    r is None && *final(self) == *old(self)
                },
                None => r is None && *final(self) == *old(self),
            },
    {
        let error = self.pid.setpoint - measured_w;
        let ff = match lut.clock_for_watts(self.pid.setpoint) {
            Some(ff) => ff,
            None => {
                return None;
            },
        };
        if !error.is_finite() {
            return None;
        }
        if error.abs() <= Num(DEADBAND_W) {
            let below = match self.last_clock {
                Some(last) => last < gpu_floor_mhz,
                None => false,
            };
            if !below {
                return None;
            }
            self.saturated = true;
            self.last_clock = Some(gpu_floor_mhz);
            return Some(gpu_floor_mhz);
        }
        proof {
            lemma_clock_is_allowed(*self, measured_w, ff, gpu_floor_mhz);
        }
        let correction = self.correct(measured_w);
        assert(Num(OUTPUT_LIMIT).opposite().le(Num(OUTPUT_LIMIT))) by {
            reveal(Num::le);
        }
        let bounded = correction.clamp(Num(OUTPUT_LIMIT).negate(), Num(OUTPUT_LIMIT));
        let desired = (Num::from_int(ff as u64) + bounded).round();
        proof {
            lemma_clock_bounds(gpu_floor_mhz);
        }
        let clamped = desired.clamp(
            Num::from_int(gpu_floor_mhz as u64),
            Num::from_int(MAX_CLOCK_MHZ as u64),
        );
        let clock: u32 = clamped.to_u32();
        let mut saturated = bounded != correction || clamped != desired;
        let mut out: u32 = clock;
        if let Some(last) = self.last_clock {
            let limited: u32 = limit_rate(clock, last);
            saturated = saturated || limited != clock;
            out = if limited < gpu_floor_mhz {
                gpu_floor_mhz
            } else {
                limited
            };
        }
        self.saturated = saturated;
        self.last_clock = Some(out);
        Some(out)
    }

    /// Back to rest; the target stays.
    pub fn reset(&mut self)
        ensures
            *final(self) == at_rest(old(self).pid.setpoint),
            final(self).wf(),
    {
        self.pid = make_pid(self.pid.setpoint);
        self.last_clock = None;
        self.saturated = false;
        self.frozen_i = Num(ZERO);
    }
}

impl Default for GpuPid {
    fn default() -> (r: GpuPid)
        ensures
            r == at_rest(Num(ZERO)),
            r.wf(),
    {
        GpuPid::new()
    }
}

/// Whole clocks are ordered as the numbers that hold them.
proof fn lemma_clock_bounds(floor: u32)
    requires
        floor <= MAX_CLOCK_MHZ,
    ensures
        crate::num::of_int(floor as nat).le(crate::num::of_int(MAX_CLOCK_MHZ as nat)),
{
    let (a, b) = (crate::num::of_int(floor as nat), crate::num::of_int(MAX_CLOCK_MHZ as nat));
    crate::order::lemma_of_int_exact(floor as nat);
    crate::order::lemma_of_int_exact(MAX_CLOCK_MHZ as nat);
    crate::num::lemma_order_is_numeric(a, b);
    assert(floor * crate::num::unit() <= MAX_CLOCK_MHZ * crate::num::unit()) by (nonlinear_arith)
        requires
            floor <= MAX_CLOCK_MHZ,
    ;
}

/// A bounded term is a number and lies within its limit.
proof fn lemma_bounded_term(x: Num)
    requires
        !x.nan(),
    ensures
        crate::pid::bounded(x, Num(OUTPUT_LIMIT)).finite(),
        crate::pid::bounded(x, Num(OUTPUT_LIMIT)).size().le(Num(OUTPUT_LIMIT)),
{
    reveal(Num::le);
    reveal(Num::lesser);
    reveal(Num::lt);
    let s = Num(OUTPUT_LIMIT).lesser(x.size());
    assert(s.finite() && !s.negative());
    let limit = Num(OUTPUT_LIMIT);
    crate::order::lemma_one();
    let d = x.direction();
    assert(d.steps() == crate::num::unit() && d.finite()) by {
        assert(d.magnitude() == Num(crate::num::ONE).magnitude());
        assert(d.significand() == Num(crate::num::ONE).significand());
        assert(d.exponent() == Num(crate::num::ONE).exponent());
    }
    assert(s.times(d).magnitude() == s.magnitude()) by {
        reveal(Num::times);
        vstd::arithmetic::power2::lemma_pow2_pos(1074);
        crate::order::lemma_round_cancel(s.steps(), crate::num::unit());
        crate::order::lemma_round_exact(s);
    }
}

/// The first correction is a number, however large the error is.
proof fn lemma_first_correction(g: GpuPid, measured: Num)
    requires
        g.wf(),
        g.last_clock is None,
        g.pid.setpoint.minus(measured).finite(),
    ensures
        !g.correction(measured).nan(),
{
    reveal(GpuPid::correction);
    let error = g.pid.setpoint.minus(measured);
    let ep = error.times(Num(KP));
    let ei = error.times(Num(KI));
    assert(!ep.nan() && !ei.nan()) by {
        reveal(Num::times);
    }
    crate::order::lemma_plus_nan(Num(ZERO), ei);
    lemma_bounded_term(ep);
    lemma_bounded_term(Num(ZERO).plus(ei));
    let d = g.pid.derivative(measured);
    assert(d.finite()) by {
        assert(Num(ZERO).opposite().times(Num(ZERO)).magnitude() == 0) by {
            reveal(Num::times);
            crate::order::lemma_steps_zero(Num(ZERO));
            crate::order::lemma_round_nothing();
        }
        let x = Num(ZERO).opposite().times(Num(ZERO));
        assert(Num(ZERO).lesser(x.size()).magnitude() == 0) by {
            reveal(Num::lesser);
            reveal(Num::lt);
        }
        let z = Num(ZERO).lesser(x.size());
        assert(z.times(x.direction()).magnitude() == 0) by {
            reveal(Num::times);
            crate::order::lemma_steps_zero(z);
            crate::order::lemma_round_nothing();
            assert(z.steps() * x.direction().steps() == 0) by (nonlinear_arith)
                requires
                    z.steps() == 0,
            ;
        }
    }
    crate::order::lemma_plus_nan(g.pid.proportional(measured), g.pid.integral(measured));
    let sum = g.pid.proportional(measured).plus(g.pid.integral(measured));
    crate::order::lemma_plus_nan(sum, d);
}

/// Every clock that the loop returns lies between the floor and the ceiling,
/// also when the floor has just been raised past the rate limit.
pub proof fn lemma_clock_is_allowed(g: GpuPid, measured: Num, feedforward: u32, floor: u32)
    requires
        g.wf(),
        !g.blind(measured),
        floor <= MAX_CLOCK_MHZ,
    ensures
        floor <= g.clock(measured, feedforward, floor) <= MAX_CLOCK_MHZ,
{
    let c = g.allowed(measured, feedforward, floor);
    let (lo, hi) = (crate::num::of_int(floor as nat), crate::num::of_int(MAX_CLOCK_MHZ as nat));
    lemma_clock_bounds(floor);
    crate::order::lemma_of_int_exact(floor as nat);
    crate::order::lemma_of_int_exact(MAX_CLOCK_MHZ as nat);
    let u = crate::num::unit();
    vstd::arithmetic::power2::lemma_pow2_pos(1074);
    reveal(Num::within);
    reveal(Num::lt);
    reveal(Num::le);
    if c.nan() {
        assert(c.whole() == 0) by {
            reveal(Num::whole);
        }
        if g.last_clock is None {
            lemma_first_correction(g, measured);
            let t = g.trimmed(measured);
            assert(t.finite());
            let ff = crate::num::of_int(feedforward as nat);
            crate::order::lemma_of_int_exact(feedforward as nat);
            crate::order::lemma_plus_nan(ff, t);
            assert(!ff.plus(t).rounded().nan()) by {
                reveal(Num::rounded);
            }
        }
    } else {
        assert(floor <= c.whole() <= MAX_CLOCK_MHZ) by {
            reveal(Num::whole);
            crate::num::lemma_order_is_numeric(lo, c);
            crate::num::lemma_order_is_numeric(c, hi);
            if c.negative() {
                crate::order::lemma_steps_zero(c);
                assert(floor == 0) by (nonlinear_arith)
                    requires
                        floor * u <= 0,
                        u > 0,
                ;
            } else {
                let w = c.steps() / u;
                assert(floor <= w <= MAX_CLOCK_MHZ) by (nonlinear_arith)
                    requires
                        u > 0,
                        floor * u <= c.steps() <= MAX_CLOCK_MHZ * u,
                        w == c.steps() / u,
                ;
            }
        }
    }
}

/// A clock never lies further from the last one than the rate limit, unless
/// the floor has been raised past that: then it is the floor.
pub proof fn lemma_clock_moves_by_the_rate(
    g: GpuPid,
    measured: Num,
    feedforward: u32,
    floor: u32,
    last: u32,
)
    requires
        g.last_clock == Some(last),
    ensures
        ({
            let clock = g.clock(measured, feedforward, floor);
            ||| last - RATE_LIMIT_MHZ <= clock <= last + RATE_LIMIT_MHZ
            ||| clock == floor && last + RATE_LIMIT_MHZ < floor
        }),
{
}

/// While a limit binds, the integral is left alone, also by a floor that
/// lifts the clock: nothing winds up behind the limit.
pub proof fn lemma_saturated_loop_does_not_wind_up(
    g: GpuPid,
    measured: Num,
    feedforward: u32,
    floor: u32,
)
    requires
        g.saturated,
    ensures
        g.moved(measured, feedforward, floor).pid == g.pid,
        g.moved(measured, feedforward, floor).frozen_i == g.frozen_i,
        g.lifted(floor).pid == g.pid,
        g.lifted(floor).frozen_i == g.frozen_i,
{
}

/// The integral never asks for more than the correction may give, in either
/// direction.
pub proof fn lemma_integral_is_bounded(g: GpuPid, measured: Num, feedforward: u32, floor: u32)
    requires
        g.wf(),
        !g.blind(measured),
        g.pid.integral_term.size().le(Num(OUTPUT_LIMIT)),
    ensures
        g.moved(measured, feedforward, floor).pid.integral_term.size().le(Num(OUTPUT_LIMIT)),
{
    if !g.saturated {
        let ei = g.pid.setpoint.minus(measured).times(Num(KI));
        assert(!ei.nan()) by {
            reveal(Num::times);
        }
        assert(g.pid.integral_term.finite()) by {
            reveal(Num::le);
        }
        crate::order::lemma_plus_nan(g.pid.integral_term, ei);
        lemma_bounded_term(g.pid.integral_term.plus(ei));
    }
}

} // verus!
