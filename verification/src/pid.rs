//! A PID step with limits on each term.
//!
//! The integral keeps its gain inside, so a change of the gain does not make
//! the output jump; the derivative is taken of the measurement, so a change
//! of the setpoint does not kick.
use crate::num::{Num, ZERO};
use vstd::prelude::*;

verus! {

/// A controller: gains, limits, setpoint and what it remembers.
#[derive(Clone, Copy, Debug)]
pub struct Pid {
    pub kp: Num,
    pub ki: Num,
    pub kd: Num,
    pub p_limit: Num,
    pub i_limit: Num,
    pub d_limit: Num,
    pub setpoint: Num,
    pub integral_term: Num,
    pub prev_measurement: Option<Num>,
}

/// The terms of one step and their sum.
#[derive(Clone, Copy, Debug)]
pub struct ControlOutput {
    pub p: Num,
    pub i: Num,
    pub d: Num,
    pub output: Num,
}

/// A term held within its limit on either side of zero.
pub open spec fn bounded(x: Num, limit: Num) -> Num {
    limit.lesser(x.size()).times(x.direction())
}

fn bound(x: Num, limit: Num) -> (r: Num)
    ensures
        r == bounded(x, limit),
{
    limit.min(x.abs()) * x.signum()
}

impl Pid {
    /// The proportional term.
    pub open spec fn proportional(self, measurement: Num) -> Num {
        bounded(self.setpoint.minus(measurement).times(self.kp), self.p_limit)
    }

    /// The integral term.
    pub open spec fn integral(self, measurement: Num) -> Num {
        bounded(
            self.integral_term.plus(self.setpoint.minus(measurement).times(self.ki)),
            self.i_limit,
        )
    }

    /// The derivative term.
    pub open spec fn derivative(self, measurement: Num) -> Num {
        let change = match self.prev_measurement {
            Some(prev) => measurement.minus(prev),
            None => Num(ZERO),
        };
        bounded(change.opposite().times(self.kd), self.d_limit)
    }

    /// One step on a measurement.
    pub fn next_control_output(&mut self, measurement: Num) -> (r: ControlOutput)
        ensures
            r.p == old(self).proportional(measurement),
            r.i == old(self).integral(measurement),
            r.d == old(self).derivative(measurement),
            r.output == r.p.plus(r.i).plus(r.d),
            *final(self) == (Pid {
                integral_term: r.i,
                prev_measurement: Some(measurement),
                ..*old(self)
            }),
    {
        let error = self.setpoint - measurement;
        let p = bound(error * self.kp, self.p_limit);
        let i = bound(self.integral_term + error * self.ki, self.i_limit);
        let change = match self.prev_measurement {
            Some(prev) => measurement - prev,
            None => Num(ZERO),
        };
        let d = bound(change.negate() * self.kd, self.d_limit);
        self.integral_term = i;
        self.prev_measurement = Some(measurement);
        ControlOutput { p, i, d, output: p + i + d }
    }
}

} // verus!
