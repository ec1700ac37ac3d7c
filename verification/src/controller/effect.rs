//! What a command or a sample did.

use crate::num::Num;
use crate::status::StatusFlag;
use vstd::prelude::*;

verus! {

/// Why something happened.
#[derive(Clone, Copy, Debug, PartialEq, Eq, Structural)]
pub enum Cause {
    /// The user set the CPU limit.
    SetCpuW,
    /// The user set the GPU's clock limit.
    SetGpuMaxClock,
    /// The user released every limit.
    Release,
    /// The user set the fan target.
    SetFanTarget,
    /// The user set the floors.
    SetFloors,
    /// The user started the closed loop.
    AutoOn,
    /// The user ended the closed loop.
    AutoOff,
    /// The user started a calibration.
    CalibStart,
    /// The user dismissed a calibration's outcome.
    CalibDismissed,
    /// The user aborted a calibration.
    CalibAborted,
    /// The user acknowledged an emergency.
    Rearmed,
    /// The thermal watchdog tripped.
    ThermalEmergency,
    /// The watchdog lost its sensor.
    SensorLost,
    /// The machine resumed, or the notice of it ended.
    Resume,
    /// Limits could not be reapplied after a resume.
    ResumeFailed,
    /// The CPU limit did not hold, or holds again.
    Stickiness,
    /// A limit that did not hold could not be reapplied.
    StickinessFailed,
    /// The limits were reapplied on schedule.
    Reassert,
    /// The limits could not be reapplied on schedule.
    ReassertFailed,
    /// A sample changed the status, for no other cause.
    Sample,
    /// The loops have nothing to regulate on.
    AutoReleased,
    /// The device loops ran.
    DeviceLoops,
    /// The CPU's read-back agrees again.
    CpuRecovered,
    /// The CPU's read-back disagrees.
    CpuMismatch,
    /// The CPU was released after too many mismatches.
    CpuReleased,
    /// The CPU's read-back is blind.
    CpuBlind,
    /// The GPU's read-back agrees again.
    GpuRecovered,
    /// The GPU's read-back disagrees.
    GpuMismatch,
    /// The GPU was released after too many mismatches.
    GpuReleased,
    /// The GPU's read-back is blind.
    GpuBlind,
    /// A calibration fitted a device.
    CalibFitted,
    /// A calibration tries again.
    CalibRetry,
    /// A calibration gave something up.
    CalibSkipped,
    /// A calibration finished.
    CalibFinished,
    /// A calibration went on.
    CalibProgress,
}

impl Cause {
    /// The cause's name in telemetry.
    pub open spec fn text(self) -> Seq<char> {
        match self {
            Cause::SetCpuW => "command:set_cpu_w"@,
            Cause::SetGpuMaxClock => "command:set_gpu_max_clock"@,
            Cause::Release => "release"@,
            Cause::SetFanTarget => "command:set_fan_target"@,
            Cause::SetFloors => "command:set_floors"@,
            Cause::AutoOn => "auto:on"@,
            Cause::AutoOff => "auto:off"@,
            Cause::CalibStart => "calib:start"@,
            Cause::CalibDismissed => "calib:dismissed"@,
            Cause::CalibAborted => "calib:aborted"@,
            Cause::Rearmed => "watchdog:rearmed"@,
            Cause::ThermalEmergency => "watchdog:thermal_emergency"@,
            Cause::SensorLost => "watchdog:sensor_lost"@,
            Cause::Resume => "resume"@,
            Cause::ResumeFailed => "resume_failed"@,
            Cause::Stickiness => "stickiness"@,
            Cause::StickinessFailed => "stickiness_failed"@,
            Cause::Reassert => "reassert"@,
            Cause::ReassertFailed => "reassert_failed"@,
            Cause::Sample => "sample"@,
            Cause::AutoReleased => "auto:released"@,
            Cause::DeviceLoops => "auto:device_loops"@,
            Cause::CpuRecovered => "auto:cpu_verdict_recovered"@,
            Cause::CpuMismatch => "auto:cpu_mismatch"@,
            Cause::CpuReleased => "auto:cpu_released"@,
            Cause::CpuBlind => "auto:cpu_readback_blind"@,
            Cause::GpuRecovered => "auto:gpu_verdict_recovered"@,
            Cause::GpuMismatch => "auto:gpu_mismatch"@,
            Cause::GpuReleased => "auto:gpu_released"@,
            Cause::GpuBlind => "auto:gpu_readback_blind"@,
            Cause::CalibFitted => "calib:fitted"@,
            Cause::CalibRetry => "calib:retry"@,
            Cause::CalibSkipped => "calib:skipped"@,
            Cause::CalibFinished => "calib:finished"@,
            Cause::CalibProgress => "calib:progress"@,
        }
    }

    /// Telemetry form.
    pub fn as_str(self) -> (r: &'static str)
        ensures
            r@ == self.text(),
    {
        match self {
            Cause::SetCpuW => "command:set_cpu_w",
            Cause::SetGpuMaxClock => "command:set_gpu_max_clock",
            Cause::Release => "release",
            Cause::SetFanTarget => "command:set_fan_target",
            Cause::SetFloors => "command:set_floors",
            Cause::AutoOn => "auto:on",
            Cause::AutoOff => "auto:off",
            Cause::CalibStart => "calib:start",
            Cause::CalibDismissed => "calib:dismissed",
            Cause::CalibAborted => "calib:aborted",
            Cause::Rearmed => "watchdog:rearmed",
            Cause::ThermalEmergency => "watchdog:thermal_emergency",
            Cause::SensorLost => "watchdog:sensor_lost",
            Cause::Resume => "resume",
            Cause::ResumeFailed => "resume_failed",
            Cause::Stickiness => "stickiness",
            Cause::StickinessFailed => "stickiness_failed",
            Cause::Reassert => "reassert",
            Cause::ReassertFailed => "reassert_failed",
            Cause::Sample => "sample",
            Cause::AutoReleased => "auto:released",
            Cause::DeviceLoops => "auto:device_loops",
            Cause::CpuRecovered => "auto:cpu_verdict_recovered",
            Cause::CpuMismatch => "auto:cpu_mismatch",
            Cause::CpuReleased => "auto:cpu_released",
            Cause::CpuBlind => "auto:cpu_readback_blind",
            Cause::GpuRecovered => "auto:gpu_verdict_recovered",
            Cause::GpuMismatch => "auto:gpu_mismatch",
            Cause::GpuReleased => "auto:gpu_released",
            Cause::GpuBlind => "auto:gpu_readback_blind",
            Cause::CalibFitted => "calib:fitted",
            Cause::CalibRetry => "calib:retry",
            Cause::CalibSkipped => "calib:skipped",
            Cause::CalibFinished => "calib:finished",
            Cause::CalibProgress => "calib:progress",
        }
    }
}

/// What one command or one sample did.
#[derive(Clone, Copy, Debug)]
pub enum Effect {
    /// A calibration sample, as it was seen.
    Calibration {
        gpu_util_pct: Num,
        view_fresh: bool,
        view_changed: bool,
        reconciliation_ma_c: Option<Num>,
        socket_ma_c: Option<Num>,
    },
    /// The CPU's sustained limit was commanded, W.
    CpuSet(Num),
    /// The GPU's maximum clock was commanded, MHz.
    GpuSet(u32),
    /// The limits were released to stock; the actuators stay owned.
    Released,
    /// Limits in force were reapplied.
    Reasserted { cause: Cause },
    /// The status changed.
    StatusChanged { cause: Cause },
    /// Worth a record, though the status is as it was.
    Noted { cause: Cause },
    /// A status flag was raised or lowered.
    Flagged { flag: StatusFlag, active: bool },
    /// The hardware is restored; the caller ends its loop.
    Quit,
}

/// What the effects of one call mean to the outside.
#[derive(Clone, Debug)]
pub struct Digest {
    /// The caller ends its loop.
    pub quit: bool,
    /// The status goes out.
    pub status_changed: bool,
    /// A decision is recorded, with this cause.
    pub cause: Option<Cause>,
    /// Each of these flag changes is recorded, in this order.
    pub flagged: Vec<(StatusFlag, bool)>,
    /// How many calibration records are written.
    pub calibrations: u64,
}

/// The cause that an effect gives to a decision.
pub open spec fn cause_of(e: Effect) -> Option<Cause> {
    match e {
        Effect::Reasserted { cause } => Some(cause),
        Effect::StatusChanged { cause } => Some(cause),
        Effect::Noted { cause } => Some(cause),
        _ => None,
    }
}

/// The first of the two that there is.
pub open spec fn first_cause(a: Option<Cause>, b: Option<Cause>) -> Option<Cause> {
    if a is Some {
        a
    } else {
        b
    }
}

/// The first cause among the effects.
pub open spec fn decision_cause(effects: Seq<Effect>) -> Option<Cause>
    decreases effects.len(),
{
    if effects.len() == 0 {
        None
    } else {
        first_cause(decision_cause(effects.drop_last()), cause_of(effects.last()))
    }
}

/// The flag changes among the effects, in their order.
pub open spec fn flag_changes(effects: Seq<Effect>) -> Seq<(StatusFlag, bool)>
    decreases effects.len(),
{
    if effects.len() == 0 {
        Seq::empty()
    } else {
        let before = flag_changes(effects.drop_last());
        match effects.last() {
            Effect::Flagged { flag, active } => before.push((flag, active)),
            _ => before,
        }
    }
}

/// The calibration records among the effects.
pub open spec fn calibration_records(effects: Seq<Effect>) -> nat
    decreases effects.len(),
{
    if effects.len() == 0 {
        0
    } else {
        calibration_records(effects.drop_last()) + if effects.last() is Calibration {
            1nat
        } else {
            0nat
        }
    }
}

/// One decision per batch: whatever claimed the cause first.
pub fn digest(effects: &Vec<Effect>) -> (r: Digest)
    ensures
        r.quit <==> exists|i: int| 0 <= i < effects@.len() && (#[trigger] effects@[i]) is Quit,
        r.status_changed <==> exists|i: int|
            0 <= i < effects@.len() && (#[trigger] effects@[i]) is StatusChanged,
        r.cause == decision_cause(effects@),
        r.flagged@ == flag_changes(effects@),
        r.calibrations == calibration_records(effects@),
{
    let mut quit = false;
    let mut status_changed = false;
    let mut cause: Option<Cause> = None;
    let mut flagged: Vec<(StatusFlag, bool)> = Vec::new();
    let mut calibrations: u64 = 0;
    let mut i: usize = 0;
    while i < effects.len()
        invariant
            i <= effects@.len(),
            quit <==> exists|j: int| 0 <= j < i && (#[trigger] effects@[j]) is Quit,
            status_changed <==> exists|j: int|
                0 <= j < i && (#[trigger] effects@[j]) is StatusChanged,
            cause == decision_cause(effects@.take(i as int)),
            flagged@ == flag_changes(effects@.take(i as int)),
            calibrations == calibration_records(effects@.take(i as int)),
            calibrations <= i,
        decreases effects@.len() - i,
    {
        proof {
            let next = effects@.take(i + 1);
            assert(next.drop_last() =~= effects@.take(i as int));
            assert(next.last() == effects@[i as int]);
        }
        let effect = effects[i];
        match effect {
            Effect::Calibration { .. } => {
                calibrations += 1;
            },
            Effect::Reasserted { cause: c } => {
                cause = first_or(cause, c);
            },
            Effect::Noted { cause: c } => {
                cause = first_or(cause, c);
            },
            Effect::StatusChanged { cause: c } => {
                status_changed = true;
                cause = first_or(cause, c);
            },
            Effect::Flagged { flag, active } => {
                flagged.push((flag, active));
            },
            Effect::Quit => {
                quit = true;
            },
            Effect::CpuSet(_) | Effect::GpuSet(_) | Effect::Released => {},
        }
        i += 1;
    }
    assert(effects@.take(effects@.len() as int) =~= effects@);
    Digest { quit, status_changed, cause, flagged, calibrations }
}

/// Claims the cause if nothing has yet.
pub(crate) fn first_or(cause: Option<Cause>, c: Cause) -> (r: Option<Cause>)
    ensures
        r == first_cause(cause, Some(c)),
{
    match cause {
        Some(old) => Some(old),
        None => Some(c),
    }
}

} // verus!
