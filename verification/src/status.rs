//! Operating modes, status flags and their severity.

use vstd::prelude::*;

verus! {

/// Who owns the actuators.
#[derive(Clone, Copy, Debug, PartialEq, Eq, Structural)]
pub enum Mode {
    /// Nothing is commanded; the machine runs at its stock limits.
    Monitor,
    /// The user sets the limits by hand.
    Manual,
    /// The calibration runner owns actuation; manual commands and the
    /// reassert machinery are suspended.
    Calibrating,
    /// The closed loop owns actuation; manual setters are rejected.
    Auto,
}

impl Mode {
    /// The mode's name in status lines and telemetry.
    pub open spec fn text(self) -> Seq<char> {
        match self {
            Mode::Monitor => "monitor"@,
            Mode::Manual => "manual"@,
            Mode::Calibrating => "calibrating"@,
            Mode::Auto => "auto"@,
        }
    }

    /// Telemetry and display form.
    pub fn as_str(self) -> (r: &'static str)
        ensures
            r@ == self.text(),
    {
        match self {
            Mode::Monitor => "monitor",
            Mode::Manual => "manual",
            Mode::Calibrating => "calibrating",
            Mode::Auto => "auto",
        }
    }
}

impl Default for Mode {
    fn default() -> (r: Mode)
        ensures
            r == Mode::Monitor,
    {
        Mode::Monitor
    }
}

/// Coarse severity tier of a [`StatusFlag`], loudest first: the declaration
/// order is the ranking.
#[derive(Clone, Copy, Debug, PartialEq, Eq, PartialOrd, Ord, Structural)]
pub enum Severity {
    Critical,
    Warning,
    Info,
}

/// Active watchdog and status flags.
#[derive(Clone, Copy, Debug, PartialEq, Eq, Structural)]
pub enum StatusFlag {
    /// Measured package power keeps exceeding the commanded CPU limit.
    LimitNotSticking,
    /// A suspend/resume was detected recently.
    Resumed,
    /// Fitted gains are absent for the active strategy and interval.
    NotCalibrated,
    /// At least one device cannot reach the requested target at a bound.
    TargetUnreachable,
    /// The thermal watchdog tripped and everything was released. Never
    /// clears on its own: the first actuating command only acknowledges.
    ThermalEmergency,
    /// No valid CPU temperature while limits were applied; same release and
    /// acknowledge semantics as [`StatusFlag::ThermalEmergency`].
    SensorLost,
    /// The fan daemon's socket is absent or stale.
    FanctrlLost,
    /// The local EC replica disagrees with the fan daemon's own view.
    EcMismatch,
    /// The operating point sits on a steep segment of the fan curve.
    SteepCurve,
    /// The active fan curve is invalid and cannot supply a target.
    CurveInvalid,
    /// The GPU is over its hot threshold.
    GpuHot,
    /// The NVMe drive is over its hot threshold; reporting only.
    NvmeHot,
    /// Six consecutive actuator read-backs gave no evidence.
    ReadbackBlind,
}

impl StatusFlag {
    /// The flag's telemetry name.
    pub open spec fn text(self) -> Seq<char> {
        match self {
            StatusFlag::LimitNotSticking => "limit_not_sticking"@,
            StatusFlag::Resumed => "resumed"@,
            StatusFlag::NotCalibrated => "not_calibrated"@,
            StatusFlag::TargetUnreachable => "target_unreachable"@,
            StatusFlag::ThermalEmergency => "thermal_emergency"@,
            StatusFlag::SensorLost => "sensor_lost"@,
            StatusFlag::FanctrlLost => "fanctrl_lost"@,
            StatusFlag::EcMismatch => "ec_mismatch"@,
            StatusFlag::SteepCurve => "steep_curve"@,
            StatusFlag::CurveInvalid => "curve_invalid"@,
            StatusFlag::GpuHot => "gpu_hot"@,
            StatusFlag::NvmeHot => "nvme_hot"@,
            StatusFlag::ReadbackBlind => "readback_blind"@,
        }
    }

    /// Telemetry form.
    pub fn as_str(self) -> (r: &'static str)
        ensures
            r@ == self.text(),
    {
        match self {
            StatusFlag::LimitNotSticking => "limit_not_sticking",
            StatusFlag::Resumed => "resumed",
            StatusFlag::NotCalibrated => "not_calibrated",
            StatusFlag::TargetUnreachable => "target_unreachable",
            StatusFlag::ThermalEmergency => "thermal_emergency",
            StatusFlag::SensorLost => "sensor_lost",
            StatusFlag::FanctrlLost => "fanctrl_lost",
            StatusFlag::EcMismatch => "ec_mismatch",
            StatusFlag::SteepCurve => "steep_curve",
            StatusFlag::CurveInvalid => "curve_invalid",
            StatusFlag::GpuHot => "gpu_hot",
            StatusFlag::NvmeHot => "nvme_hot",
            StatusFlag::ReadbackBlind => "readback_blind",
        }
    }
}

/// The tier of each flag.
pub open spec fn severity_of(flag: StatusFlag) -> Severity {
    match flag {
        StatusFlag::ThermalEmergency | StatusFlag::SensorLost | StatusFlag::TargetUnreachable => {
            Severity::Critical
        },
        StatusFlag::NotCalibrated
        | StatusFlag::ReadbackBlind
        | StatusFlag::SteepCurve
        | StatusFlag::Resumed => Severity::Info,
        _ => Severity::Warning,
    }
}

/// Severity tier of a flag.
pub fn flag_severity(flag: StatusFlag) -> (r: Severity)
    ensures
        r == severity_of(flag),
{
    match flag {
        StatusFlag::ThermalEmergency => Severity::Critical,
        StatusFlag::SensorLost => Severity::Critical,
        StatusFlag::TargetUnreachable => Severity::Critical,
        StatusFlag::CurveInvalid => Severity::Warning,
        StatusFlag::EcMismatch => Severity::Warning,
        StatusFlag::FanctrlLost => Severity::Warning,
        StatusFlag::GpuHot => Severity::Warning,
        StatusFlag::LimitNotSticking => Severity::Warning,
        StatusFlag::NotCalibrated => Severity::Info,
        StatusFlag::ReadbackBlind => Severity::Info,
        StatusFlag::SteepCurve => Severity::Info,
        StatusFlag::NvmeHot => Severity::Warning,
        StatusFlag::Resumed => Severity::Info,
    }
}

} // verus!
