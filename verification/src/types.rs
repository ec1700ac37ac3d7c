//! What a sample of the machine holds.

use crate::num::{Num, ZERO};
use vstd::prelude::*;

verus! {

/// How recent the fan daemon's view is.
#[derive(Clone, Copy, Debug, PartialEq, Eq, Structural)]
pub enum Freshness {
    Fresh,
    Stale,
    Absent,
}

/// Which device an embedded-controller sensor answers to.
#[derive(Clone, Copy, Debug, PartialEq, Eq, Structural)]
pub enum EcGroup {
    Cpu,
    Gpu,
    /// A known sensor that the loops cannot move.
    Uncontrollable,
    Unknown,
}

impl EcGroup {
    /// The loops can move such a sensor.
    pub open spec fn controllable(self) -> bool {
        self == EcGroup::Cpu || self == EcGroup::Gpu
    }

    /// Whether the loops can move such a sensor.
    pub fn is_controllable(self) -> (r: bool)
        ensures
            r == self.controllable(),
    {
        match self {
            EcGroup::Cpu | EcGroup::Gpu => true,
            EcGroup::Uncontrollable | EcGroup::Unknown => false,
        }
    }
}

/// One embedded-controller sensor.
#[derive(Clone, Debug)]
pub struct EcSensor {
    pub label: String,
    pub group: EcGroup,
    /// Its temperature, °C.
    pub c: Num,
}

/// An embedded-controller reading.
#[derive(Clone, Debug)]
pub struct EcReading {
    /// The hottest sensor's temperature, °C.
    pub max_c: Num,
    /// The hottest sensor.
    pub argmax: String,
    pub argmax_group: EcGroup,
    /// The hottest temperature of the sensors that the fan daemon reads too,
    /// °C.
    pub reconciliation_max_c: Option<Num>,
    /// The hottest CPU sensor, °C.
    pub cpu_group_c: Option<Num>,
    /// The hottest GPU sensor, °C.
    pub gpu_group_c: Option<Num>,
    pub all: Vec<EcSensor>,
    /// Labels of the sensors whose readings were thrown out as implausible.
    pub implausible: Vec<String>,
}

/// The fan daemon's view.
#[derive(Clone, Debug)]
pub struct FanctrlView {
    /// The strategy in force.
    pub strategy: String,
    pub active: bool,
    /// The duty that the daemon commands, %.
    pub speed_pct: u8,
    /// The hottest temperature, °C.
    pub temperature: Num,
    /// Its moving average, °C.
    pub ma_temperature: Num,
    /// Samples in that average.
    pub ma_interval: u32,
    /// The curve's points: temperature and duty.
    pub curve: Vec<(Num, u8)>,
}

/// One sample of the machine.
#[derive(Clone, Debug)]
pub struct Sample {
    /// When it was taken, s on the monotonic clock.
    pub t_mono: Num,
    /// The machine has just resumed from a suspend.
    pub resumed: bool,
    pub on_ac: bool,
    /// Measured CPU package power, W; 0 while there is no reading.
    pub cpu_pkg_w: Num,
    /// CPU utilization, %.
    pub cpu_util_pct: Num,
    pub cpu_temp_c: Num,
    pub cpu_temp_valid: bool,
    /// Measured GPU power, W.
    pub gpu_w: Num,
    pub gpu_w_valid: bool,
    /// GPU SM clock, MHz.
    pub gpu_sm_mhz: Num,
    pub gpu_mhz_valid: bool,
    /// GPU utilization, %.
    pub gpu_util_pct: Num,
    pub gpu_temp_c: Num,
    pub gpu_temp_valid: bool,
    pub nvme_temp_c: Option<Num>,
    /// The faster fan, RPM.
    pub max_fan_rpm: Num,
    pub fan_valid: bool,
    pub ec: Option<EcReading>,
    pub ec_valid: bool,
    pub fanctrl: Option<FanctrlView>,
    pub fanctrl_freshness: Freshness,
    /// The view is new in this sample.
    pub fanctrl_view_changed: bool,
}

impl Default for Sample {
    /// A sample without any reading.
    fn default() -> (r: Sample)
        ensures
            r.t_mono == Num(ZERO),
            !r.resumed && !r.on_ac,
            r.cpu_pkg_w == Num(ZERO) && r.cpu_util_pct == Num(ZERO),
            r.cpu_temp_c == Num(ZERO) && !r.cpu_temp_valid,
            r.gpu_w == Num(ZERO) && !r.gpu_w_valid,
            r.gpu_sm_mhz == Num(ZERO) && !r.gpu_mhz_valid,
            r.gpu_util_pct == Num(ZERO),
            r.gpu_temp_c == Num(ZERO) && !r.gpu_temp_valid,
            r.nvme_temp_c is None,
            r.max_fan_rpm == Num(ZERO) && !r.fan_valid,
            r.ec is None && !r.ec_valid,
            r.fanctrl is None,
            r.fanctrl_freshness == Freshness::Absent,
            !r.fanctrl_view_changed,
    {
        Sample {
            t_mono: Num(ZERO),
            resumed: false,
            on_ac: false,
            cpu_pkg_w: Num(ZERO),
            cpu_util_pct: Num(ZERO),
            cpu_temp_c: Num(ZERO),
            cpu_temp_valid: false,
            gpu_w: Num(ZERO),
            gpu_w_valid: false,
            gpu_sm_mhz: Num(ZERO),
            gpu_mhz_valid: false,
            gpu_util_pct: Num(ZERO),
            gpu_temp_c: Num(ZERO),
            gpu_temp_valid: false,
            nvme_temp_c: None,
            max_fan_rpm: Num(ZERO),
            fan_valid: false,
            ec: None,
            ec_valid: false,
            fanctrl: None,
            fanctrl_freshness: Freshness::Absent,
            fanctrl_view_changed: false,
        }
    }
}

} // verus!
