//! What the user configures.

use crate::device_loop::Gains;
use crate::num::Num;
use vstd::prelude::*;

verus! {

/// 1000: the lowest fan target, RPM.
pub const FAN_TARGET_MIN_RPM: u64 = 0x408f_4000_0000_0000;

/// 7000: the highest fan target, RPM.
pub const FAN_TARGET_MAX_RPM: u64 = 0x40bb_5800_0000_0000;

/// 3000: the fan target at the start, RPM.
pub const DEFAULT_FAN_TARGET_RPM: u64 = 0x40a7_7000_0000_0000;

/// 1000: milliwatts in a watt.
pub const MW_PER_W: u64 = 0x408f_4000_0000_0000;

/// The user's configuration, within the hardware's bounds.
#[derive(Clone, Copy, Debug)]
pub struct Config {
    pub fan_target_rpm: Num,
    /// The CPU's cap never goes below, W.
    pub cpu_floor_w: Num,
    /// The GPU's cap never goes below, MHz.
    pub gpu_floor_mhz: u32,
    /// The CPU's cap never goes above, W.
    pub cpu_max_w: Num,
    /// The GPU's cap never goes above, MHz.
    pub gpu_max_mhz: u32,
    pub cpu_hot_c: Num,
    pub gpu_hot_c: Num,
    pub nvme_hot_c: Num,
    /// The CPU's burst limit, mW.
    pub fast_limit_mw: u32,
    /// Gains that override the fitted ones.
    pub cpu_gains: Option<Gains>,
    pub gpu_gains: Option<Gains>,
    /// Draw margin of the CPU's shadow candidate, W.
    pub shadow_headroom_cpu_w: Num,
    /// Draw margin of the GPU's shadow candidate, MHz.
    pub shadow_headroom_gpu_mhz: Num,
    pub shadow_fall_rate_cpu: Num,
    pub shadow_fall_rate_gpu: Num,
    /// Whether the GPU's shadow candidate takes part.
    pub gpu_shadow_enabled: bool,
}

/// A power in whole milliwatts.
pub open spec fn milliwatts(w: Num) -> u32 {
    w.times(Num(MW_PER_W)).rounded().whole()
}

/// A power in whole milliwatts.
pub fn in_milliwatts(w: Num) -> (r: u32)
    ensures
        r == milliwatts(w),
{
    (w * Num(MW_PER_W)).round().to_u32()
}

/// The same setting, or both none.
pub open spec fn same_gains(a: Option<Gains>, b: Option<Gains>) -> bool {
    match (a, b) {
        (Some(x), Some(y)) => x.kc.same(y.kc) && x.ti_s.same(y.ti_s),
        (None, None) => true,
        _ => false,
    }
}

pub(crate) fn equal_gains(a: Option<Gains>, b: Option<Gains>) -> (r: bool)
    ensures
        r == same_gains(a, b),
{
    match (a, b) {
        (Some(x), Some(y)) => x.kc == y.kc && x.ti_s == y.ti_s,
        (None, None) => true,
        _ => false,
    }
}

impl Config {
    /// Every bound of the loops is a number.
    pub open spec fn wf(self) -> bool {
        !self.cpu_floor_w.nan() && !self.cpu_max_w.nan()
    }

    /// The settings agree.
    #[verifier::opaque]
    pub open spec fn agrees(self, o: Config) -> bool {
        &&& self.fan_target_rpm.same(o.fan_target_rpm)
        &&& self.cpu_floor_w.same(o.cpu_floor_w)
        &&& self.gpu_floor_mhz == o.gpu_floor_mhz
        &&& self.cpu_max_w.same(o.cpu_max_w)
        &&& self.gpu_max_mhz == o.gpu_max_mhz
        &&& self.cpu_hot_c.same(o.cpu_hot_c)
        &&& self.gpu_hot_c.same(o.gpu_hot_c)
        &&& self.nvme_hot_c.same(o.nvme_hot_c)
        &&& self.fast_limit_mw == o.fast_limit_mw
        &&& same_gains(self.cpu_gains, o.cpu_gains)
        &&& same_gains(self.gpu_gains, o.gpu_gains)
        &&& self.shadow_headroom_cpu_w.same(o.shadow_headroom_cpu_w)
        &&& self.shadow_headroom_gpu_mhz.same(o.shadow_headroom_gpu_mhz)
        &&& self.shadow_fall_rate_cpu.same(o.shadow_fall_rate_cpu)
        &&& self.shadow_fall_rate_gpu.same(o.shadow_fall_rate_gpu)
        &&& self.gpu_shadow_enabled == o.gpu_shadow_enabled
    }

    /// Whether the settings agree.
    pub fn agrees_with(&self, o: &Config) -> (r: bool)
        ensures
            r == self.agrees(*o),
    {
        proof {
            reveal(Config::agrees);
        }
        self.fan_target_rpm == o.fan_target_rpm && self.cpu_floor_w == o.cpu_floor_w
            && self.gpu_floor_mhz == o.gpu_floor_mhz && self.cpu_max_w == o.cpu_max_w
            && self.gpu_max_mhz == o.gpu_max_mhz && self.cpu_hot_c == o.cpu_hot_c
            && self.gpu_hot_c == o.gpu_hot_c && self.nvme_hot_c == o.nvme_hot_c
            && self.fast_limit_mw == o.fast_limit_mw && equal_gains(self.cpu_gains, o.cpu_gains)
            && equal_gains(self.gpu_gains, o.gpu_gains) && self.shadow_headroom_cpu_w
            == o.shadow_headroom_cpu_w && self.shadow_headroom_gpu_mhz
            == o.shadow_headroom_gpu_mhz && self.shadow_fall_rate_cpu == o.shadow_fall_rate_cpu
            && self.shadow_fall_rate_gpu == o.shadow_fall_rate_gpu && self.gpu_shadow_enabled
            == o.gpu_shadow_enabled
    }

    /// The CPU's limits as its actuator takes them, mW: burst, and the
    /// highest sustained one, which is cut to whole milliwatts.
    pub fn cpu_limits_mw(&self) -> (r: (u32, u32))
        ensures
            r.0 == self.fast_limit_mw,
            r.1 == self.cpu_max_w.times(Num(MW_PER_W)).whole(),
    {
        (self.fast_limit_mw, (self.cpu_max_w * Num(MW_PER_W)).to_u32())
    }
}

} // verus!
