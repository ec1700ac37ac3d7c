//! The closed loop's state through one session.

use crate::controller::config::Config;
use crate::controller::lane::{GainsSource, Lane, LaneView};
use crate::controller::windows::{Steady, SteadyView};
use crate::device_loop::{default_gains, imc_gains, DeviceUnit, Gains, Mhz, W};
use crate::guards::{
    Guards, Levels, MaxRatchet, CPU_MAX_RATCHET_DOWN_RATE_W, CPU_MAX_RATCHET_RECOVERY_MARGIN_C,
    GPU_MAX_RATCHET_DOWN_RATE_MHZ, GPU_MAX_RATCHET_RECOVERY_MARGIN_C,
};
use crate::num::{of_int, Num, ZERO};
use std::collections::VecDeque;
use vstd::prelude::*;

verus! {

/// Samples in the fan daemon's moving average until it has told its own.
pub const DEFAULT_MA_INTERVAL: u32 = 60;

/// 3: how long read-backs prove nothing after the power source changed, s.
pub const ON_AC_EDGE_SUPPRESS_S: u64 = 0x4008_0000_0000_0000;

/// 0.5: a view is no fair comparison while the local maximum rises this fast,
/// °C/s.
pub const RECONCILIATION_SKIP_SLOPE_C_PER_S: u64 = 0x3fe0_0000_0000_0000;

/// 2: a view this old is no fair comparison, s.
pub const RECONCILIATION_SKIP_GAP_S: u64 = 0x4000_0000_0000_0000;

/// 1: readings this close agree, °C.
pub const RECONCILIATION_BAND_C: u64 = 0x3ff0_0000_0000_0000;

/// 2: without a target the loops aim this far below the CPU's hot threshold,
/// °C.
pub const FALLBACK_MARGIN_C: u64 = 0x4000_0000_0000_0000;

/// 3: the CPU is no longer hot this far below its threshold, °C.
pub const CPU_HOT_BAND_C: u64 = 0x4008_0000_0000_0000;

/// Hot samples in a row before the CPU counts as hot.
pub const CPU_HOT_STRIKES: u8 = 3;

/// 1.1: the lead of the only sensor, °C.
pub const LONE_LEAD_C: u64 = 0x3ff1_9999_9999_999a;

/// Minus infinity.
pub const NO_RUNNER_UP: u64 = 0xfff0_0000_0000_0000;

/// GPU commands that are remembered.
pub const GPU_COMMANDS_N: usize = 3;

/// A cap recorded for each device.
#[derive(Clone, Copy, Debug)]
pub struct WarmStartEntry {
    pub cpu_cap_w: Num,
    pub gpu_lock_mhz: u32,
}

/// A GPU command that was carried out.
#[derive(Clone, Copy, Debug)]
pub struct GpuCommandEvidence {
    pub mhz: u32,
    /// When it was done, s.
    pub completed_at: Num,
    /// Which command of the session it was.
    pub generation: u64,
}

/// What a session remembers besides its lanes and windows.
#[derive(Clone, Copy, Debug)]
pub struct Session {
    /// When the sample before was taken, s.
    pub last_sample: Option<Num>,
    /// Time since the sample before, s.
    pub dt_s: Num,
    /// Samples in a row at or over the CPU's hot threshold.
    pub cpu_hot_streak: u8,
    pub cpu_hot: bool,
    /// The target's source has been made.
    pub source_initialised: bool,
    /// A fresh view has seeded the replica.
    pub view_initialised: bool,
    pub last_on_ac: Option<bool>,
    /// Read-backs prove nothing until then, s.
    pub suppress_until: Option<Num>,
    /// GPU commands so far.
    pub gpu_generation: u64,
    pub guards: Guards,
}

/// The state of one closed-loop session.
pub struct AutoState {
    pub cpu: Lane<W>,
    pub gpu: Lane<Mhz>,
    pub session: Session,
    /// Recent CPU draw, W.
    pub cpu_draw: VecDeque<Num>,
    /// Recent fan speed, RPM.
    pub fan: VecDeque<Num>,
    /// Recent maximum of the embedded controller, °C.
    pub ec_slope: VecDeque<Num>,
    /// The window behind recorded caps.
    pub steady: Steady,
    /// The window behind the duty table.
    pub refinement: Steady,
    pub gpu_commands: VecDeque<GpuCommandEvidence>,
}

/// An [`AutoState`] as values.
#[verifier::ext_equal]
pub struct AutoView {
    pub cpu: LaneView,
    pub gpu: LaneView,
    pub session: Session,
    pub cpu_draw: Seq<Num>,
    pub fan: Seq<Num>,
    pub ec_slope: Seq<Num>,
    pub steady: SteadyView,
    pub refinement: SteadyView,
    pub gpu_commands: Seq<GpuCommandEvidence>,
}

impl View for AutoState {
    type V = AutoView;

    open spec fn view(&self) -> AutoView {
        AutoView {
            cpu: self.cpu@,
            gpu: self.gpu@,
            session: self.session,
            cpu_draw: self.cpu_draw@,
            fan: self.fan@,
            ec_slope: self.ec_slope@,
            steady: self.steady@,
            refinement: self.refinement@,
            gpu_commands: self.gpu_commands@,
        }
    }
}

/// Configured gains and where they come from.
pub open spec fn starting_gains<U: DeviceUnit>(configured: Option<Gains>) -> (Gains, GainsSource) {
    match configured {
        Some(g) => (g, GainsSource::Config),
        None => (imc_gains(U::plant(), DEFAULT_MA_INTERVAL), GainsSource::Default),
    }
}

fn entry_gains<U: DeviceUnit>(configured: Option<Gains>) -> (r: (Gains, GainsSource))
    ensures
        r.0 == starting_gains::<U>(configured).0,
        r.1 == starting_gains::<U>(configured).1,
{
    match configured {
        Some(gains) => (gains, GainsSource::Config),
        None => (default_gains::<U>(DEFAULT_MA_INTERVAL), GainsSource::Default),
    }
}

/// The CPU's ceiling as a session begins.
#[verifier::opaque]
pub open spec fn cpu_levels(c: Config) -> Levels {
    Levels::between(
        c.cpu_floor_w,
        c.cpu_max_w,
        c.cpu_max_w,
        Num(CPU_MAX_RATCHET_DOWN_RATE_W),
        c.cpu_hot_c.minus(Num(CPU_MAX_RATCHET_RECOVERY_MARGIN_C)),
    )
}

/// The GPU's ceiling as a session begins.
#[verifier::opaque]
pub open spec fn gpu_levels(c: Config) -> Levels {
    Levels::between(
        of_int(c.gpu_floor_mhz as nat),
        of_int(c.gpu_max_mhz as nat),
        of_int(c.gpu_max_mhz as nat),
        Num(GPU_MAX_RATCHET_DOWN_RATE_MHZ),
        c.gpu_hot_c.minus(Num(GPU_MAX_RATCHET_RECOVERY_MARGIN_C)),
    )
}

impl Session {
    /// As a session begins.
    pub open spec fn at_start(c: Config) -> Session {
        Session {
            last_sample: None,
            dt_s: Num(ZERO),
            cpu_hot_streak: 0,
            cpu_hot: false,
            source_initialised: false,
            view_initialised: false,
            last_on_ac: None,
            suppress_until: None,
            gpu_generation: 0,
            guards: cold_guards(c),
        }
    }

    /// Read-backs prove nothing now.
    pub open spec fn suppressed(self, t_mono: Num) -> bool {
        self.suppress_until matches Some(until) && t_mono.lt(until)
    }

    /// Whether read-backs prove nothing now.
    pub fn is_suppressed(&self, t_mono: Num) -> (r: bool)
        ensures
            r == self.suppressed(t_mono),
    {
        match self.suppress_until {
            Some(until) => t_mono < until,
            None => false,
        }
    }
}

/// Guards that are not hot.
pub open spec fn cold_guards(c: Config) -> Guards {
    Guards { gpu_hot_c: c.gpu_hot_c, nvme_hot_c: c.nvme_hot_c, gpu_hot: false, nvme_hot: false }
}

impl AutoView {
    /// As a session begins.
    pub open spec fn at_start(c: Config) -> AutoView {
        let cpu = starting_gains::<W>(c.cpu_gains);
        let gpu = starting_gains::<Mhz>(c.gpu_gains);
        AutoView {
            cpu: LaneView::at_start(cpu.0, cpu.1, cpu_levels(c)),
            gpu: LaneView::at_start(gpu.0, gpu.1, gpu_levels(c)),
            session: Session::at_start(c),
            cpu_draw: Seq::empty(),
            fan: Seq::empty(),
            ec_slope: Seq::empty(),
            steady: SteadyView::empty(),
            refinement: SteadyView::empty(),
            gpu_commands: Seq::empty(),
        }
    }

    /// The lanes are in order, and no more GPU commands are remembered than
    /// there is room for.
    pub open spec fn wf(self) -> bool {
        self.cpu.wf() && self.gpu.wf() && self.gpu_commands.len() <= GPU_COMMANDS_N
    }
}

/// Bounds that are numbers make levels in order.
proof fn lemma_between(floor: Num, ceiling: Num, down: u64, recovery_c: Num)
    requires
        !floor.nan(),
        !ceiling.nan(),
        down == CPU_MAX_RATCHET_DOWN_RATE_W || down == GPU_MAX_RATCHET_DOWN_RATE_MHZ,
    ensures
        Levels::between(floor, ceiling, ceiling, Num(down), recovery_c).wf(),
{
    reveal(Num::le);
    reveal(Num::lt);
    reveal(Num::within);
}

/// Whole numbers are numbers.
pub proof fn lemma_of_int_is_number(n: u32)
    ensures
        !of_int(n as nat).nan(),
        of_int(n as nat).finite(),
{
    crate::order::lemma_of_int_exact(n as nat);
}

impl AutoState {
    /// A session as it begins.
    pub fn new(config: &Config) -> (r: AutoState)
        requires
            config.wf(),
        ensures
            r@ == AutoView::at_start(*config),
            r@.wf(),
    {
        proof {
            reveal(cpu_levels);
            reveal(gpu_levels);
            lemma_of_int_is_number(config.gpu_floor_mhz);
            lemma_of_int_is_number(config.gpu_max_mhz);
            lemma_between(
                config.cpu_floor_w,
                config.cpu_max_w,
                CPU_MAX_RATCHET_DOWN_RATE_W,
                config.cpu_hot_c.minus(Num(CPU_MAX_RATCHET_RECOVERY_MARGIN_C)),
            );
            lemma_between(
                of_int(config.gpu_floor_mhz as nat),
                of_int(config.gpu_max_mhz as nat),
                GPU_MAX_RATCHET_DOWN_RATE_MHZ,
                config.gpu_hot_c.minus(Num(GPU_MAX_RATCHET_RECOVERY_MARGIN_C)),
            );
        }
        let (cpu_gains, cpu_source) = entry_gains::<W>(config.cpu_gains);
        let (gpu_gains, gpu_source) = entry_gains::<Mhz>(config.gpu_gains);
        let gpu_floor = Num::from_int(config.gpu_floor_mhz as u64);
        let gpu_max = Num::from_int(config.gpu_max_mhz as u64);
        AutoState {
            cpu: Lane::new(
                cpu_gains,
                cpu_source,
                MaxRatchet::<W>::cpu(
                    config.cpu_floor_w,
                    config.cpu_max_w,
                    config.cpu_max_w,
                    config.cpu_hot_c,
                ),
            ),
            gpu: Lane::new(
                gpu_gains,
                gpu_source,
                MaxRatchet::<Mhz>::gpu(gpu_floor, gpu_max, gpu_max, config.gpu_hot_c),
            ),
            session: Session {
                last_sample: None,
                dt_s: Num(ZERO),
                cpu_hot_streak: 0,
                cpu_hot: false,
                source_initialised: false,
                view_initialised: false,
                last_on_ac: None,
                suppress_until: None,
                gpu_generation: 0,
                guards: Guards::new(config.gpu_hot_c, config.nvme_hot_c),
            },
            cpu_draw: VecDeque::new(),
            fan: VecDeque::new(),
            ec_slope: VecDeque::new(),
            steady: Steady::new(),
            refinement: Steady::new(),
            gpu_commands: VecDeque::new(),
        }
    }
}

} // verus!
