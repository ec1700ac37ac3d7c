//! The controller's plain state, its orders and its requests.


use crate::controller::drive::Decisions;
use crate::controller::intake::{ReconciliationObservation, ReplicaSeed, SourceRequest};
use crate::controller::panel::Limits;
use crate::controller::verdict::WriteVerdict;
use crate::num::Num;
use crate::status::Mode;
use vstd::prelude::*;

verus! {

/// 10: limits in force are looked after this often, s.
pub const REASSERT_PERIOD_S: u64 = 0x4024_0000_0000_0000;

/// 5: a draw this far over the CPU's limit violates it, W.
pub const STICKINESS_MARGIN_W: u64 = 0x4014_0000_0000_0000;

/// Violations in a row before the limit counts as not sticking.
pub const STICKINESS_SAMPLES: u8 = 3;

/// The same shortly after a resume.
pub const STICKINESS_SAMPLES_STRICT: u8 = 2;

/// 60: how long that is, s.
pub const RESUMED_STRICT_S: u64 = 0x404e_0000_0000_0000;

/// 30: how long a resume is shown, s.
pub const RESUMED_FLAG_S: u64 = 0x403e_0000_0000_0000;

/// 0.01: caps closer than this are the same, W.
pub const CAP_BAND_W: u64 = 0x3f84_7ae1_47ae_147b;

/// 95: the embedded controller's own limit, °C.
pub const EC_HOT_C: u64 = 0x4057_c000_0000_0000;

/// Which actuators there are.
#[derive(Clone, Copy, Debug, PartialEq, Eq, Structural)]
pub struct Rig {
    pub cpu: bool,
    pub gpu: bool,
}

/// Why the watchdog tripped.
#[derive(Clone, Copy, Debug, PartialEq, Eq, Structural)]
pub enum Trip {
    /// Something was too hot for too long.
    Thermal,
    /// There was no CPU temperature for too long.
    SensorLost,
}

/// Timers and counters of the machinery that looks after limits.
#[derive(Clone, Copy, Debug)]
pub struct Watch {
    /// Samples in a row over the CPU's limit.
    pub stick_violations: u8,
    /// A resume is shown until then, s.
    pub resumed_until: Option<Num>,
    /// The strict rule holds until then, s.
    pub strict_until: Option<Num>,
    /// When limits were last looked after, s.
    pub last_reassert: Option<Num>,
    /// A trip with nothing to release has been remarked on.
    pub idle_trip_warned: bool,
}

/// Plain state.
#[derive(Clone, Copy, Debug)]
pub struct Core {
    pub limits: Limits,
    pub watch: Watch,
    /// There is a calibration runner.
    pub calibrating: bool,
    /// The calibration suspended a closed-loop session.
    pub from_auto: bool,
    /// The next sample only restarts the session's windows.
    pub reentry_hold: bool,
}

/// Something to be done; nothing depends on how it goes.
#[derive(Clone, Copy, Debug)]
pub enum Order {
    /// Arm the watchdog again.
    RearmWatchdog,
    /// Let the GPU know that the machine resumed.
    PokeGpu,
    /// Release the GPU's clock lock.
    ReleaseGpu,
    /// Restore the CPU's stock limits.
    RestoreCpu,
    /// Write the calibration and the session's lessons down.
    SaveState,
    /// Write the configuration down.
    SaveConfig,
    /// Restore the hardware in full.
    RestoreAll,
    /// Stop the CPU burner, if it runs.
    StopBurner,
    /// Forget the GPU's lock verifier.
    DropVerifier,
    /// Forget a calibration's lock verifier.
    DropCalibVerifier,
    /// Start the replica over.
    ResetReplica(ReplicaSeed),
    /// Average the replica over this many samples.
    SetReplicaInterval(u32),
    /// Make a calibration's replica, over this many samples.
    NewCalibReplica(u32),
    /// Start a calibration's replica over.
    ResetCalibReplica(ReplicaSeed),
    /// Average a calibration's replica over this many samples.
    SetCalibReplicaInterval(u32),
    /// Move the duty table towards this fan speed.
    RefineDuty { duty: u8, rpm: Num },
}

/// Why limits are looked after.
#[derive(Clone, Copy, Debug, PartialEq, Eq, Structural)]
pub enum Why {
    Resume,
    Stickiness,
    Schedule,
}

/// Why a calibration is aborted from within a sample.
#[derive(Clone, Copy, Debug, PartialEq, Eq, Structural)]
pub enum Abort {
    /// The watchdog found it too hot; the runner is told so and goes on to
    /// restore its pair.
    Overheated,
    /// Everything is released.
    Emergency(Trip),
}

impl Abort {
    /// What the runner is told.
    pub fn reason(self) -> (r: Option<&'static str>)
        ensures
            match self {
                Abort::Overheated => r matches Some(text) && text@
                    == "global watchdog: CPU Tctl reached 95C for 3 samples"@,
                Abort::Emergency(_) => r is None,
            },
    {
        match self {
            Abort::Overheated => Some("global watchdog: CPU Tctl reached 95C for 3 samples"),
            Abort::Emergency(_) => None,
        }
    }
}

/// What a sample needs done before it can go on.
#[derive(Clone, Copy, Debug)]
pub enum Next {
    /// Nothing: its effects can be taken.
    Done,
    /// Show the sample to the watchdog.
    ObserveWatchdog,
    /// Look after the limits.
    Reassert { why: Why, cpu_mw: Option<u32>, gpu_mhz: Option<u32> },
    /// Show the sample to the replica.
    TickReplica,
    /// Tell the replica of the view.
    ScoreView(ReconciliationObservation),
    /// Ask the target's source.
    AskSource(SourceRequest),
    /// Write the CPU's cap and read it back.
    WriteCpu { mw: u32, retry: bool },
    /// Hold the GPU's clock against the commands so far.
    VerifyGpu { requested: u32 },
    /// Lock the GPU's clock.
    LockGpu { mhz: u32 },
    /// Abort the calibration.
    AbortRunner(Abort),
    /// Read the CPU's cap back, and repair it if that is allowed.
    CheckCap { mw: u32, may_repair: bool },
    /// Show the sample to the calibration's replica.
    TickCalibReplica,
    /// Tell the calibration's replica of the view.
    ScoreCalibView(ReconciliationObservation),
    /// Hold the GPU's clock against the calibration's commands.
    VerifyCalibGpu,
    /// Show the sample to the calibration runner.
    SampleRunner,
}

/// What looking after the CPU's cap showed.
#[derive(Clone, Copy, Debug)]
pub struct CapCheck {
    /// What was read first.
    pub observed: WriteVerdict,
    /// What the repair showed, if there was one.
    pub repair: Option<WriteVerdict>,
}

impl CapCheck {
    /// What holds in the end.
    pub open spec fn outcome(self) -> WriteVerdict {
        match self.repair {
            Some(v) => v,
            None => self.observed,
        }
    }

    /// What holds in the end.
    pub fn verdict(&self) -> (r: WriteVerdict)
        ensures
            r == self.outcome(),
    {
        match self.repair {
            Some(v) => v,
            None => self.observed,
        }
    }
}

/// How a GPU lock went.
#[derive(Clone, Copy, Debug, PartialEq, Eq, Structural)]
pub enum LockReply {
    /// It failed.
    Failed,
    /// It holds; the clock that applies, if the driver tells.
    Locked(Option<u32>),
}

/// What one sample has found out so far.
#[derive(Clone, Copy, Debug)]
pub struct Pass {
    pub cpu_group_c: Option<Num>,
    pub gpu_group_c: Option<Num>,
    pub ec_mismatch: bool,
    pub ec_ma_c: Option<Num>,
    pub decisions: Option<Decisions>,
    pub target_duty: u8,
    pub target_rpm: Num,
    /// A CPU cap was found reset in a calibration.
    pub cap_reset: Option<CapCheck>,
}

impl Core {
    /// There is something that an emergency could release.
    pub open spec fn commanded(self) -> bool {
        self.limits.mode != Mode::Monitor || self.limits.cpu_limit_w is Some
            || self.limits.gpu_max_mhz is Some
    }

    /// Released to stock.
    pub open spec fn released(self) -> Core {
        Core {
            limits: Limits {
                cpu_limit_w: None,
                gpu_max_mhz: None,
                mode: Mode::Monitor,
                ..self.limits
            },
            watch: Watch { stick_violations: 0, last_reassert: None, ..self.watch },
            ..self
        }
    }

    /// With another CPU limit.
    pub open spec fn limiting_cpu(self, w: Option<Num>) -> Core {
        Core { limits: Limits { cpu_limit_w: w, ..self.limits }, ..self }
    }

    /// With another GPU limit.
    pub open spec fn limiting_gpu(self, mhz: Option<u32>) -> Core {
        Core { limits: Limits { gpu_max_mhz: mhz, ..self.limits }, ..self }
    }

    /// In another mode.
    pub open spec fn moded(self, mode: Mode) -> Core {
        Core { limits: Limits { mode, ..self.limits }, ..self }
    }

    /// With the limits looked after then.
    pub open spec fn tended(self, t: Option<Num>) -> Core {
        Core { watch: Watch { last_reassert: t, ..self.watch }, ..self }
    }

    /// Whether there is something that an emergency could release.
    pub fn anything_commanded(&self) -> (r: bool)
        ensures
            r == self.commanded(),
    {
        self.limits.mode != Mode::Monitor || self.limits.cpu_limit_w.is_some()
            || self.limits.gpu_max_mhz.is_some()
    }
}

} // verus!
