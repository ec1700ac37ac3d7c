//! What the target's source answers, and what telemetry is told.

use crate::controller::lane::GainsSource;
use crate::device_loop::{DeviceDecision, ThermalMode};
use crate::num::Num;
use crate::status::StatusFlag;
use vstd::prelude::*;

verus! {

/// One of the two devices.
#[derive(Clone, Copy, Debug, PartialEq, Eq, Structural)]
pub enum Device {
    Cpu,
    Gpu,
}

/// Where the target temperature comes from.
#[derive(Clone, Copy, Debug, PartialEq, Eq, Structural)]
pub enum TStarState {
    /// The fan daemon's curve.
    Curve,
    /// The target held so far.
    Held,
    /// Nowhere; the loops have nothing to regulate on.
    Released,
}

/// A remark of the target's source.
#[derive(Clone, Copy, Debug, PartialEq, Eq, Structural)]
pub enum SourceFlag {
    /// The operating point sits on a steep segment.
    SteepCurve,
    /// The target cannot be reached.
    TargetUnreachable,
    /// A device cannot reach the target.
    DeviceUnreachable { device: Device },
    /// Another remark, by number.
    Other(u32),
}

/// What the target's source answers.
#[derive(Clone, Debug)]
pub struct SourceReply {
    pub state: TStarState,
    pub t_star: Option<Num>,
    pub thermal_mode: ThermalMode,
    /// How far the target moved.
    pub delta_tstar: Num,
    /// The target was resynchronised.
    pub resync: bool,
    /// The thermal candidates are to start over from their ceilings.
    pub restore_thermal: bool,
    pub flags: Vec<SourceFlag>,
    /// The target is worth keeping for a later session.
    pub records: bool,
}

/// A diagnostic in telemetry.
#[derive(Clone, Debug)]
pub enum TelemetryFlag {
    /// A remark of the target's source.
    Source(SourceFlag),
    /// A device's group was there and is gone.
    GroupLost { device: Device },
    /// A sensor's reading was thrown out.
    EcImplausible { label: String },
    /// A plain status flag.
    Legacy(StatusFlag),
}

/// A loop's decision as telemetry shows it.
#[derive(Clone, Copy, Debug)]
pub struct DeviceReport {
    pub decision: DeviceDecision,
    pub gains_source: GainsSource,
}

/// The source remarks that the operating point is steep.
pub open spec fn says_steep(flags: Seq<SourceFlag>) -> bool {
    flags.contains(SourceFlag::SteepCurve)
}

/// A remark that a target is out of reach.
pub open spec fn out_of_reach(f: SourceFlag) -> bool {
    f is TargetUnreachable || f is DeviceUnreachable
}

/// The source remarks that a target is out of reach.
pub open spec fn says_unreachable(flags: Seq<SourceFlag>) -> bool {
    exists|i: int| 0 <= i < flags.len() && out_of_reach(#[trigger] flags[i])
}

impl SourceReply {
    /// Whether the operating point is steep, and whether a target is out of
    /// reach.
    pub fn remarks(&self) -> (r: (bool, bool))
        ensures
            r.0 == says_steep(self.flags@),
            r.1 == says_unreachable(self.flags@),
    {
        let mut steep = false;
        let mut unreachable = false;
        let mut i: usize = 0;
        while i < self.flags.len()
            invariant
                i <= self.flags@.len(),
                steep <==> exists|j: int|
                    0 <= j < i && (#[trigger] self.flags@[j]) == SourceFlag::SteepCurve,
                unreachable <==> exists|j: int|
                    0 <= j < i && out_of_reach(#[trigger] self.flags@[j]),
            decreases self.flags@.len() - i,
        {
            match self.flags[i] {
                SourceFlag::SteepCurve => {
                    steep = true;
                },
                SourceFlag::TargetUnreachable | SourceFlag::DeviceUnreachable { .. } => {
                    unreachable = true;
                },
                SourceFlag::Other(_) => {},
            }
            i += 1;
        }
        (steep, unreachable)
    }
}

} // verus!
