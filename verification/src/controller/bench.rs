//! A calibration's own evidence.

use crate::controller::auto::GpuCommandEvidence;
use crate::controller::verdict::WriteVerdict;
use crate::num::Num;
use std::collections::VecDeque;
use vstd::prelude::*;

verus! {

/// The plain part of a calibration's evidence.
#[derive(Clone, Copy, Debug)]
pub struct BenchFacts {
    /// The CPU's cap was verified when last looked at.
    pub cpu_verified: bool,
    /// When it was last looked at, s.
    pub cpu_checked_at: Option<Num>,
    /// What that showed.
    pub cpu_readback: Option<WriteVerdict>,
    /// When the CPU's cap was last written, s.
    pub cpu_completed_at: Option<Num>,
    /// The GPU's clock agreed with the commands in the last sample.
    pub gpu_verified: bool,
    /// When the GPU's clock was last locked, s.
    pub gpu_completed_at: Option<Num>,
    /// GPU commands so far.
    pub gpu_generation: u64,
    /// There is a verifier for the GPU's lock, made for this clock.
    pub verifier_mhz: Option<u32>,
    /// The moving-average interval of the calibration.
    pub frozen_interval: Option<u32>,
}

/// A calibration's own evidence.
pub struct Bench {
    pub facts: BenchFacts,
    /// The strategy of the calibration.
    pub frozen_strategy: Option<String>,
    /// Recent maximum of the embedded controller, °C.
    pub ec_slope: VecDeque<Num>,
    pub gpu_commands: VecDeque<GpuCommandEvidence>,
}

/// A [`Bench`] as values.
#[verifier::ext_equal]
pub struct BenchView {
    pub facts: BenchFacts,
    pub frozen_strategy: Option<Seq<char>>,
    pub ec_slope: Seq<Num>,
    pub gpu_commands: Seq<GpuCommandEvidence>,
}

impl View for Bench {
    type V = BenchView;

    open spec fn view(&self) -> BenchView {
        BenchView {
            facts: self.facts,
            frozen_strategy: crate::controller::panel::text(self.frozen_strategy),
            ec_slope: self.ec_slope@,
            gpu_commands: self.gpu_commands@,
        }
    }
}

impl BenchView {
    /// No evidence.
    pub open spec fn empty() -> BenchView {
        BenchView {
            facts: BenchFacts {
                cpu_verified: false,
                cpu_checked_at: None,
                cpu_readback: None,
                cpu_completed_at: None,
                gpu_verified: false,
                gpu_completed_at: None,
                gpu_generation: 0,
                verifier_mhz: None,
                frozen_interval: None,
            },
            frozen_strategy: None,
            ec_slope: Seq::empty(),
            gpu_commands: Seq::empty(),
        }
    }
}

impl Bench {
    /// No evidence.
    pub fn new() -> (r: Bench)
        ensures
            r@ == BenchView::empty(),
    {
        Bench {
            facts: BenchFacts {
                cpu_verified: false,
                cpu_checked_at: None,
                cpu_readback: None,
                cpu_completed_at: None,
                gpu_verified: false,
                gpu_completed_at: None,
                gpu_generation: 0,
                verifier_mhz: None,
                frozen_interval: None,
            },
            frozen_strategy: None,
            ec_slope: VecDeque::new(),
            gpu_commands: VecDeque::new(),
        }
    }
}

} // verus!
