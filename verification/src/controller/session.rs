//! What ends, interrupts and restarts a closed-loop session's evidence.

use crate::controller::auto::{
    cold_guards, AutoState, AutoView, GpuCommandEvidence, Session, GPU_COMMANDS_N,
};
use crate::controller::config::Config;
use crate::controller::drive::valid_reading;
use crate::controller::intake::ReplicaSeed;
use crate::controller::lane::{Lane, LaneFacts, LaneView};
use crate::controller::verdict::VerdictState;
use crate::controller::windows::SteadyView;
use crate::device_loop::{ActuatorState, DeviceUnit};
use crate::guards::Guards;
use crate::num::{of_int, Num, NAN, ZERO};
use crate::types::{Freshness, Sample};
use vstd::prelude::*;

verus! {

/// One more, up to the most that there can be.
pub open spec fn next_generation(n: u64) -> u64 {
    if n < u64::MAX {
        (n + 1) as u64
    } else {
        u64::MAX
    }
}

/// The commands after one more: the newest are kept.
#[verifier::opaque]
pub open spec fn remembered(w: Seq<GpuCommandEvidence>, e: GpuCommandEvidence) -> Seq<
    GpuCommandEvidence,
> {
    let t = w.push(e);
    if t.len() > GPU_COMMANDS_N {
        t.skip(t.len() - GPU_COMMANDS_N)
    } else {
        t
    }
}

impl LaneView {
    /// Without evidence on the actuator.
    #[verifier::opaque]
    pub open spec fn unproven(self) -> LaneView {
        LaneView {
            facts: LaneFacts {
                actuator: ActuatorState::Unverifiable,
                verdict: VerdictState::clear(),
                ..self.facts
            },
            ..self
        }
    }

    /// With a write that ended then.
    #[verifier::opaque]
    pub open spec fn written(self, completed_at: Num) -> LaneView {
        LaneView { facts: LaneFacts { last_write: Some(completed_at), ..self.facts }, ..self }
    }
}

impl<U: DeviceUnit> Lane<U> {
    /// Forgets the evidence on the actuator.
    pub fn forget_evidence(&mut self)
        ensures
            final(self)@ == old(self)@.unproven(),
            old(self)@.wf() ==> final(self)@.wf(),
    {
        proof {
            reveal(LaneView::unproven);
        }
        self.facts.actuator = ActuatorState::Unverifiable;
        self.facts.verdict = VerdictState::default();
    }

    /// Notes when a write ended.
    pub fn note_write(&mut self, completed_at: Num)
        ensures
            final(self)@ == old(self)@.written(completed_at),
            old(self)@.wf() ==> final(self)@.wf(),
            final(self)@.facts.verdict == old(self)@.facts.verdict,
    {
        proof {
            reveal(LaneView::written);
        }
        self.facts.last_write = Some(completed_at);
    }
}

/// A sample's draws, as the first of a window.
pub open spec fn first_draw(cpu_pkg_w: Num) -> Seq<Num> {
    if cpu_pkg_w.finite() && Num(ZERO).lt(cpu_pkg_w) {
        seq![cpu_pkg_w]
    } else {
        Seq::empty()
    }
}

/// A sample's maximum, as the first of a window.
pub open spec fn first_max(s: Sample) -> Seq<Num> {
    match s.ec {
        Some(ec) => match ec.reconciliation_max_c {
            Some(x) => seq![x],
            None => Seq::empty(),
        },
        None => Seq::empty(),
    }
}

impl AutoView {
    /// The engagement over: only the guards, the ceilings, the gains, the
    /// power source and the target's source stay.
    #[verifier::opaque]
    pub open spec fn disengaged(self) -> AutoView {
        AutoView {
            cpu: self.cpu.disengaged(),
            gpu: self.gpu.disengaged(),
            session: Session {
                view_initialised: false,
                last_sample: None,
                gpu_generation: 0,
                ..self.session
            },
            cpu_draw: Seq::empty(),
            fan: Seq::empty(),
            ec_slope: Seq::empty(),
            steady: SteadyView::empty(),
            refinement: SteadyView::empty(),
            gpu_commands: Seq::empty(),
        }
    }

    /// After a resume: what was seen before it proves nothing.
    #[verifier::opaque]
    pub open spec fn roused(self, c: Config) -> AutoView {
        AutoView {
            cpu: self.cpu.unproven(),
            gpu: self.gpu.unproven(),
            session: Session {
                gpu_generation: 0,
                cpu_hot_streak: 0,
                cpu_hot: false,
                guards: cold_guards(c),
                ..self.session
            },
            fan: Seq::empty(),
            ec_slope: Seq::empty(),
            steady: SteadyView::empty(),
            refinement: SteadyView::empty(),
            gpu_commands: Seq::empty(),
            ..self
        }
    }

    /// After a calibration that suspended the session: the loops are told the
    /// caps in force, and time and evidence start over.
    #[verifier::opaque]
    pub open spec fn returned(self, cpu_limit_w: Option<Num>, gpu_max_mhz: Option<u32>) -> AutoView {
        let cpu = match cpu_limit_w {
            Some(w) => self.cpu.told(w),
            None => self.cpu,
        };
        let gpu = match gpu_max_mhz {
            Some(mhz) => self.gpu.told(of_int(mhz as nat)),
            None => self.gpu,
        };
        AutoView {
            cpu: cpu.unwritten().unproven(),
            gpu: gpu.unwritten().unproven(),
            session: Session { last_sample: None, ..self.session },
            gpu_commands: Seq::empty(),
            ..self
        }
    }

    /// The first sample after that: every window starts over from it, and
    /// neither loop runs.
    #[verifier::opaque]
    pub open spec fn reseeded(self, s: Sample, c: Config) -> AutoView {
        let cold = cold_guards(c);
        let session = Session { guards: cold, ..self.session };
        let g = session.guard(s);
        AutoView {
            session: Session {
                last_sample: Some(s.t_mono),
                view_initialised: s.fanctrl is Some && s.fanctrl_freshness == Freshness::Fresh,
                last_on_ac: Some(s.on_ac),
                suppress_until: None,
                cpu_hot_streak: if s.cpu_temp_valid && c.cpu_hot_c.le(s.cpu_temp_c) {
                    1
                } else {
                    0
                },
                cpu_hot: false,
                guards: Guards { gpu_hot: g.gpu_hot, nvme_hot: g.nvme_hot, ..cold },
                ..self.session
            },
            cpu_draw: first_draw(s.cpu_pkg_w),
            fan: seq![
                if s.fan_valid {
                    s.max_fan_rpm
                } else {
                    Num(NAN)
                },
            ],
            ec_slope: first_max(s),
            steady: SteadyView::empty(),
            refinement: SteadyView::empty(),
            ..self
        }
    }

    /// With a GPU command carried out.
    #[verifier::opaque]
    pub open spec fn commanded(self, applied: u32, completed_at: Num) -> AutoView {
        let generation = next_generation(self.session.gpu_generation);
        AutoView {
            gpu: self.gpu.told(of_int(applied as nat)).written(completed_at),
            session: Session { gpu_generation: generation, ..self.session },
            gpu_commands: remembered(
                self.gpu_commands,
                GpuCommandEvidence { mhz: applied, completed_at, generation },
            ),
            ..self
        }
    }
}

impl AutoState {
    /// Ends the engagement, because there is nothing to regulate on.
    pub fn disengage(&mut self)
        ensures
            final(self)@ == old(self)@.disengaged(),
            old(self)@.wf() ==> final(self)@.wf(),
    {
        proof {
            reveal(AutoView::disengaged);
        }
        self.cpu.disengage();
        self.gpu.disengage();
        self.session =
        Session { view_initialised: false, last_sample: None, gpu_generation: 0, ..self.session };
        self.cpu_draw.clear();
        self.fan.clear();
        self.ec_slope.clear();
        self.steady.clear();
        self.refinement.clear();
        self.gpu_commands.clear();
    }

    /// Forgets what was seen before a suspend.
    pub fn rouse(&mut self, config: &Config)
        ensures
            final(self)@ == old(self)@.roused(*config),
            old(self)@.wf() ==> final(self)@.wf(),
    {
        proof {
            reveal(AutoView::roused);
        }
        self.cpu.forget_evidence();
        self.gpu.forget_evidence();
        self.session =
        Session {
            gpu_generation: 0,
            cpu_hot_streak: 0,
            cpu_hot: false,
            guards: Guards::new(config.gpu_hot_c, config.nvme_hot_c),
            ..self.session
        };
        self.fan.clear();
        self.ec_slope.clear();
        self.steady.clear();
        self.refinement.clear();
        self.gpu_commands.clear();
    }

    /// Takes over again after a calibration.
    pub fn come_back(&mut self, cpu_limit_w: Option<Num>, gpu_max_mhz: Option<u32>)
        requires
            old(self)@.wf(),
        ensures
            final(self)@ == old(self)@.returned(cpu_limit_w, gpu_max_mhz),
            final(self)@.wf(),
    {
        proof {
            reveal(AutoView::returned);
        }
        if let Some(cpu) = cpu_limit_w {
            self.cpu.tell(cpu);
        }
        if let Some(gpu) = gpu_max_mhz {
            self.gpu.tell(Num::from_int(gpu as u64));
        }
        self.session.last_sample = None;
        self.cpu.forget_write();
        self.gpu.forget_write();
        self.cpu.forget_evidence();
        self.gpu.forget_evidence();
        self.gpu_commands.clear();
    }

    /// Starts every window over from a sample, without running the loops.
    pub fn reseed(&mut self, s: &Sample, config: &Config)
        ensures
            final(self)@ == old(self)@.reseeded(*s, *config),
            old(self)@.wf() ==> final(self)@.wf(),
    {
        proof {
            reveal(AutoView::reseeded);
        }
        self.cpu_draw.clear();
        if s.cpu_pkg_w.is_finite() && s.cpu_pkg_w > Num(ZERO) {
            self.cpu_draw.push_back(s.cpu_pkg_w);
        }
        self.fan.clear();
        self.fan.push_back(
            if s.fan_valid {
                s.max_fan_rpm
            } else {
                Num(NAN)
            },
        );
        self.ec_slope.clear();
        if let Some(ec) = &s.ec {
            if let Some(raw_max) = ec.reconciliation_max_c {
                self.ec_slope.push_back(raw_max);
            }
        }
        self.steady.clear();
        self.refinement.clear();
        let mut guards = Guards::new(config.gpu_hot_c, config.nvme_hot_c);
        let _ = guards.step(valid_reading(s.gpu_temp_valid, s.gpu_temp_c), s.nvme_temp_c);
        let hot: u8 = if s.cpu_temp_valid && s.cpu_temp_c >= config.cpu_hot_c {
            1
        } else {
            0
        };
        self.session =
        Session {
            last_sample: Some(s.t_mono),
            view_initialised: s.fanctrl.is_some() && s.fanctrl_freshness == Freshness::Fresh,
            last_on_ac: Some(s.on_ac),
            suppress_until: None,
            cpu_hot_streak: hot,
            cpu_hot: false,
            guards,
            ..self.session
        };
        assert(self@.cpu_draw =~= first_draw(s.cpu_pkg_w));
        assert(self@.ec_slope =~= first_max(*s));
    }

    /// Records a GPU command that was carried out.
    pub fn record_gpu_command(&mut self, applied: u32, completed_at: Num)
        requires
            old(self)@.wf(),
        ensures
            final(self)@ == old(self)@.commanded(applied, completed_at),
            final(self)@.wf(),
    {
        proof {
            reveal(AutoView::commanded);
            reveal(remembered);
        }
        self.gpu.tell(Num::from_int(applied as u64));
        self.gpu.note_write(completed_at);
        let generation = self.session.gpu_generation.saturating_add(1);
        self.session.gpu_generation = generation;
        self.gpu_commands.push_back(GpuCommandEvidence { mhz: applied, completed_at, generation });
        if self.gpu_commands.len() > GPU_COMMANDS_N {
            let _ = self.gpu_commands.pop_front();
        }
        proof {
            let t = old(self)@.gpu_commands.push(
                GpuCommandEvidence { mhz: applied, completed_at, generation },
            );
            assert(t.len() > GPU_COMMANDS_N ==> t.drop_first() =~= t.skip(t.len() - GPU_COMMANDS_N));
        }
    }
}

/// What the replica starts over from in the first sample after a calibration:
/// the average only of a fresh view.
pub fn reentry_seed(s: &Sample) -> (r: (ReplicaSeed, Option<u32>))
    ensures
        ({
            let fresh = s.fanctrl is Some && s.fanctrl_freshness == Freshness::Fresh;
            &&& r.0.ma_c == (if fresh {
                Some(s.fanctrl->0.ma_temperature)
            } else {
                None
            })
            &&& r.0.cpu_group_c == crate::controller::intake::seed_of(*s).cpu_group_c
            &&& r.0.gpu_group_c == crate::controller::intake::seed_of(*s).gpu_group_c
            &&& r.1 == (if fresh {
                Some(s.fanctrl->0.ma_interval)
            } else {
                None
            })
        }),
{
    let seed = crate::controller::intake::replica_seed(s);
    match &s.fanctrl {
        Some(view) if s.fanctrl_freshness == Freshness::Fresh => (
            seed,
            Some(view.ma_interval),
        ),
        _ => (ReplicaSeed { ma_c: None, ..seed }, None),
    }
}

/// A resume leaves no mismatch episode, no GPU command to hold a clock
/// against and no settled window behind; the loops themselves stay.
pub proof fn lemma_resume_leaves_no_evidence(a: AutoView, c: Config)
    ensures
        !a.roused(c).cpu.facts.verdict.episode() && !a.roused(c).gpu.facts.verdict.episode(),
        a.roused(c).gpu_commands.len() == 0,
        a.roused(c).steady == SteadyView::empty() && a.roused(c).refinement == SteadyView::empty(),
        a.roused(c).cpu.state == a.cpu.state && a.roused(c).gpu.state == a.gpu.state,
{
    reveal(AutoView::roused);
    reveal(LaneView::unproven);
}

/// The first sample after a calibration runs neither loop and leaves both
/// lanes as they were.
pub proof fn lemma_reentry_holds(a: AutoView, s: Sample, c: Config)
    ensures
        a.reseeded(s, c).cpu == a.cpu && a.reseeded(s, c).gpu == a.gpu,
        a.reseeded(s, c).gpu_commands == a.gpu_commands,
        a.reseeded(s, c).session.source_initialised == a.session.source_initialised,
{
    reveal(AutoView::reseeded);
}

} // verus!
