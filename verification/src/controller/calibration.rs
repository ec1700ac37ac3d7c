//! What a calibration's runner has done, and how a calibration ends.

use crate::controller::auto::{GpuCommandEvidence, DEFAULT_MA_INTERVAL, GPU_COMMANDS_N};
use crate::controller::bench::{Bench, BenchFacts, BenchView};
use crate::controller::config::{in_milliwatts, milliwatts};
use crate::controller::effect::Cause;
use crate::controller::intake::{gain_key, gains_key, resolve_gains, resolved_gains};
use crate::controller::machine::{Controller, Model, StoreView};
use crate::controller::panel::{texts, CalibGainChange, CalibOutcome, Limits, OutcomeView};
use crate::controller::plain::{Core, Order};
use crate::controller::publish::{fitted, is_fitted};
use crate::controller::report::Device;
use crate::controller::session::{next_generation, remembered};
use crate::controller::verdict::WriteVerdict;
use crate::device_loop::{DeviceUnit, Gains, Mhz, W};
use crate::num::Num;
use crate::status::{Mode, StatusFlag};
use crate::table::{entry, Table};
use crate::types::FanctrlView;
use vstd::prelude::*;

verus! {

/// How a runner's CPU write went.
#[derive(Clone, Copy, Debug)]
pub enum CpuReply {
    /// The machine shuts down; nothing was written.
    Fenced,
    NoActuator,
    /// What the read-back showed, and when it was done, s.
    Written { verdict: WriteVerdict, done: Option<Num> },
}

/// How a runner's GPU lock went.
#[derive(Clone, Copy, Debug, PartialEq)]
pub enum GpuReply {
    /// The machine shuts down; nothing was locked.
    Fenced,
    NoActuator,
    Failed,
    /// The clock that applies, if the driver tells, and the time of the
    /// command, s.
    Locked { applied: Option<u32>, done: Option<Num> },
}

/// What a calibration leaves behind.
pub struct CalibSave {
    pub calibrated_at: Option<String>,
    pub cpu_gains: Table<Gains>,
    pub gpu_gains: Table<Gains>,
}

/// One thing that a runner wanted, done.
pub enum CalibStep {
    /// The CPU's cap.
    Cpu(CpuReply),
    /// The GPU's clock.
    Gpu(GpuReply),
    /// The burner was started or stopped.
    Burner,
    /// A device was fitted.
    Fitted { device: Device, gains: Gains },
    /// A part is tried again.
    Retrying(String),
    /// A part was given up.
    Noted(String),
    /// The results were written down, or could not be.
    Saved { save: CalibSave, error: Option<String> },
    /// The calibration is over.
    Finished,
}

/// What a batch of steps comes to.
#[derive(Clone, Copy, Debug)]
pub struct Tally {
    pub cause: Option<Cause>,
    pub ended: bool,
}

/// How loud a cause is among those of one batch.
pub open spec fn rank(c: Cause) -> u8 {
    match c {
        Cause::CalibSkipped => 5,
        Cause::CalibFitted => 4,
        Cause::CalibFinished => 3,
        _ => 1,
    }
}

fn rank_of(c: Cause) -> (r: u8)
    ensures
        r == rank(c),
{
    match c {
        Cause::CalibSkipped => 5,
        Cause::CalibFitted => 4,
        Cause::CalibFinished => 3,
        _ => 1,
    }
}

/// The louder cause; the earlier of two that are as loud.
pub open spec fn louder(a: Option<Cause>, c: Cause) -> Option<Cause> {
    match a {
        Some(old) => if rank(c) > rank(old) {
            Some(c)
        } else {
            a
        },
        None => Some(c),
    }
}

fn raise(a: Option<Cause>, c: Cause) -> (r: Option<Cause>)
    ensures
        r == louder(a, c),
{
    match a {
        Some(old) => if rank_of(c) > rank_of(old) {
            Some(c)
        } else {
            a
        },
        None => Some(c),
    }
}

impl Tally {
    /// After one more step.
    pub open spec fn after(self, step: CalibStep) -> Tally {
        match step {
            CalibStep::Fitted { .. } => Tally {
                cause: louder(self.cause, Cause::CalibFitted),
                ..self
            },
            CalibStep::Retrying(_) => Tally {
                cause: louder(self.cause, Cause::CalibRetry),
                ..self
            },
            CalibStep::Noted(_) => Tally {
                cause: louder(self.cause, Cause::CalibSkipped),
                ..self
            },
            CalibStep::Finished => Tally {
                cause: louder(self.cause, Cause::CalibFinished),
                ended: true,
            },
            _ => self,
        }
    }
}

/// What a batch comes to.
pub open spec fn tally(steps: Seq<CalibStep>) -> Tally
    decreases steps.len(),
{
    if steps.len() == 0 {
        Tally { cause: None, ended: false }
    } else {
        tally(steps.drop_last()).after(steps.last())
    }
}

fn count(t: Tally, step: &CalibStep) -> (r: Tally)
    ensures
        r == t.after(*step),
{
    match step {
        CalibStep::Fitted { .. } => Tally { cause: raise(t.cause, Cause::CalibFitted), ..t },
        CalibStep::Retrying(_) => Tally { cause: raise(t.cause, Cause::CalibRetry), ..t },
        CalibStep::Noted(_) => Tally { cause: raise(t.cause, Cause::CalibSkipped), ..t },
        CalibStep::Finished => Tally { cause: raise(t.cause, Cause::CalibFinished), ended: true },
        _ => t,
    }
}

impl BenchView {
    /// With a CPU write taken in.
    #[verifier::opaque]
    pub open spec fn cpu_written(self, reply: CpuReply) -> BenchView {
        BenchView {
            facts: match reply {
                CpuReply::Fenced => self.facts,
                CpuReply::NoActuator => BenchFacts { cpu_verified: false, ..self.facts },
                CpuReply::Written { verdict, done } => BenchFacts {
                    cpu_verified: verdict is Verified,
                    cpu_completed_at: if verdict is Verified {
                        done
                    } else {
                        self.facts.cpu_completed_at
                    },
                    cpu_checked_at: done,
                    cpu_readback: Some(verdict),
                    ..self.facts
                },
            },
            ..self
        }
    }

    /// With a GPU lock taken in.
    #[verifier::opaque]
    pub open spec fn gpu_locked(self, reply: GpuReply) -> BenchView {
        match reply {
            GpuReply::Fenced => self,
            GpuReply::Locked { applied: Some(mhz), done: Some(t) } => {
                let generation = next_generation(self.facts.gpu_generation);
                BenchView {
                    facts: BenchFacts {
                        gpu_verified: false,
                        gpu_completed_at: Some(t),
                        gpu_generation: generation,
                        verifier_mhz: match self.facts.verifier_mhz {
                            Some(v) => Some(v),
                            None => Some(mhz),
                        },
                        ..self.facts
                    },
                    gpu_commands: remembered(
                        self.gpu_commands,
                        GpuCommandEvidence { mhz, completed_at: t, generation },
                    ),
                    ..self
                }
            },
            _ => BenchView { facts: BenchFacts { gpu_verified: false, ..self.facts }, ..self },
        }
    }
}

impl Bench {
    fn take_cpu(&mut self, reply: CpuReply)
        ensures
            final(self)@ == old(self)@.cpu_written(reply),
            final(self)@.gpu_commands == old(self)@.gpu_commands,
    {
        proof {
            reveal(BenchView::cpu_written);
        }
        match reply {
            CpuReply::Fenced => {},
            CpuReply::NoActuator => {
                self.facts.cpu_verified = false;
            },
            CpuReply::Written { verdict, done } => {
                let verified = match verdict {
                    WriteVerdict::Verified(_) => true,
                    _ => false,
                };
                let completed = if verified {
                    done
                } else {
                    self.facts.cpu_completed_at
                };
                self.facts =
                BenchFacts {
                    cpu_verified: verified,
                    cpu_completed_at: completed,
                    cpu_checked_at: done,
                    cpu_readback: Some(verdict),
                    ..self.facts
                };
            },
        }
    }

    fn take_gpu(&mut self, reply: GpuReply)
        requires
            old(self)@.gpu_commands.len() <= GPU_COMMANDS_N,
        ensures
            final(self)@ == old(self)@.gpu_locked(reply),
            final(self)@.gpu_commands.len() <= GPU_COMMANDS_N,
    {
        proof {
            reveal(BenchView::gpu_locked);
            reveal(remembered);
        }
        match reply {
            GpuReply::Fenced => {},
            GpuReply::Locked { applied: Some(mhz), done: Some(t) } => {
                let generation = self.facts.gpu_generation.saturating_add(1);
                let verifier_mhz = match self.facts.verifier_mhz {
                    Some(v) => Some(v),
                    None => Some(mhz),
                };
                self.facts =
                BenchFacts {
                    gpu_verified: false,
                    gpu_completed_at: Some(t),
                    gpu_generation: generation,
                    verifier_mhz,
                    ..self.facts
                };
                self.gpu_commands.push_back(
                    GpuCommandEvidence { mhz, completed_at: t, generation },
                );
                if self.gpu_commands.len() > GPU_COMMANDS_N {
                    let _ = self.gpu_commands.pop_front();
                }
                proof {
                    let t = old(self)@.gpu_commands.push(
                        GpuCommandEvidence { mhz, completed_at: t, generation },
                    );
                    assert(t.len() > GPU_COMMANDS_N ==> t.drop_first() =~= t.skip(
                        t.len() - GPU_COMMANDS_N,
                    ));
                }
            },
            _ => {
                self.facts.gpu_verified = false;
            },
        }
    }
}

/// The text of a note on a configured override.
pub open spec fn override_note(device: Device) -> Seq<char> {
    (match device {
        Device::Cpu => "Cpu"@,
        Device::Gpu => "Gpu"@,
    }) + ": config override remains active; remove it to use the new calibration gains."@
}

fn note_override(device: Device) -> (r: String)
    ensures
        r@ == override_note(device),
{
    let mut s = (match device {
        Device::Cpu => "Cpu",
        Device::Gpu => "Gpu",
    }).to_string();
    s.append(": config override remains active; remove it to use the new calibration gains.");
    s
}

/// The text of an error of writing down.
pub open spec fn save_error(e: Seq<char>) -> Seq<char> {
    "Could not save calibration: "@ + e
}

fn note_save_error(e: &String) -> (r: String)
    ensures
        r@ == save_error(e@),
{
    let mut s = "Could not save calibration: ".to_string();
    s.append(e.as_str());
    s
}

impl OutcomeView {
    /// Nothing came of it yet.
    pub open spec fn empty() -> OutcomeView {
        OutcomeView {
            retained_cpu: None,
            retained_gpu: None,
            changes: Seq::empty(),
            notes: Seq::empty(),
            errors: Seq::empty(),
            applied: false,
            saved: false,
        }
    }

    /// An outcome, begun if there is none.
    pub open spec fn of(o: Option<OutcomeView>) -> OutcomeView {
        match o {
            Some(x) => x,
            None => OutcomeView::empty(),
        }
    }

    /// With a note.
    pub open spec fn noted(self, t: Seq<char>) -> OutcomeView {
        OutcomeView { notes: self.notes.push(t), ..self }
    }

    /// With an error.
    pub open spec fn failed(self, t: Seq<char>) -> OutcomeView {
        OutcomeView { errors: self.errors.push(t), ..self }
    }
}

impl CalibOutcome {
    /// Nothing came of it yet.
    pub fn new() -> (r: CalibOutcome)
        ensures
            r@ == OutcomeView::empty(),
    {
        let r = CalibOutcome {
            retained_cpu: None,
            retained_gpu: None,
            changes: Vec::new(),
            notes: Vec::new(),
            errors: Vec::new(),
            applied: false,
            saved: false,
        };
        assert(texts(r.notes@) =~= Seq::empty());
        assert(texts(r.errors@) =~= Seq::empty());
        r
    }

    fn note(&mut self, t: String)
        ensures
            final(self)@ == old(self)@.noted(t@),
    {
        self.notes.push(t);
        assert(texts(self.notes@) =~= texts(old(self).notes@).push(t@));
    }

    fn fail(&mut self, t: String)
        ensures
            final(self)@ == old(self)@.failed(t@),
    {
        self.errors.push(t);
        assert(texts(self.errors@) =~= texts(old(self).errors@).push(t@));
    }
}

/// The outcome there is, or one that is begun.
fn begun(o: Option<CalibOutcome>) -> (r: CalibOutcome)
    ensures
        r@ == OutcomeView::of(crate::controller::panel::outcome(o)),
{
    match o {
        Some(x) => x,
        None => CalibOutcome::new(),
    }
}

/// A device's fitted gains under a view, or the plant's.
pub open spec fn gains_before<U: DeviceUnit>(table: Map<Seq<char>, Gains>, view: Option<FanctrlView>) -> Gains {
    match view {
        Some(v) => resolved_gains::<U>(
            None,
            entry(table, gain_key(v.strategy@, v.ma_interval)),
            v.ma_interval,
        ).0,
        None => resolved_gains::<U>(None, None, DEFAULT_MA_INTERVAL).0,
    }
}

fn old_gains<U: DeviceUnit>(table: &Table<Gains>, view: &Option<FanctrlView>) -> (r: Gains)
    requires
        table.wf(),
    ensures
        r == gains_before::<U>(table@, *view),
{
    match view {
        Some(v) => {
            let key = gains_key(&v.strategy, v.ma_interval);
            resolve_gains::<U>(None, table.get(&key), v.ma_interval).0
        },
        None => resolve_gains::<U>(None, None, DEFAULT_MA_INTERVAL).0,
    }
}

impl Model {
    /// With the gains in force noted, before the first step under a view.
    #[verifier::opaque]
    pub open spec fn retaining(self, view: Option<FanctrlView>) -> Model {
        match (self.outcome, view) {
            (Some(o), Some(v)) => {
                let key = gain_key(v.strategy@, v.ma_interval);
                let cpu = resolved_gains::<W>(
                    self.config.cpu_gains,
                    entry(self.store.cpu_gains, key),
                    v.ma_interval,
                ).0;
                let gpu = resolved_gains::<Mhz>(
                    self.config.gpu_gains,
                    entry(self.store.gpu_gains, key),
                    v.ma_interval,
                ).0;
                Model {
                    outcome: Some(
                        OutcomeView {
                            retained_cpu: match o.retained_cpu {
                                Some(g) => Some(g),
                                None => Some(cpu),
                            },
                            retained_gpu: match o.retained_gpu {
                                Some(g) => Some(g),
                                None => Some(gpu),
                            },
                            ..o
                        },
                    ),
                    ..self
                }
            },
            _ => self,
        }
    }

    /// With a device fitted.
    #[verifier::opaque]
    pub open spec fn fitting(self, device: Device, gains: Gains, view: Option<FanctrlView>) -> Model {
        let before = match device {
            Device::Cpu => gains_before::<W>(self.store.cpu_gains, view),
            Device::Gpu => gains_before::<Mhz>(self.store.gpu_gains, view),
        };
        let overridden = match device {
            Device::Cpu => self.config.cpu_gains is Some,
            Device::Gpu => self.config.gpu_gains is Some,
        };
        let o = OutcomeView::of(self.outcome);
        let changed = OutcomeView {
            changes: o.changes.push(CalibGainChange { device, before, after: gains }),
            ..o
        };
        Model {
            outcome: Some(
                if overridden {
                    changed.noted(override_note(device))
                } else {
                    changed
                },
            ),
            ..self
        }
    }

    /// With the results kept.
    #[verifier::opaque]
    pub open spec fn keeping(self, save: CalibSave, error: Option<String>, view: Option<FanctrlView>) -> Model {
        let store = StoreView {
            cpu_gains: save.cpu_gains@,
            gpu_gains: save.gpu_gains@,
            calibrated_at: crate::controller::panel::text(save.calibrated_at),
            ..self.store
        };
        let o = OutcomeView {
            applied: true,
            saved: error is None,
            ..OutcomeView::of(self.outcome)
        };
        Model {
            store,
            board: self.board.set(StatusFlag::NotCalibrated, !fitted(store, view)),
            outcome: Some(
                match error {
                    Some(e) => o.failed(save_error(e@)),
                    None => o,
                },
            ),
            ..self
        }
    }

    /// With one step done.
    pub open spec fn stepped(self, step: CalibStep, view: Option<FanctrlView>) -> Model {
        match step {
            CalibStep::Cpu(reply) => Model {
                bench: self.bench.cpu_written(reply),
                core: match reply {
                    CpuReply::Written { verdict: WriteVerdict::Verified(w), .. } => {
                        self.core.limiting_cpu(Some(w))
                    },
                    _ => self.core,
                },
                ..self
            },
            CalibStep::Gpu(reply) => Model {
                bench: self.bench.gpu_locked(reply),
                core: match reply {
                    GpuReply::Locked { applied, .. } => self.core.limiting_gpu(applied),
                    _ => self.core,
                },
                ..self
            },
            CalibStep::Burner => self,
            CalibStep::Fitted { device, gains } => self.fitting(device, gains, view),
            CalibStep::Retrying(reason) => Model {
                outcome: Some(OutcomeView::of(self.outcome).noted(reason@)),
                ..self
            },
            CalibStep::Noted(reason) => Model {
                outcome: Some(OutcomeView::of(self.outcome).failed(reason@)),
                ..self
            },
            CalibStep::Saved { save, error } => self.keeping(save, error, view),
            CalibStep::Finished => self,
        }
    }

    /// With a batch of steps done.
    pub open spec fn all_stepped(self, steps: Seq<CalibStep>, view: Option<FanctrlView>) -> Model
        decreases steps.len(),
    {
        if steps.len() == 0 {
            self
        } else {
            self.all_stepped(steps.drop_last(), view).stepped(steps.last(), view)
        }
    }

    /// The calibration over: a session that it suspended takes over again,
    /// after one sample that only restarts its windows.
    #[verifier::opaque]
    pub open spec fn calibration_ended(self) -> Model {
        let back = self.core.from_auto && self.auto is Some;
        Model {
            auto: if back {
                Some(
                    self.auto->0.returned(
                        self.core.limits.cpu_limit_w,
                        self.core.limits.gpu_max_mhz,
                    ),
                )
            } else {
                self.auto
            },
            core: Core {
                limits: Limits {
                    mode: if back {
                        Mode::Auto
                    } else {
                        Mode::Monitor
                    },
                    ..self.core.limits
                },
                calibrating: false,
                from_auto: false,
                reentry_hold: back,
                ..self.core
            },
            bench: BenchView::empty(),
            calib: None,
            orders: {
                let dropped = self.orders.push(Order::StopBurner).push(Order::DropCalibVerifier);
                if back {
                    dropped.push(Order::DropVerifier)
                } else {
                    dropped
                }
            },
            ..self
        }
    }

    /// With what a runner wanted done.
    #[verifier::opaque]
    pub open spec fn calibrated(self, steps: Seq<CalibStep>, view: Option<FanctrlView>) -> Model {
        let m = self.retaining(view).all_stepped(steps, view);
        if tally(steps).ended {
            m.calibration_ended()
        } else {
            m
        }
    }
}

/// The tables of a step are in order.
pub open spec fn step_wf(step: CalibStep) -> bool {
    step matches CalibStep::Saved { save, .. } ==> save.cpu_gains.wf() && save.gpu_gains.wf()
}

impl Model {
    /// The cap in mW that is written for a runner, or how it goes without a
    /// write.
    pub open spec fn runner_cap(self, w: Num, fenced: bool) -> Result<u32, CpuReply> {
        if fenced {
            Err(CpuReply::Fenced)
        } else if !self.rig.cpu {
            Err(CpuReply::NoActuator)
        } else {
            Ok(milliwatts(w))
        }
    }

    /// The clock in MHz that is locked for a runner, or how it goes without a
    /// lock.
    pub open spec fn runner_clock(self, mhz: u32, fenced: bool) -> Result<u32, GpuReply> {
        if fenced {
            Err(GpuReply::Fenced)
        } else if !self.rig.gpu {
            Err(GpuReply::NoActuator)
        } else {
            Ok(mhz)
        }
    }
}

impl Controller {
    /// The cap in mW to write for a runner that wants so many watts, or what
    /// to reply without a write. `fenced` tells whether the machine shuts
    /// down.
    pub fn cap_for_runner(&self, w: Num, fenced: bool) -> (r: Result<u32, CpuReply>)
        ensures
            r == self@.runner_cap(w, fenced),
    {
        if fenced {
            Err(CpuReply::Fenced)
        } else if !self.rig.cpu {
            Err(CpuReply::NoActuator)
        } else {
            Ok(in_milliwatts(w))
        }
    }

    /// The clock in MHz to lock for a runner, or what to reply without a
    /// lock.
    pub fn clock_for_runner(&self, mhz: u32, fenced: bool) -> (r: Result<u32, GpuReply>)
        ensures
            r == self@.runner_clock(mhz, fenced),
    {
        if fenced {
            Err(GpuReply::Fenced)
        } else if !self.rig.gpu {
            Err(GpuReply::NoActuator)
        } else {
            Ok(mhz)
        }
    }

    fn retain_gains(&mut self, view: &Option<FanctrlView>)
        requires
            old(self).sound(),
        ensures
            final(self)@ == old(self)@.retaining(*view),
            final(self).sound(),
            final(self)@.core == old(self)@.core && final(self)@.auto == old(self)@.auto,
    {
        proof {
            reveal(Model::retaining);
        }
        if let Some(v) = view {
            if let Some(mut o) = self.calib_outcome.take() {
                let key = gains_key(&v.strategy, v.ma_interval);
                let (cpu, _) = resolve_gains::<W>(
                    self.config.cpu_gains,
                    self.store.cpu_gains.get(&key),
                    v.ma_interval,
                );
                let (gpu, _) = resolve_gains::<Mhz>(
                    self.config.gpu_gains,
                    self.store.gpu_gains.get(&key),
                    v.ma_interval,
                );
                if o.retained_cpu.is_none() {
                    o.retained_cpu = Some(cpu);
                }
                if o.retained_gpu.is_none() {
                    o.retained_gpu = Some(gpu);
                }
                self.calib_outcome = Some(o);
            }
        }
    }

    fn note_fit(&mut self, device: Device, gains: Gains, view: &Option<FanctrlView>)
        requires
            old(self).sound(),
        ensures
            final(self)@ == old(self)@.fitting(device, gains, *view),
            final(self).sound(),
            final(self)@.core == old(self)@.core && final(self)@.auto == old(self)@.auto,
    {
        proof {
            reveal(Model::fitting);
        }
        let before = match device {
            Device::Cpu => old_gains::<W>(&self.store.cpu_gains, view),
            Device::Gpu => old_gains::<Mhz>(&self.store.gpu_gains, view),
        };
        let overridden = match device {
            Device::Cpu => self.config.cpu_gains.is_some(),
            Device::Gpu => self.config.gpu_gains.is_some(),
        };
        let mut o = begun(self.calib_outcome.take());
        o.changes.push(CalibGainChange { device, before, after: gains });
        if overridden {
            o.note(note_override(device));
        }
        self.calib_outcome = Some(o);
    }

    fn keep(&mut self, save: &CalibSave, error: &Option<String>, view: &Option<FanctrlView>)
        requires
            old(self).sound(),
            save.cpu_gains.wf(),
            save.gpu_gains.wf(),
        ensures
            final(self)@ == old(self)@.keeping(*save, *error, *view),
            final(self).sound(),
            final(self)@.core == old(self)@.core && final(self)@.auto == old(self)@.auto,
    {
        proof {
            reveal(Model::keeping);
        }
        self.store.calibrated_at =
        match &save.calibrated_at {
            Some(t) => Some(t.clone()),
            None => None,
        };
        self.store.cpu_gains = save.cpu_gains.copy();
        self.store.gpu_gains = save.gpu_gains.copy();
        let known = is_fitted(&self.store, view);
        self.board.sync_bool_flag(StatusFlag::NotCalibrated, !known);
        let mut o = begun(self.calib_outcome.take());
        o.applied = true;
        o.saved = error.is_none();
        if let Some(e) = error {
            o.fail(note_save_error(e));
        }
        self.calib_outcome = Some(o);
    }

    fn step_calibration(&mut self, step: &CalibStep, view: &Option<FanctrlView>)
        requires
            old(self).sound(),
            step_wf(*step),
        ensures
            final(self)@ == old(self)@.stepped(*step, *view),
            final(self).sound(),
            final(self)@.core.limits.mode == old(self)@.core.limits.mode,
            final(self)@.core.calibrating == old(self)@.core.calibrating,
            final(self)@.auto == old(self)@.auto,
    {
        match step {
            CalibStep::Cpu(reply) => {
                self.bench.take_cpu(*reply);
                if let CpuReply::Written { verdict: WriteVerdict::Verified(w), .. } = *reply {
                    self.core.limits.cpu_limit_w = Some(w);
                }
            },
            CalibStep::Gpu(reply) => {
                self.bench.take_gpu(*reply);
                if let GpuReply::Locked { applied, .. } = *reply {
                    self.core.limits.gpu_max_mhz = applied;
                }
            },
            CalibStep::Burner => {},
            CalibStep::Fitted { device, gains } => {
                self.note_fit(*device, *gains, view);
            },
            CalibStep::Retrying(reason) => {
                let mut o = begun(self.calib_outcome.take());
                o.note(reason.clone());
                self.calib_outcome = Some(o);
            },
            CalibStep::Noted(reason) => {
                let mut o = begun(self.calib_outcome.take());
                o.fail(reason.clone());
                self.calib_outcome = Some(o);
            },
            CalibStep::Saved { save, error } => {
                self.keep(save, error, view);
            },
            CalibStep::Finished => {},
        }
    }

    /// Ends a calibration.
    pub(crate) fn end_calibration(&mut self)
        requires
            old(self).sound(),
        ensures
            final(self)@ == old(self)@.calibration_ended(),
            final(self).wf(),
            !final(self)@.core.calibrating,
    {
        proof {
            reveal(Model::calibration_ended);
        }
        self.orders.push(Order::StopBurner);
        self.orders.push(Order::DropCalibVerifier);
        self.bench = Bench::new();
        self.calib = None;
        let back = self.core.from_auto && self.auto.is_some();
        if back {
            if let Some(auto) = &mut self.auto {
                auto.come_back(self.core.limits.cpu_limit_w, self.core.limits.gpu_max_mhz);
            }
            self.orders.push(Order::DropVerifier);
        }
        self.core =
        Core {
            limits: Limits {
                mode: if back {
                    Mode::Auto
                } else {
                    Mode::Monitor
                },
                ..self.core.limits
            },
            calibrating: false,
            from_auto: false,
            reentry_hold: back,
            ..self.core
        };
    }

    /// Takes in what a runner wanted done; the loudest cause of it.
    pub fn apply_calib_effects(&mut self, steps: &Vec<CalibStep>, view: &Option<FanctrlView>) -> (r: Option<
        Cause,
    >)
        requires
            old(self).wf(),
            forall|i: int| 0 <= i < steps@.len() ==> step_wf(#[trigger] steps@[i]),
        ensures
            final(self)@ == old(self)@.calibrated(steps@, *view),
            r == tally(steps@).cause,
            final(self).wf(),
    {
        proof {
            reveal(Model::calibrated);
        }
        self.retain_gains(view);
        let ghost start = self@;
        let mut t = Tally { cause: None, ended: false };
        let mut i: usize = 0;
        while i < steps.len()
            invariant
                i <= steps@.len(),
                self.sound(),
                self@ == start.all_stepped(steps@.take(i as int), *view),
                t == tally(steps@.take(i as int)),
                self@.core.limits.mode == start.core.limits.mode,
                self@.core.calibrating == start.core.calibrating,
                self@.auto == start.auto,
                forall|j: int| 0 <= j < steps@.len() ==> step_wf(#[trigger] steps@[j]),
            decreases steps@.len() - i,
        {
            proof {
                let next = steps@.take(i + 1);
                assert(next.drop_last() =~= steps@.take(i as int));
                assert(next.last() == steps@[i as int]);
            }
            self.step_calibration(&steps[i], view);
            t = count(t, &steps[i]);
            i += 1;
        }
        assert(steps@.take(steps@.len() as int) =~= steps@);
        if t.ended {
            self.end_calibration();
        }
        t.cause
    }
}

/// Only what a runner verified becomes the CPU's limit: any other write leaves
/// it as it was, and unverified.
pub proof fn lemma_unverified_write_sets_nothing(m: Model, verdict: WriteVerdict, done: Option<Num>, view: Option<FanctrlView>)
    requires
        !(verdict is Verified),
    ensures
        ({
            let after = m.stepped(CalibStep::Cpu(CpuReply::Written { verdict, done }), view);
            &&& after.core == m.core
            &&& !after.bench.facts.cpu_verified
            &&& after.bench.facts.cpu_completed_at == m.bench.facts.cpu_completed_at
        }),
{
    reveal(BenchView::cpu_written);
}

/// A calibration that suspended a session gives it back with its loops'
/// candidates as they were, and holds the next sample; any other returns to
/// monitoring.
pub proof fn lemma_calibration_returns(m: Model)
    ensures
        ({
            let after = m.calibration_ended();
            &&& !after.core.calibrating && after.calib is None
            &&& after.outcome == m.outcome
            &&& after.core.limits.cpu_limit_w == m.core.limits.cpu_limit_w
            &&& after.core.limits.gpu_max_mhz == m.core.limits.gpu_max_mhz
            &&& m.core.from_auto && m.auto is Some ==> {
                &&& after.core.limits.mode == Mode::Auto
                &&& after.core.reentry_hold
                &&& after.auto is Some
                &&& after.auto->0.cpu.state.thermal == m.auto->0.cpu.state.thermal
                &&& after.auto->0.cpu.state.requested == m.auto->0.cpu.state.requested
                &&& after.auto->0.gpu.state.thermal == m.auto->0.gpu.state.thermal
                &&& after.auto->0.gpu.state.requested == m.auto->0.gpu.state.requested
            }
            &&& !m.core.from_auto ==> after.core.limits.mode == Mode::Monitor && !after.core.reentry_hold
        }),
{
    reveal(Model::calibration_ended);
    reveal(crate::controller::auto::AutoView::returned);
    reveal(crate::controller::lane::LaneView::told);
    reveal(crate::controller::lane::LaneView::unwritten);
    reveal(crate::controller::lane::LaneView::unproven);
}

} // verus!
