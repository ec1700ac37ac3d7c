//! How a closed-loop sample's decisions reach the actuators.

use crate::budget::{warm_key, WarmStart};
use crate::controller::auto::{AutoState, AutoView};
use crate::controller::between::{
    lemma_after_cpu_reports, lemma_after_gpu_reports, lemma_after_lock_reports,
};
use crate::controller::config::{in_milliwatts, milliwatts};
use crate::controller::drive::Decisions;
use crate::controller::effect::{Cause, Effect};
use crate::controller::machine::{Controller, Model, Store, StoreView};
use crate::controller::plain::{LockReply, Next, Order, CAP_BAND_W};
use crate::controller::report::Device;
use crate::controller::steady::{Lesson, SteadyFacts};
use crate::controller::upkeep::{cause_of_verdict, sync_verdict_flags, synced, verdict_cause};
use crate::controller::verdict::{VerdictOutcome, WriteVerdict};
use crate::device_loop::DeviceDecision;
use crate::num::Num;
use crate::types::Sample;
use vstd::prelude::*;

verus! {

impl AutoView {
    /// With a CPU write taken in: the loop learns of a verified cap.
    #[verifier::opaque]
    pub open spec fn cpu_written(self, verdict: WriteVerdict, done: Num, t_mono: Num) -> AutoView {
        let told = match verdict {
            WriteVerdict::Verified(w) => self.cpu.told(w),
            _ => self.cpu,
        };
        AutoView {
            cpu: told.written(done).seen(verdict, self.session.suppressed(t_mono)),
            ..self
        }
    }

    /// The outcome of a CPU write.
    pub open spec fn cpu_outcome(self, verdict: WriteVerdict, t_mono: Num) -> VerdictOutcome {
        self.cpu.facts.verdict.observed(verdict, self.session.suppressed(t_mono)).1
    }

    /// With the GPU's clock held against the commands so far.
    #[verifier::opaque]
    pub open spec fn gpu_judged(self, verdict: WriteVerdict, t_mono: Num) -> AutoView {
        AutoView { gpu: self.gpu.seen(verdict, self.session.suppressed(t_mono)), ..self }
    }

    /// The outcome of that.
    pub open spec fn gpu_outcome(self, verdict: WriteVerdict, t_mono: Num) -> VerdictOutcome {
        self.gpu.facts.verdict.observed(verdict, self.session.suppressed(t_mono)).1
    }
}

impl AutoState {
    fn take_cpu_write(&mut self, verdict: WriteVerdict, done: Num, t_mono: Num) -> (r: VerdictOutcome)
        requires
            old(self)@.wf(),
        ensures
            final(self)@ == old(self)@.cpu_written(verdict, done, t_mono),
            r == old(self)@.cpu_outcome(verdict, t_mono),
            final(self)@.wf(),
    {
        proof {
            reveal(AutoView::cpu_written);
        }
        let suppress = self.session.is_suppressed(t_mono);
        if let WriteVerdict::Verified(value) = verdict {
            self.cpu.tell(value);
        }
        self.cpu.note_write(done);
        self.cpu.observe(verdict, suppress)
    }

    fn judge_gpu(&mut self, verdict: WriteVerdict, t_mono: Num) -> (r: VerdictOutcome)
        ensures
            final(self)@ == old(self)@.gpu_judged(verdict, t_mono),
            r == old(self)@.gpu_outcome(verdict, t_mono),
            old(self)@.wf() ==> final(self)@.wf(),
    {
        proof {
            reveal(AutoView::gpu_judged);
        }
        let suppress = self.session.is_suppressed(t_mono);
        self.gpu.observe(verdict, suppress)
    }
}

/// The GPU's clock in whole MHz.
pub open spec fn clock_of(cap: Num) -> u32 {
    cap.rounded().whole()
}

/// The store with a pair recorded.
#[verifier::opaque]
pub open spec fn taught(store: StoreView, s: Sample, duty: u8, lesson: Lesson) -> StoreView {
    match (lesson.warm, s.fanctrl) {
        (Some(pair), Some(v)) => StoreView {
            warm: store.warm.insert(warm_key(v.strategy@, duty, s.on_ac), pair),
            ..store
        },
        _ => store,
    }
}

fn teach(store: &mut Store, s: &Sample, duty: u8, lesson: &Lesson)
    requires
        old(store).wf(),
    ensures
        final(store)@ == taught(old(store)@, *s, duty, *lesson),
        final(store).wf(),
{
    proof {
        reveal(taught);
    }
    if let Some(pair) = lesson.warm {
        if let Some(view) = &s.fanctrl {
            store.warm.insert(WarmStart::key(view.strategy.as_str(), duty, s.on_ac), pair);
        }
    }
}

impl Model {
    /// The CPU's cap is to be written: at once if the loop says so; else
    /// when a write is due and the cap is another, or its read-back is in
    /// trouble.
    pub open spec fn writes_cpu(self, a: AutoView, d: DeviceDecision, t_mono: Num) -> bool {
        let changed = match self.core.limits.cpu_limit_w {
            None => true,
            Some(applied) => Num(CAP_BAND_W).lt(applied.minus(d.cap).size()),
        };
        d.write_allowed && (d.write_immediately || (a.cpu.due(t_mono) && (changed
            || a.cpu.facts.verdict.episode())))
    }

    /// The GPU's clock is to be locked.
    pub open spec fn locks_gpu(self, a: AutoView, d: DeviceDecision, t_mono: Num, corrective: bool) -> bool {
        d.write_allowed && (d.write_immediately || corrective || (a.gpu.due(t_mono)
            && self.core.limits.gpu_max_mhz != Some(clock_of(d.cap))))
    }

    /// With a verdict's outcome reported.
    #[verifier::opaque]
    pub open spec fn outspoken(self, device: Device, o: VerdictOutcome) -> Model {
        let m = match verdict_cause(device, o) {
            Some(cause) => self.with_effect(Effect::Noted { cause }).because(cause),
            None => self,
        };
        Model { board: synced(self.board, self.auto), ..m }
    }

    /// With a CPU write taken in.
    #[verifier::opaque]
    pub open spec fn cpu_settled(self, verdict: WriteVerdict, done: Num, t_mono: Num) -> Model {
        let a = self.auto->0;
        let o = a.cpu_outcome(verdict, t_mono);
        let m = Model { auto: Some(a.cpu_written(verdict, done, t_mono)), ..self };
        let limited = match verdict {
            WriteVerdict::Verified(w) => Model {
                core: self.core.limiting_cpu(Some(w)),
                ..m.with_effect(Effect::CpuSet(w))
            },
            _ => m,
        };
        let held = if o == VerdictOutcome::Released {
            Model { core: limited.core.limiting_cpu(None), ..limited.ordering(Order::RestoreCpu) }
        } else {
            limited
        };
        held.outspoken(Device::Cpu, o)
    }

    /// With the GPU's clock held against the commands so far.
    #[verifier::opaque]
    pub open spec fn gpu_settled(self, verdict: WriteVerdict, t_mono: Num) -> Model {
        let a = self.auto->0;
        let o = a.gpu_outcome(verdict, t_mono);
        let m = Model { auto: Some(a.gpu_judged(verdict, t_mono)), ..self };
        let held = if o == VerdictOutcome::Released {
            Model {
                core: self.core.limiting_gpu(None),
                orders: if self.rig.gpu {
                    self.orders.push(Order::ReleaseGpu)
                } else {
                    self.orders
                },
                ..m
            }
        } else {
            m
        };
        held.outspoken(Device::Gpu, o)
    }

    /// With a GPU lock taken in.
    #[verifier::opaque]
    pub open spec fn gpu_locked(self, mhz: u32, reply: LockReply, done: Num) -> Model {
        let m = Model { auto: Some(self.auto->0.relocked(mhz, reply, done)), ..self };
        match reply {
            LockReply::Failed => m,
            LockReply::Locked(applied) => {
                let clock = match applied {
                    Some(a) => a,
                    None => mhz,
                };
                Model {
                    core: self.core.limiting_gpu(Some(clock)),
                    ..m.with_effect(Effect::GpuSet(clock))
                }
            },
        }
    }

    /// What the steady windows look at.
    pub open spec fn steady_facts(self, d: Decisions) -> SteadyFacts {
        SteadyFacts {
            decisions: d,
            t_star: self.readout.gauges.t_star_c,
            target_duty: self.run.pass.target_duty,
            target_rpm: self.run.pass.target_rpm,
            cpu_limit_w: self.core.limits.cpu_limit_w,
            gpu_max_mhz: self.core.limits.gpu_max_mhz,
        }
    }

    /// With the sample's lesson learned.
    #[verifier::opaque]
    pub open spec fn learned(self, s: Sample, d: Decisions) -> Model {
        let a = self.auto->0;
        let f = self.steady_facts(d);
        let lesson = a.lesson(s, f);
        let refined = match lesson.refine {
            Some(rpm) => self.orders.push(Order::RefineDuty { duty: f.target_duty, rpm }),
            None => self.orders,
        };
        Model {
            auto: Some(a.learned(s, f)),
            store: taught(self.store, s, f.target_duty, lesson),
            orders: if lesson.refine is Some || lesson.warm is Some {
                refined.push(Order::SaveState)
            } else {
                refined
            },
            ..self
        }
    }

    /// After the writes of a sample.
    #[verifier::opaque]
    pub open spec fn settled(self, s: Sample, fenced: bool) -> (Model, Next) {
        match (self.auto, self.run.pass.decisions) {
            (Some(_), Some(d)) => self.because(Cause::DeviceLoops).learned(s, d).measured(
                s,
                fenced,
            ),
            _ => self.measured(s, fenced),
        }
    }

    /// After the GPU's clock was held against the commands so far, or could
    /// not be.
    #[verifier::opaque]
    pub open spec fn locking(self, s: Sample, o: VerdictOutcome, fenced: bool) -> (Model, Next) {
        match (self.auto, self.run.pass.decisions) {
            (Some(a), Some(d)) => if o != VerdictOutcome::Released && self.locks_gpu(
                a,
                d.gpu,
                s.t_mono,
                o == VerdictOutcome::Mismatch,
            ) && !fenced && self.rig.gpu {
                (self, Next::LockGpu { mhz: clock_of(d.gpu.cap) })
            } else {
                self.settled(s, fenced)
            },
            _ => self.settled(s, fenced),
        }
    }

    /// After the CPU's write.
    #[verifier::opaque]
    pub open spec fn verifying(self, s: Sample, fenced: bool) -> (Model, Next) {
        match (self.auto, self.run.pass.decisions) {
            (Some(_), Some(d)) => if s.gpu_mhz_valid && !s.resumed {
                (self, Next::VerifyGpu { requested: clock_of(d.gpu.cap) })
            } else {
                self.locking(s, VerdictOutcome::Quiet, fenced)
            },
            _ => self.settled(s, fenced),
        }
    }

    /// After the decisions.
    #[verifier::opaque]
    pub open spec fn writing(self, s: Sample, fenced: bool) -> (Model, Next) {
        match (self.auto, self.run.pass.decisions) {
            (Some(a), Some(d)) => if self.writes_cpu(a, d.cpu, s.t_mono) && !fenced && self.rig.cpu {
                (self, Next::WriteCpu { mw: milliwatts(d.cpu.cap), retry: false })
            } else {
                self.verifying(s, fenced)
            },
            _ => self.settled(s, fenced),
        }
    }

    /// After a CPU write: a mismatch is written and read once more, unless
    /// read-backs prove nothing now.
    #[verifier::opaque]
    pub open spec fn after_cpu(
        self,
        s: Sample,
        verdict: WriteVerdict,
        done: Num,
        retry: bool,
        fenced: bool,
    ) -> (Model, Next) {
        match (self.auto, self.run.pass.decisions) {
            (Some(a), Some(d)) => if verdict is Mismatch && !retry && !a.session.suppressed(
                s.t_mono,
            ) && !fenced {
                (self, Next::WriteCpu { mw: milliwatts(d.cpu.cap), retry: true })
            } else {
                self.cpu_settled(verdict, done, s.t_mono).verifying(s, fenced)
            },
            _ => self.settled(s, fenced),
        }
    }

    /// After the GPU's clock was held against the commands.
    #[verifier::opaque]
    pub open spec fn after_gpu(self, s: Sample, verdict: WriteVerdict, fenced: bool) -> (Model, Next) {
        match self.auto {
            Some(a) => self.gpu_settled(verdict, s.t_mono).locking(
                s,
                a.gpu_outcome(verdict, s.t_mono),
                fenced,
            ),
            None => self.settled(s, fenced),
        }
    }

    /// After a GPU lock.
    #[verifier::opaque]
    pub open spec fn after_lock(self, s: Sample, reply: LockReply, done: Num, fenced: bool) -> (Model, Next) {
        match (self.auto, self.run.pass.decisions) {
            (Some(_), Some(d)) => self.gpu_locked(clock_of(d.gpu.cap), reply, done).settled(
                s,
                fenced,
            ),
            _ => self.settled(s, fenced),
        }
    }
}

impl Controller {
    fn speak_out(&mut self, device: Device, o: VerdictOutcome)
        ensures
            final(self)@ == old(self)@.outspoken(device, o),
            old(self).wf() ==> final(self).wf(),
            final(self)@.auto == old(self)@.auto,
            final(self)@.run.pass == old(self)@.run.pass,
    {
        proof {
            reveal(Model::outspoken);
        }
        if let Some(cause) = cause_of_verdict(device, o) {
            self.run.effects.push(Effect::Noted { cause });
            self.claim(cause);
        }
        sync_verdict_flags(&mut self.board, &self.auto);
    }

    fn settle_cpu(&mut self, verdict: WriteVerdict, done: Num, t_mono: Num)
        requires
            old(self).wf(),
            old(self)@.auto is Some,
        ensures
            final(self)@ == old(self)@.cpu_settled(verdict, done, t_mono),
            final(self).wf(),
    {
        proof {
            reveal(Model::cpu_settled);
        }
        let o = match &mut self.auto {
            Some(auto) => auto.take_cpu_write(verdict, done, t_mono),
            None => VerdictOutcome::Quiet,
        };
        if let WriteVerdict::Verified(value) = verdict {
            self.core.limits.cpu_limit_w = Some(value);
            self.run.effects.push(Effect::CpuSet(value));
        }
        if o == VerdictOutcome::Released {
            self.orders.push(Order::RestoreCpu);
            self.core.limits.cpu_limit_w = None;
        }
        self.speak_out(Device::Cpu, o);
    }

    fn settle_gpu(&mut self, verdict: WriteVerdict, t_mono: Num) -> (r: VerdictOutcome)
        requires
            old(self).wf(),
            old(self)@.auto is Some,
        ensures
            final(self)@ == old(self)@.gpu_settled(verdict, t_mono),
            r == old(self)@.auto->0.gpu_outcome(verdict, t_mono),
            final(self).wf(),
    {
        proof {
            reveal(Model::gpu_settled);
        }
        let o = match &mut self.auto {
            Some(auto) => auto.judge_gpu(verdict, t_mono),
            None => VerdictOutcome::Quiet,
        };
        if o == VerdictOutcome::Released {
            if self.rig.gpu {
                self.orders.push(Order::ReleaseGpu);
            }
            self.core.limits.gpu_max_mhz = None;
        }
        self.speak_out(Device::Gpu, o);
        o
    }

    fn settle_lock(&mut self, mhz: u32, reply: LockReply, done: Num)
        requires
            old(self).wf(),
            old(self)@.auto is Some,
        ensures
            final(self)@ == old(self)@.gpu_locked(mhz, reply, done),
            final(self).wf(),
    {
        proof {
            reveal(Model::gpu_locked);
        }
        if let Some(auto) = &mut self.auto {
            auto.relock(mhz, reply, done);
        }
        if let LockReply::Locked(applied) = reply {
            let clock = match applied {
                Some(a) => a,
                None => mhz,
            };
            self.core.limits.gpu_max_mhz = Some(clock);
            self.run.effects.push(Effect::GpuSet(clock));
        }
    }

    fn learn(&mut self, s: &Sample, d: Decisions)
        requires
            old(self).wf(),
            old(self)@.auto is Some,
        ensures
            final(self)@ == old(self)@.learned(*s, d),
            final(self).wf(),
    {
        proof {
            reveal(Model::learned);
        }
        let f = SteadyFacts {
            decisions: d,
            t_star: self.readout.gauges.t_star_c,
            target_duty: self.run.pass.target_duty,
            target_rpm: self.run.pass.target_rpm,
            cpu_limit_w: self.core.limits.cpu_limit_w,
            gpu_max_mhz: self.core.limits.gpu_max_mhz,
        };
        let lesson = match &mut self.auto {
            Some(auto) => auto.observe_steady(s, &f),
            None => Lesson { refine: None, warm: None },
        };
        if let Some(rpm) = lesson.refine {
            self.orders.push(Order::RefineDuty { duty: f.target_duty, rpm });
        }
        teach(&mut self.store, s, f.target_duty, &lesson);
        if lesson.refine.is_some() || lesson.warm.is_some() {
            self.orders.push(Order::SaveState);
        }
    }

    fn settle(&mut self, s: &Sample, fenced: bool) -> (r: Next)
        requires
            old(self).wf(),
        ensures
            final(self)@ == old(self)@.settled(*s, fenced).0,
            r == old(self)@.settled(*s, fenced).1,
            final(self).wf(),
    {
        proof {
            reveal(Model::settled);
        }
        if self.auto.is_some() {
            if let Some(d) = self.run.pass.decisions {
                self.claim(Cause::DeviceLoops);
                self.learn(s, d);
            }
        }
        self.measure(s, fenced)
    }

    fn try_lock(&mut self, s: &Sample, o: VerdictOutcome, fenced: bool) -> (r: Next)
        requires
            old(self).wf(),
        ensures
            final(self)@ == old(self)@.locking(*s, o, fenced).0,
            r == old(self)@.locking(*s, o, fenced).1,
            final(self).wf(),
    {
        proof {
            reveal(Model::locking);
        }
        if let Some(auto) = &self.auto {
            if let Some(d) = self.run.pass.decisions {
                let requested = d.gpu.cap.round().to_u32();
                let changed = self.core.limits.gpu_max_mhz != Some(requested);
                if d.gpu.write_allowed && o != VerdictOutcome::Released && (d.gpu.write_immediately
                    || o == VerdictOutcome::Mismatch || (auto.gpu.is_due(s.t_mono) && changed))
                    && !fenced && self.rig.gpu {
                    return Next::LockGpu { mhz: requested };
                }
            }
        }
        self.settle(s, fenced)
    }

    fn verify_gpu(&mut self, s: &Sample, fenced: bool) -> (r: Next)
        requires
            old(self).wf(),
        ensures
            final(self)@ == old(self)@.verifying(*s, fenced).0,
            r == old(self)@.verifying(*s, fenced).1,
            final(self).wf(),
    {
        proof {
            reveal(Model::verifying);
        }
        if self.auto.is_some() {
            if let Some(d) = self.run.pass.decisions {
                if s.gpu_mhz_valid && !s.resumed {
                    return Next::VerifyGpu { requested: d.gpu.cap.round().to_u32() };
                }
                return self.try_lock(s, VerdictOutcome::Quiet, fenced);
            }
        }
        self.settle(s, fenced)
    }

    pub(crate) fn write_decisions(&mut self, s: &Sample, fenced: bool) -> (r: Next)
        requires
            old(self).wf(),
        ensures
            final(self)@ == old(self)@.writing(*s, fenced).0,
            r == old(self)@.writing(*s, fenced).1,
            final(self).wf(),
    {
        proof {
            reveal(Model::writing);
        }
        if let Some(auto) = &self.auto {
            if let Some(d) = self.run.pass.decisions {
                let changed = match self.core.limits.cpu_limit_w {
                    None => true,
                    Some(applied) => (applied - d.cpu.cap).abs() > Num(CAP_BAND_W),
                };
                if d.cpu.write_allowed && (d.cpu.write_immediately || (auto.cpu.is_due(s.t_mono) && (
                changed || auto.cpu.facts.verdict.in_episode()))) && !fenced && self.rig.cpu {
                    return Next::WriteCpu { mw: in_milliwatts(d.cpu.cap), retry: false };
                }
                return self.verify_gpu(s, fenced);
            }
        }
        self.settle(s, fenced)
    }

    /// Takes in how a CPU write went, and when it ended.
    pub fn after_cpu_write(
        &mut self,
        s: &Sample,
        verdict: WriteVerdict,
        done: Num,
        retry: bool,
        fenced: bool,
    ) -> (r: Next)
        requires
            old(self).wf(),
        ensures
            final(self)@ == old(self)@.after_cpu(*s, verdict, done, retry, fenced).0,
            r == old(self)@.after_cpu(*s, verdict, done, retry, fenced).1,
            final(self).wf(),
            r is Done ==> final(self)@.idle(),
    {
        proof {
            lemma_after_cpu_reports(old(self)@, *s, verdict, done, retry, fenced);
            reveal(Model::after_cpu);
        }
        if let Some(auto) = &self.auto {
            if let Some(d) = self.run.pass.decisions {
                let suppress = auto.session.is_suppressed(s.t_mono);
                let mismatch = match verdict {
                    WriteVerdict::Mismatch { .. } => true,
                    _ => false,
                };
                if mismatch && !retry && !suppress && !fenced {
                    return Next::WriteCpu { mw: in_milliwatts(d.cpu.cap), retry: true };
                }
                self.settle_cpu(verdict, done, s.t_mono);
                return self.verify_gpu(s, fenced);
            }
        }
        self.settle(s, fenced)
    }

    /// Takes in what holding the GPU's clock against the commands showed.
    pub fn after_gpu_verdict(&mut self, s: &Sample, verdict: WriteVerdict, fenced: bool) -> (r: Next)
        requires
            old(self).wf(),
        ensures
            final(self)@ == old(self)@.after_gpu(*s, verdict, fenced).0,
            r == old(self)@.after_gpu(*s, verdict, fenced).1,
            final(self).wf(),
            r is Done ==> final(self)@.idle(),
    {
        proof {
            lemma_after_gpu_reports(old(self)@, *s, verdict, fenced);
            reveal(Model::after_gpu);
        }
        if self.auto.is_some() {
            let o = self.settle_gpu(verdict, s.t_mono);
            return self.try_lock(s, o, fenced);
        }
        self.settle(s, fenced)
    }

    /// Takes in how a GPU lock went, and when it ended.
    pub fn after_gpu_lock(&mut self, s: &Sample, reply: LockReply, done: Num, fenced: bool) -> (r: Next)
        requires
            old(self).wf(),
        ensures
            final(self)@ == old(self)@.after_lock(*s, reply, done, fenced).0,
            r == old(self)@.after_lock(*s, reply, done, fenced).1,
            final(self).wf(),
            r is Done ==> final(self)@.idle(),
    {
        proof {
            lemma_after_lock_reports(old(self)@, *s, reply, done, fenced);
            reveal(Model::after_lock);
        }
        if self.auto.is_some() {
            if let Some(d) = self.run.pass.decisions {
                self.settle_lock(d.gpu.cap.round().to_u32(), reply, done);
            }
        }
        self.settle(s, fenced)
    }
}

} // verus!
