//! How limits in force are looked after.

use crate::controller::auto::{AutoState, AutoView};
use crate::controller::board::{Board, BoardView};
use crate::controller::config::{in_milliwatts, milliwatts};
use crate::controller::effect::{Cause, Effect};
use crate::controller::machine::{Controller, Model};
use crate::controller::plain::{
    CapCheck, Core, LockReply, Next, Order, Watch, Why, REASSERT_PERIOD_S, STICKINESS_MARGIN_W,
    STICKINESS_SAMPLES, STICKINESS_SAMPLES_STRICT,
};
use crate::controller::report::Device;
use crate::controller::verdict::{VerdictOutcome, WriteVerdict};
use crate::num::{Num, ZERO};
use crate::status::StatusFlag;
use crate::types::Sample;
use vstd::prelude::*;

verus! {

/// How looking after the limits went; each part is there if it was asked for.
#[derive(Clone, Copy, Debug)]
pub struct ReassertReply {
    /// The CPU's cap, and when that was done, s.
    pub cpu: Option<(CapCheck, Num)>,
    /// The GPU's lock, and when that was done, s.
    pub gpu: Option<(LockReply, Num)>,
}

/// The cause that a verdict's outcome gives.
pub open spec fn verdict_cause(device: Device, o: VerdictOutcome) -> Option<Cause> {
    match (device, o) {
        (_, VerdictOutcome::Quiet) => None,
        (Device::Cpu, VerdictOutcome::Recovered) => Some(Cause::CpuRecovered),
        (Device::Cpu, VerdictOutcome::Mismatch) => Some(Cause::CpuMismatch),
        (Device::Cpu, VerdictOutcome::Released) => Some(Cause::CpuReleased),
        (Device::Cpu, VerdictOutcome::Blind) => Some(Cause::CpuBlind),
        (Device::Gpu, VerdictOutcome::Recovered) => Some(Cause::GpuRecovered),
        (Device::Gpu, VerdictOutcome::Mismatch) => Some(Cause::GpuMismatch),
        (Device::Gpu, VerdictOutcome::Released) => Some(Cause::GpuReleased),
        (Device::Gpu, VerdictOutcome::Blind) => Some(Cause::GpuBlind),
    }
}

pub(crate) fn cause_of_verdict(device: Device, o: VerdictOutcome) -> (r: Option<Cause>)
    ensures
        r == verdict_cause(device, o),
{
    match (device, o) {
        (_, VerdictOutcome::Quiet) => None,
        (Device::Cpu, VerdictOutcome::Recovered) => Some(Cause::CpuRecovered),
        (Device::Cpu, VerdictOutcome::Mismatch) => Some(Cause::CpuMismatch),
        (Device::Cpu, VerdictOutcome::Released) => Some(Cause::CpuReleased),
        (Device::Cpu, VerdictOutcome::Blind) => Some(Cause::CpuBlind),
        (Device::Gpu, VerdictOutcome::Recovered) => Some(Cause::GpuRecovered),
        (Device::Gpu, VerdictOutcome::Mismatch) => Some(Cause::GpuMismatch),
        (Device::Gpu, VerdictOutcome::Released) => Some(Cause::GpuReleased),
        (Device::Gpu, VerdictOutcome::Blind) => Some(Cause::GpuBlind),
    }
}

/// A read-back of either device is in trouble.
pub open spec fn in_trouble(auto: Option<AutoView>) -> bool {
    auto matches Some(a) && (a.cpu.facts.verdict.episode() || a.gpu.facts.verdict.episode())
}

/// A read-back of either device is blind.
pub open spec fn is_blind(auto: Option<AutoView>) -> bool {
    auto matches Some(a) && (a.cpu.facts.verdict.blind || a.gpu.facts.verdict.blind)
}

/// The flags that read-backs raise: trouble only raises its flag, which a
/// compliant sample takes down.
#[verifier::opaque]
pub open spec fn synced(b: BoardView, auto: Option<AutoView>) -> BoardView {
    let raised = if in_trouble(auto) {
        b.raised(StatusFlag::LimitNotSticking)
    } else {
        b
    };
    raised.set(StatusFlag::ReadbackBlind, is_blind(auto))
}

pub(crate) fn trouble_of(auto: &Option<AutoState>) -> (r: bool)
    ensures
        r == in_trouble(crate::controller::machine::session(*auto)),
{
    match auto {
        Some(a) => a.cpu.facts.verdict.in_episode() || a.gpu.facts.verdict.in_episode(),
        None => false,
    }
}

fn blindness_of(auto: &Option<AutoState>) -> (r: bool)
    ensures
        r == is_blind(crate::controller::machine::session(*auto)),
{
    match auto {
        Some(a) => a.cpu.facts.verdict.blind || a.gpu.facts.verdict.blind,
        None => false,
    }
}

pub(crate) fn sync_verdict_flags(board: &mut Board, auto: &Option<AutoState>)
    ensures
        final(board)@ == synced(old(board)@, crate::controller::machine::session(*auto)),
        old(board)@.wf() ==> final(board)@.wf(),
{
    proof {
        reveal(synced);
    }
    if trouble_of(auto) {
        board.add_flag(StatusFlag::LimitNotSticking);
    }
    board.sync_bool_flag(StatusFlag::ReadbackBlind, blindness_of(auto));
}

impl AutoView {
    /// The outcome of a check of the CPU's cap.
    pub open spec fn cap_outcome(self, check: CapCheck, t_mono: Num) -> VerdictOutcome {
        self.cpu.facts.verdict.observed(check.outcome(), self.session.suppressed(t_mono)).1
    }

    /// With a check of the CPU's cap taken in.
    #[verifier::opaque]
    pub open spec fn cap_checked(self, check: CapCheck, done: Num, t_mono: Num) -> AutoView {
        AutoView {
            cpu: self.cpu.written(done).seen(check.outcome(), self.session.suppressed(t_mono)),
            ..self
        }
    }

    /// With a lock of the GPU's clock taken in.
    #[verifier::opaque]
    pub open spec fn relocked(self, mhz: u32, reply: LockReply, done: Num) -> AutoView {
        match reply {
            LockReply::Failed => AutoView { gpu: self.gpu.written(done), ..self },
            LockReply::Locked(applied) => self.commanded(
                match applied {
                    Some(a) => a,
                    None => mhz,
                },
                done,
            ),
        }
    }
}

impl AutoState {
    fn check_cap(&mut self, check: CapCheck, done: Num, t_mono: Num) -> (r: VerdictOutcome)
        ensures
            final(self)@ == old(self)@.cap_checked(check, done, t_mono),
            r == old(self)@.cap_outcome(check, t_mono),
            old(self)@.wf() ==> final(self)@.wf(),
    {
        proof {
            reveal(AutoView::cap_checked);
        }
        let suppress = self.session.is_suppressed(t_mono);
        self.cpu.note_write(done);
        self.cpu.observe(check.verdict(), suppress)
    }

    pub(crate) fn relock(&mut self, mhz: u32, reply: LockReply, done: Num)
        requires
            old(self)@.wf(),
        ensures
            final(self)@ == old(self)@.relocked(mhz, reply, done),
            final(self)@.wf(),
    {
        proof {
            reveal(AutoView::relocked);
        }
        match reply {
            LockReply::Failed => {
                self.gpu.note_write(done);
            },
            LockReply::Locked(applied) => {
                let clock = match applied {
                    Some(a) => a,
                    None => mhz,
                };
                self.record_gpu_command(clock, done);
            },
        }
    }
}

impl Model {
    /// What is to be looked after: nothing once the machine shuts down.
    pub open spec fn plan(self, fenced: bool) -> (Option<u32>, Option<u32>) {
        if fenced {
            (None, None)
        } else {
            (
                match self.core.limits.cpu_limit_w {
                    Some(w) if self.rig.cpu => Some(milliwatts(w)),
                    _ => None,
                },
                if self.rig.gpu {
                    self.core.limits.gpu_max_mhz
                } else {
                    None
                },
            )
        }
    }

    /// With the CPU's cap looked after; a session scores the read-back, and
    /// releases the cap after too many mismatches.
    #[verifier::opaque]
    pub open spec fn cpu_tended(self, check: CapCheck, done: Num, t_mono: Num) -> Model {
        match self.auto {
            None => self,
            Some(a) => {
                let o = a.cap_outcome(check, t_mono);
                let auto = Some(a.cap_checked(check, done, t_mono));
                let flagged = synced(self.board, auto);
                Model {
                    auto,
                    core: if o == VerdictOutcome::Released {
                        self.core.limiting_cpu(None)
                    } else {
                        self.core
                    },
                    orders: if o == VerdictOutcome::Released {
                        self.orders.push(Order::RestoreCpu)
                    } else {
                        self.orders
                    },
                    board: match verdict_cause(Device::Cpu, o) {
                        Some(c) => flagged.noted(c),
                        None => flagged,
                    },
                    ..self
                }
            },
        }
    }

    /// With the GPU's lock looked after.
    #[verifier::opaque]
    pub open spec fn gpu_tended(self, reply: LockReply, done: Num) -> Model {
        match (self.auto, self.core.limits.gpu_max_mhz) {
            (Some(a), Some(mhz)) => Model { auto: Some(a.relocked(mhz, reply, done)), ..self },
            _ => self,
        }
    }

    /// The CPU's cap had to be repaired, or could not be read.
    pub open spec fn cap_moved(check: CapCheck) -> bool {
        check.repair is Some || !(check.observed is Verified)
    }

    /// With both looked after.
    pub open spec fn tended(self, reply: ReassertReply, t_mono: Num) -> Model {
        let cpu = match reply.cpu {
            Some((check, done)) => self.cpu_tended(check, done, t_mono),
            None => self,
        };
        match reply.gpu {
            Some((lock, done)) => cpu.gpu_tended(lock, done),
            None => cpu,
        }
    }

    /// Whether everything held that was looked after; nothing if nothing had
    /// to be touched.
    pub open spec fn upheld(reply: ReassertReply) -> Option<bool> {
        let cpu_moved = reply.cpu matches Some((check, _)) && Model::cap_moved(check);
        let cpu_ok = reply.cpu matches Some((check, _)) ==> check.outcome() is Verified;
        let gpu_ok = reply.gpu matches Some((lock, _)) ==> lock is Locked;
        if cpu_moved || reply.gpu is Some {
            Some(cpu_ok && gpu_ok)
        } else {
            None
        }
    }

    /// With the result of looking after the limits reported.
    #[verifier::opaque]
    pub open spec fn reported(self, why: Why, held: Option<bool>, t_mono: Num) -> Model {
        match held {
            None => self,
            Some(ok) => Model {
                core: self.core.tended(Some(t_mono)),
                ..self.with_effect(
                    Effect::Reasserted {
                        cause: match (why, ok) {
                            (Why::Resume, true) => Cause::Resume,
                            (Why::Resume, false) => Cause::ResumeFailed,
                            (Why::Stickiness, true) => Cause::Stickiness,
                            (Why::Stickiness, false) => Cause::StickinessFailed,
                            (Why::Schedule, true) => Cause::Reassert,
                            (Why::Schedule, false) => Cause::ReassertFailed,
                        },
                    },
                )
            },
        }
    }

    /// Done with a sample.
    pub open spec fn finished(self) -> (Model, Next) {
        (self.drained().closed(Cause::Sample), Next::Done)
    }

    /// The limits are due to be looked after.
    pub open spec fn due(self, t_mono: Num) -> bool {
        self.core.watch.last_reassert matches Some(last) && Num(REASSERT_PERIOD_S).le(
            t_mono.minus(last),
        )
    }

    /// The schedule: with limits in force, the first sample only starts the
    /// clock.
    #[verifier::opaque]
    pub open spec fn scheduled(self, t_mono: Num, fenced: bool) -> (Model, Next) {
        if self.core.limits.cpu_limit_w is None && self.core.limits.gpu_max_mhz is None {
            self.finished()
        } else if self.core.watch.last_reassert is None {
            (Model { core: self.core.tended(Some(t_mono)), ..self }).finished()
        } else if self.due(t_mono) {
            let m = Model { core: self.core.tended(Some(t_mono)), ..self };
            let (cpu_mw, gpu_mhz) = self.plan(fenced);
            if cpu_mw is Some || gpu_mhz is Some {
                (m, Next::Reassert { why: Why::Schedule, cpu_mw, gpu_mhz })
            } else {
                m.finished()
            }
        } else {
            self.finished()
        }
    }

    /// With so many violations.
    pub open spec fn violated(self, n: u8) -> Model {
        Model {
            core: Core { watch: Watch { stick_violations: n, ..self.core.watch }, ..self.core },
            ..self
        }
    }

    /// With a limit that does not stick.
    #[verifier::opaque]
    pub open spec fn unstuck(self) -> Model {
        Model { board: self.board.raised(StatusFlag::LimitNotSticking), ..self }.because(
            Cause::Stickiness,
        )
    }

    /// With a compliant sample: the flag comes down unless a read-back is in
    /// trouble.
    #[verifier::opaque]
    pub open spec fn complied(self) -> Model {
        Model {
            board: if in_trouble(self.auto) {
                self.board
            } else {
                self.board.lowered(StatusFlag::LimitNotSticking)
            },
            ..self.violated(0)
        }.because(Cause::Stickiness)
    }

    /// Violations that make the limit count as not sticking.
    pub open spec fn patience(self, t_mono: Num) -> u8 {
        if self.core.watch.strict_until matches Some(until) && t_mono.lt(until) {
            STICKINESS_SAMPLES_STRICT
        } else {
            STICKINESS_SAMPLES
        }
    }

    /// The measured draw is held against the CPU's limit; a sample without a
    /// draw proves nothing.
    #[verifier::opaque]
    pub open spec fn measured(self, s: Sample, fenced: bool) -> (Model, Next) {
        match self.core.limits.cpu_limit_w {
            Some(limit) if Num(ZERO).lt(s.cpu_pkg_w) => {
                if limit.plus(Num(STICKINESS_MARGIN_W)).lt(s.cpu_pkg_w) {
                    let n = (self.core.watch.stick_violations + 1) as u8;
                    if n >= self.patience(s.t_mono) {
                        let m = self.violated(0);
                        let (cpu_mw, gpu_mhz) = self.plan(fenced);
                        if cpu_mw is Some || gpu_mhz is Some {
                            (m, Next::Reassert { why: Why::Stickiness, cpu_mw, gpu_mhz })
                        } else {
                            m.unstuck().scheduled(s.t_mono, fenced)
                        }
                    } else {
                        self.violated(n).scheduled(s.t_mono, fenced)
                    }
                } else {
                    self.complied().scheduled(s.t_mono, fenced)
                }
            },
            _ => self.scheduled(s.t_mono, fenced),
        }
    }
}

impl Controller {
    pub(crate) fn reassert_plan(&self, fenced: bool) -> (r: (Option<u32>, Option<u32>))
        ensures
            r.0 == self@.plan(fenced).0,
            r.1 == self@.plan(fenced).1,
    {
        if fenced {
            return (None, None);
        }
        let cpu = match self.core.limits.cpu_limit_w {
            Some(w) => if self.rig.cpu {
                Some(in_milliwatts(w))
            } else {
                None
            },
            None => None,
        };
        let gpu = if self.rig.gpu {
            self.core.limits.gpu_max_mhz
        } else {
            None
        };
        (cpu, gpu)
    }

    fn tend_cpu(&mut self, check: CapCheck, done: Num, t_mono: Num)
        requires
            old(self).wf(),
        ensures
            final(self)@ == old(self)@.cpu_tended(check, done, t_mono),
            final(self).wf(),
            final(self)@.core.limits.mode == old(self)@.core.limits.mode,
    {
        proof {
            reveal(Model::cpu_tended);
        }
        let o = match &mut self.auto {
            None => {
                return ;
            },
            Some(auto) => auto.check_cap(check, done, t_mono),
        };
        if o == VerdictOutcome::Released {
            self.orders.push(Order::RestoreCpu);
            self.core.limits.cpu_limit_w = None;
        }
        sync_verdict_flags(&mut self.board, &self.auto);
        if let Some(cause) = cause_of_verdict(Device::Cpu, o) {
            self.board.pending.push(Effect::Noted { cause });
        }
    }

    fn tend_gpu(&mut self, reply: LockReply, done: Num)
        requires
            old(self).wf(),
        ensures
            final(self)@ == old(self)@.gpu_tended(reply, done),
            final(self).wf(),
            final(self)@.core == old(self)@.core,
    {
        proof {
            reveal(Model::gpu_tended);
        }
        if let Some(mhz) = self.core.limits.gpu_max_mhz {
            if let Some(auto) = &mut self.auto {
                auto.relock(mhz, reply, done);
            }
        }
    }

    /// Takes in how looking after the limits went; whether everything held,
    /// if anything had to be touched.
    pub fn reassert_actuators(&mut self, reply: ReassertReply, t_mono: Num) -> (r: Option<bool>)
        requires
            old(self).wf(),
        ensures
            final(self)@ == old(self)@.tended(reply, t_mono),
            r == Model::upheld(reply),
            final(self).wf(),
            final(self)@.core.limits.mode == old(self)@.core.limits.mode,
    {
        let mut any = false;
        let mut all_ok = true;
        if let Some((check, done)) = reply.cpu {
            any = check.repair.is_some() || !is_verified(check.observed);
            all_ok = is_verified(check.verdict());
            self.tend_cpu(check, done, t_mono);
        }
        if let Some((lock, done)) = reply.gpu {
            any = true;
            if lock == LockReply::Failed {
                all_ok = false;
            }
            self.tend_gpu(lock, done);
        }
        if any {
            Some(all_ok)
        } else {
            None
        }
    }

    pub(crate) fn report(&mut self, why: Why, held: Option<bool>, t_mono: Num)
        ensures
            final(self)@ == old(self)@.reported(why, held, t_mono),
            old(self).wf() ==> final(self).wf(),
            final(self)@.core.limits == old(self)@.core.limits,
    {
        proof {
            reveal(Model::reported);
        }
        if let Some(ok) = held {
            self.core.watch.last_reassert = Some(t_mono);
            let cause = match (why, ok) {
                (Why::Resume, true) => Cause::Resume,
                (Why::Resume, false) => Cause::ResumeFailed,
                (Why::Stickiness, true) => Cause::Stickiness,
                (Why::Stickiness, false) => Cause::StickinessFailed,
                (Why::Schedule, true) => Cause::Reassert,
                (Why::Schedule, false) => Cause::ReassertFailed,
            };
            self.run.effects.push(Effect::Reasserted { cause });
        }
    }

    pub(crate) fn finish(&mut self) -> (r: Next)
        ensures
            final(self)@ == old(self)@.finished().0,
            r == old(self)@.finished().1,
            old(self).wf() ==> final(self).wf(),
    {
        self.drain();
        self.close_run(Cause::Sample);
        Next::Done
    }

    pub(crate) fn keep_schedule(&mut self, t_mono: Num, fenced: bool) -> (r: Next)
        requires
            old(self).wf(),
        ensures
            final(self)@ == old(self)@.scheduled(t_mono, fenced).0,
            r == old(self)@.scheduled(t_mono, fenced).1,
            final(self).wf(),
    {
        proof {
            reveal(Model::scheduled);
        }
        if self.core.limits.cpu_limit_w.is_none() && self.core.limits.gpu_max_mhz.is_none() {
            return self.finish();
        }
        match self.core.watch.last_reassert {
            None => {
                self.core.watch.last_reassert = Some(t_mono);
                self.finish()
            },
            Some(last) => {
                if t_mono - last >= Num(REASSERT_PERIOD_S) {
                    let (cpu_mw, gpu_mhz) = self.reassert_plan(fenced);
                    self.core.watch.last_reassert = Some(t_mono);
                    if cpu_mw.is_some() || gpu_mhz.is_some() {
                        Next::Reassert { why: Why::Schedule, cpu_mw, gpu_mhz }
                    } else {
                        self.finish()
                    }
                } else {
                    self.finish()
                }
            },
        }
    }

    pub(crate) fn mark_unstuck(&mut self)
        ensures
            final(self)@ == old(self)@.unstuck(),
            old(self).wf() ==> final(self).wf(),
            final(self)@.core == old(self)@.core,
    {
        proof {
            reveal(Model::unstuck);
        }
        self.board.add_flag(StatusFlag::LimitNotSticking);
        self.claim(Cause::Stickiness);
    }

    fn mark_complied(&mut self)
        ensures
            final(self)@ == old(self)@.complied(),
            old(self).wf() ==> final(self).wf(),
    {
        proof {
            reveal(Model::complied);
        }
        self.core.watch.stick_violations = 0;
        if !trouble_of(&self.auto) {
            self.board.remove_flag(StatusFlag::LimitNotSticking);
        }
        self.claim(Cause::Stickiness);
    }

    pub(crate) fn measure(&mut self, s: &Sample, fenced: bool) -> (r: Next)
        requires
            old(self).wf(),
        ensures
            final(self)@ == old(self)@.measured(*s, fenced).0,
            r == old(self)@.measured(*s, fenced).1,
            final(self).wf(),
    {
        proof {
            reveal(Model::measured);
        }
        if let Some(limit) = self.core.limits.cpu_limit_w {
            if s.cpu_pkg_w > Num(ZERO) {
                if s.cpu_pkg_w > limit + Num(STICKINESS_MARGIN_W) {
                    let strict = match self.core.watch.strict_until {
                        Some(until) => s.t_mono < until,
                        None => false,
                    };
                    let needed = if strict {
                        STICKINESS_SAMPLES_STRICT
                    } else {
                        STICKINESS_SAMPLES
                    };
                    let n: u8 = self.core.watch.stick_violations + 1;
                    if n >= needed {
                        let (cpu_mw, gpu_mhz) = self.reassert_plan(fenced);
                        self.core.watch.stick_violations = 0;
                        if cpu_mw.is_some() || gpu_mhz.is_some() {
                            return Next::Reassert { why: Why::Stickiness, cpu_mw, gpu_mhz };
                        }
                        self.mark_unstuck();
                    } else {
                        self.core.watch.stick_violations = n;
                    }
                } else {
                    self.mark_complied();
                }
            }
        }
        self.keep_schedule(s.t_mono, fenced)
    }
}

pub(crate) fn is_verified(v: WriteVerdict) -> (r: bool)
    ensures
        r == (v is Verified),
{
    match v {
        WriteVerdict::Verified(_) => true,
        _ => false,
    }
}

} // verus!
