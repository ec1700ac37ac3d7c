//! That every change is reported by the end of the call that makes it.

use crate::controller::calibration::CalibStep;
use crate::controller::commands::{Answer, Command};
use crate::controller::effect::Cause;
use crate::controller::machine::Model;
use crate::controller::panel::ProgressView;
use crate::controller::plain::{LockReply, Next, Order, Trip, Why};
use crate::controller::publish::TreadReply;
use crate::controller::report::SourceReply;
use crate::controller::trial::ScoreReply;
use crate::controller::upkeep::ReassertReply;
use crate::controller::verdict::{VerdictOutcome, WriteVerdict};
use crate::controller::writes::clock_of;
use crate::num::Num;
use crate::types::Sample;
use vstd::prelude::*;

verus! {

/// A turn that ends its sample leaves nothing to report.
pub open spec fn reported(turn: (Model, Next)) -> bool {
    turn.1 is Done ==> turn.0.board.pending.len() == 0
}

proof fn lemma_upkeep_reports(m: Model, s: Sample, fenced: bool)
    ensures
        reported(m.finished()),
        reported(m.scheduled(s.t_mono, fenced)),
        reported(m.measured(s, fenced)),
        reported(m.looped(s, fenced)),
{
    reveal(Model::closed);
    reveal(Model::scheduled);
    reveal(Model::measured);
    reveal(Model::looped);
}

proof fn lemma_writes_report(m: Model, s: Sample, o: VerdictOutcome, fenced: bool)
    ensures
        reported(m.settled(s, fenced)),
        reported(m.locking(s, o, fenced)),
        reported(m.verifying(s, fenced)),
        reported(m.writing(s, fenced)),
{
    reveal(Model::settled);
    reveal(Model::locking);
    reveal(Model::verifying);
    reveal(Model::writing);
    lemma_upkeep_reports(m, s, fenced);
    if m.run.pass.decisions is Some {
        lemma_upkeep_reports(
            m.because(Cause::DeviceLoops).learned(s, m.run.pass.decisions->0),
            s,
            fenced,
        );
    }
}

proof fn lemma_waking_reports(m: Model, s: Sample, fenced: bool)
    ensures
        reported(m.waking(s, fenced)),
{
    reveal(Model::waking);
    lemma_upkeep_reports(m, s, fenced);
    lemma_upkeep_reports(m.resume_over(), s, fenced);
    lemma_upkeep_reports(m.resumed(s.t_mono).because(Cause::Resume), s, fenced);
}

proof fn lemma_routing_reports(m: Model, s: Sample, finishing: bool, fenced: bool)
    requires
        m.board.pending.len() == 0,
    ensures
        reported(m.routed(s, finishing, fenced)),
{
    reveal(Model::routed);
    reveal(Model::rejoined);
    reveal(Model::trial_begun);
    reveal(Model::trial_viewed);
    lemma_waking_reports(m.opened(), s, fenced);
}

proof fn lemma_emergency_reports(m: Model, trip: Trip)
    ensures
        reported(m.emergency(trip)),
        reported(m.evacuated(trip)),
{
    reveal(Model::evacuated);
}

/// The turn after the watchdog leaves nothing to report if it ends the sample
/// and nothing was left before.
pub proof fn lemma_watched_reports(
    m: Model,
    s: Sample,
    trip: Option<Trip>,
    quiet: bool,
    finishing: bool,
    fenced: bool,
)
    requires
        m.board.pending.len() == 0,
    ensures
        reported(m.watched(s, trip, quiet, finishing, fenced)),
{
    reveal(Model::watched);
    reveal(Model::opened);
    lemma_routing_reports(m, s, finishing, fenced);
    lemma_routing_reports(m.warned(false), s, finishing, fenced);
    lemma_routing_reports(
        m.warned(true).ordering(Order::RearmWatchdog),
        s,
        finishing,
        fenced,
    );
    if let Some(t) = trip {
        lemma_emergency_reports(m, t);
    }
}

/// A turn in which limits were looked after leaves nothing to report if it
/// ends the sample.
pub proof fn lemma_looked_after_reports(
    m: Model,
    s: Sample,
    why: Why,
    reply: ReassertReply,
    fenced: bool,
)
    ensures
        reported(m.looked_after(s, why, reply, fenced)),
{
    reveal(Model::looked_after);
    let t = m.tended(reply, s.t_mono).reported(why, Model::upheld(reply), s.t_mono);
    lemma_upkeep_reports(t, s, fenced);
    lemma_upkeep_reports(t.because(Cause::Resume), s, fenced);
    lemma_upkeep_reports(t.unstuck(), s, fenced);
}

/// So does one that ends before the target's source is asked.
pub proof fn lemma_asking_reports(m: Model, s: Sample, score: ScoreReply, fenced: bool)
    ensures
        reported(m.asking(s, score, fenced)),
{
    reveal(Model::asking);
    lemma_upkeep_reports(m.pass_with(score), s, fenced);
}

/// So does one that ends before the replica is told.
pub proof fn lemma_telling_reports(m: Model, s: Sample, ma: Option<Num>, gap_s: Num, fenced: bool)
    ensures
        reported(m.telling(s, ma, gap_s, fenced)),
{
    lemma_upkeep_reports(m, s, fenced);
}

/// So does one in which the target's source has answered.
pub proof fn lemma_sourced_reports(
    m: Model,
    s: Sample,
    source: SourceReply,
    curve: TreadReply,
    duty: u8,
    rpm: Num,
    fenced: bool,
)
    ensures
        reported(m.sourced(s, source, curve, duty, rpm, fenced)),
{
    reveal(Model::sourced);
    let d = m.decided(s, source, duty, rpm);
    let p = d.published(s, d.run.pass.decisions->0, source, curve);
    lemma_upkeep_reports(m, s, fenced);
    lemma_upkeep_reports(p.idled(), s, fenced);
    lemma_upkeep_reports(p.idled().let_go(), s, fenced);
    lemma_writes_report(p, s, VerdictOutcome::Quiet, fenced);
}

/// So does one that a CPU write ends.
pub proof fn lemma_after_cpu_reports(
    m: Model,
    s: Sample,
    verdict: WriteVerdict,
    done: Num,
    retry: bool,
    fenced: bool,
)
    ensures
        reported(m.after_cpu(s, verdict, done, retry, fenced)),
{
    reveal(Model::after_cpu);
    let o = VerdictOutcome::Quiet;
    lemma_writes_report(m, s, o, fenced);
    lemma_writes_report(m.cpu_settled(verdict, done, s.t_mono), s, o, fenced);
}

/// So does one that a read-back of the GPU ends.
pub proof fn lemma_after_gpu_reports(m: Model, s: Sample, verdict: WriteVerdict, fenced: bool)
    ensures
        reported(m.after_gpu(s, verdict, fenced)),
{
    reveal(Model::after_gpu);
    lemma_writes_report(m, s, VerdictOutcome::Quiet, fenced);
    if m.auto is Some {
        lemma_writes_report(
            m.gpu_settled(verdict, s.t_mono),
            s,
            m.auto->0.gpu_outcome(verdict, s.t_mono),
            fenced,
        );
    }
}

/// So does one that a GPU lock ends.
pub proof fn lemma_after_lock_reports(m: Model, s: Sample, lock: LockReply, done: Num, fenced: bool)
    ensures
        reported(m.after_lock(s, lock, done, fenced)),
{
    reveal(Model::after_lock);
    let o = VerdictOutcome::Quiet;
    lemma_writes_report(m, s, o, fenced);
    if m.run.pass.decisions is Some {
        let mhz = clock_of(m.run.pass.decisions->0.gpu.cap);
        lemma_writes_report(m.gpu_locked(mhz, lock, done), s, o, fenced);
    }
}

/// So does the last turn of a calibration's sample.
pub proof fn lemma_trial_done_reports(
    m: Model,
    s: Sample,
    steps: Seq<CalibStep>,
    shown: Option<ProgressView>,
    recorded: bool,
)
    ensures
        reported(m.trial_done(s, steps, shown, recorded)),
{
    reveal(Model::trial_done);
    reveal(Model::closed);
}

/// So does a turn in which a runner was aborted.
pub proof fn lemma_abort_reports(
    m: Model,
    s: Sample,
    steps: Seq<CalibStep>,
    shown: Option<ProgressView>,
    trip: Trip,
)
    ensures
        reported(m.cooled(s, steps, shown)),
        reported(m.aborted_in(trip, steps)),
{
    reveal(Model::cooled);
    reveal(Model::aborted_in);
    lemma_emergency_reports(
        m.progressed(steps, shown, s.fanctrl).closed(Cause::CalibSkipped),
        Trip::Thermal,
    );
    lemma_emergency_reports(m.calibrated(steps, None).calibration_ended(), trip);
}

/// A command leaves nothing to report.
pub proof fn lemma_command_reports(m: Model, c: Command, a: Answer, tripped: bool)
    requires
        m.board.pending.len() == 0,
    ensures
        m.commanded(c, a, tripped).board.pending.len() == 0,
{
    reveal(Model::commanded);
    reveal(Model::acknowledged);
    reveal(Model::opened);
    reveal(Model::quit);
    reveal(Model::announced);
}

} // verus!
