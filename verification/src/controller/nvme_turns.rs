//! That an NVMe drive's temperature only reports, in every turn of a sample
//! and over a run of samples.

use crate::controller::auto::AutoView;
use crate::controller::bench::BenchView;
use crate::controller::board::{lemma_set_flag, BoardView};
use crate::controller::calibration::CalibStep;
use crate::controller::drive::Decisions;
use crate::controller::effect::Cause;
use crate::controller::intake::seed_of;
use crate::controller::machine::{quieted, Model};
use crate::controller::nvme::{
    alike, lemma_alike_shares, lemma_hot_drive_only_reports, lemma_same_after_cpu,
    lemma_same_after_gpu, lemma_same_after_lock, lemma_same_asking, lemma_same_finished,
    lemma_same_looped, lemma_same_relocked, lemma_same_scheduled, lemma_same_set,
    lemma_same_synced, lemma_same_telling, same_but_drive, same_flags, same_session, same_turn,
};
use crate::controller::panel::ProgressView;
use crate::controller::plain::{CapCheck, LockReply, Next, Order, Trip, Why};
use crate::controller::publish::{fitted, flagged, TreadReply};
use crate::controller::report::{says_steep, says_unreachable, SourceReply, TStarState};
use crate::controller::samples::trip_flag;
use crate::controller::trial::{too_hot, ScoreReply};
use crate::controller::upkeep::{synced, ReassertReply};
use crate::controller::verdict::WriteVerdict;
use crate::guards::{stays_hot, NVME_HYSTERESIS_C};
use crate::num::Num;
use crate::status::StatusFlag;
use crate::types::{FanctrlView, Freshness, Sample};
use vstd::prelude::*;

verus! {

proof fn lemma_same_frame(a: Model, b: Model, o: Order, w: bool, fenced: bool)
    requires
        alike(a, b),
    ensures
        alike(a.opened(), b.opened()),
        alike(a.warned(w), b.warned(w)),
        alike(a.ordering(o), b.ordering(o)),
        same_turn(a.begun(fenced), b.begun(fenced)),
        alike(a.because(Cause::Resume), b.because(Cause::Resume)),
{
    reveal(alike);
    reveal(Model::opened);
}

proof fn lemma_same_resumed(a: Model, b: Model, t_mono: Num)
    requires
        alike(a, b),
    ensures
        alike(a.resumed(t_mono), b.resumed(t_mono)),
        alike(a.resume_over(), b.resume_over()),
{
    lemma_alike_shares(a, b);
    lemma_same_set(a.board, b.board, StatusFlag::Resumed, true, true);
    lemma_same_set(a.board, b.board, StatusFlag::Resumed, false, false);
    if a.auto is Some {
        let (x, y) = (a.auto->0, b.auto->0);
        assert(x.roused(a.config) == y.roused(b.config)) by {
            reveal(AutoView::roused);
        }
    }
    reveal(alike);
    reveal(Model::resumed);
    reveal(Model::resume_over);
}

proof fn lemma_same_waking(a: Model, b: Model, s: Sample, t: Sample, fenced: bool)
    requires
        alike(a, b),
        same_but_drive(s, t),
    ensures
        same_turn(a.waking(s, fenced), b.waking(t, fenced)),
{
    lemma_alike_shares(a, b);
    lemma_same_resumed(a, b, s.t_mono);
    let (x, y) = (a.resumed(s.t_mono), b.resumed(s.t_mono));
    lemma_alike_shares(x, y);
    lemma_same_frame(x, y, Order::RearmWatchdog, false, fenced);
    lemma_same_looped(a, b, s, t, fenced);
    lemma_same_looped(x.because(Cause::Resume), y.because(Cause::Resume), s, t, fenced);
    lemma_same_looped(a.resume_over(), b.resume_over(), s, t, fenced);
    assert(x.plan(fenced) == y.plan(fenced));
    reveal(Model::waking);
}

proof fn lemma_same_rejoined(a: Model, b: Model, s: Sample, t: Sample)
    requires
        alike(a, b),
        same_but_drive(s, t),
    ensures
        alike(a.rejoined(s), b.rejoined(t)),
{
    lemma_alike_shares(a, b);
    if a.auto is Some {
        let (x, y) = (a.auto->0, b.auto->0);
        assert(same_session(x.reseeded(s, a.config), y.reseeded(t, b.config))) by {
            reveal(AutoView::reseeded);
        }
    }
    assert(seed_of(s) == seed_of(t));
    reveal(alike);
    reveal(Model::rejoined);
}

proof fn lemma_same_viewed(a: Model, b: Model, s: Sample, t: Sample)
    requires
        alike(a, b),
        same_but_drive(s, t),
    ensures
        same_turn(a.trial_viewed(s), b.trial_viewed(t)),
{
    reveal(alike);
    assert(a.bench.viewed(s) == b.bench.viewed(t)) by {
        reveal(BenchView::viewed);
    }
    assert(seed_of(s) == seed_of(t));
    reveal(Model::trial_viewed);
}

proof fn lemma_same_begun(a: Model, b: Model, s: Sample, t: Sample, finishing: bool, fenced: bool)
    requires
        alike(a, b),
        same_but_drive(s, t),
    ensures
        same_turn(a.trial_begun(s, finishing, fenced), b.trial_begun(t, finishing, fenced)),
{
    lemma_alike_shares(a, b);
    lemma_same_frame(a, b, Order::RearmWatchdog, false, fenced);
    let (x, y) = (a.opened().with_reset(None), b.opened().with_reset(None));
    assert(alike(x, y)) by {
        reveal(alike);
    }
    lemma_same_viewed(x, y, s, t);
    assert(a.cap_to_check(s, finishing, fenced) == b.cap_to_check(t, finishing, fenced)) by {
        reveal(alike);
    }
    assert(too_hot(s, a.config) == too_hot(t, b.config));
    reveal(Model::trial_begun);
}

proof fn lemma_same_quieted(a: BoardView, b: BoardView)
    requires
        same_flags(a, b),
    ensures
        same_flags(quieted(a), quieted(b)),
{
    reveal(quieted);
    let f = StatusFlag::TargetUnreachable;
    lemma_same_set(a, b, f, false, false);
    let (a, b) = (a.lowered(f), b.lowered(f));
    let f = StatusFlag::LimitNotSticking;
    lemma_same_set(a, b, f, false, false);
    let (a, b) = (a.lowered(f), b.lowered(f));
    let f = StatusFlag::NotCalibrated;
    lemma_same_set(a, b, f, false, false);
    let (a, b) = (a.lowered(f), b.lowered(f));
    let f = StatusFlag::FanctrlLost;
    lemma_same_set(a, b, f, false, false);
    let (a, b) = (a.lowered(f), b.lowered(f));
    let f = StatusFlag::EcMismatch;
    lemma_same_set(a, b, f, false, false);
    let (a, b) = (a.lowered(f), b.lowered(f));
    let f = StatusFlag::SteepCurve;
    lemma_same_set(a, b, f, false, false);
    let (a, b) = (a.lowered(f), b.lowered(f));
    let f = StatusFlag::CurveInvalid;
    lemma_same_set(a, b, f, false, false);
    let (a, b) = (a.lowered(f), b.lowered(f));
    let f = StatusFlag::GpuHot;
    lemma_same_set(a, b, f, false, false);
    let (a, b) = (a.lowered(f), b.lowered(f));
    let f = StatusFlag::NvmeHot;
    lemma_same_set(a, b, f, false, false);
    let (a, b) = (a.lowered(f), b.lowered(f));
    lemma_same_set(a, b, StatusFlag::ReadbackBlind, false, false);
}

proof fn lemma_same_evacuated(a: Model, b: Model, trip: Trip)
    requires
        alike(a, b),
    ensures
        same_turn(a.evacuated(trip), b.evacuated(trip)),
        same_turn(a.emergency(trip), b.emergency(trip)),
{
    lemma_alike_shares(a, b);
    let (x, y) = (a.without_session(), b.without_session());
    assert(alike(x, y)) by {
        reveal(alike);
        reveal(Model::without_session);
    }
    lemma_alike_shares(x, y);
    lemma_same_quieted(x.board, y.board);
    let (x, y) = (x.released(), y.released());
    assert(alike(x, y)) by {
        reveal(alike);
        reveal(Model::released);
    }
    lemma_alike_shares(x, y);
    let flag = trip_flag(trip);
    lemma_same_set(x.board, y.board, flag, true, true);
    let (p, q) = (x.board.raised(flag), y.board.raised(flag));
    assert(same_flags(p.drained(), q.drained())) by {
        reveal(same_flags);
    }
    reveal(alike);
    reveal(Model::evacuated);
}

proof fn lemma_same_routed(a: Model, b: Model, s: Sample, t: Sample, finishing: bool, fenced: bool)
    requires
        alike(a, b),
        same_but_drive(s, t),
    ensures
        same_turn(a.routed(s, finishing, fenced), b.routed(t, finishing, fenced)),
{
    lemma_alike_shares(a, b);
    lemma_same_frame(a, b, Order::RearmWatchdog, false, fenced);
    lemma_same_begun(a, b, s, t, finishing, fenced);
    lemma_same_rejoined(a, b, s, t);
    lemma_same_waking(a.opened(), b.opened(), s, t, fenced);
    reveal(Model::routed);
}

/// A drive's temperature only reports in the first turns of a sample: the
/// watchdog's, and with it the turns of a resume, of an emergency, of a
/// calibration's sample and of the one after it.
pub proof fn lemma_hot_drive_trips_nothing(
    a: Model,
    b: Model,
    s: Sample,
    t: Sample,
    trip: Option<Trip>,
    quiet: bool,
    finishing: bool,
    fenced: bool,
)
    requires
        alike(a, b),
        same_but_drive(s, t),
    ensures
        same_turn(a.begun(fenced), b.begun(fenced)),
        same_turn(
            a.watched(s, trip, quiet, finishing, fenced),
            b.watched(t, trip, quiet, finishing, fenced),
        ),
        same_turn(a.waking(s, fenced), b.waking(t, fenced)),
{
    let o = Order::RearmWatchdog;
    lemma_alike_shares(a, b);
    lemma_same_frame(a, b, o, false, fenced);
    lemma_same_frame(a, b, o, true, fenced);
    lemma_same_frame(a.warned(true), b.warned(true), o, true, fenced);
    lemma_same_waking(a, b, s, t, fenced);
    lemma_same_routed(a, b, s, t, finishing, fenced);
    lemma_same_routed(a.warned(false), b.warned(false), s, t, finishing, fenced);
    lemma_same_routed(
        a.warned(true).ordering(o),
        b.warned(true).ordering(o),
        s,
        t,
        finishing,
        fenced,
    );
    if let Some(x) = trip {
        lemma_same_evacuated(a, b, x);
    }
    reveal(Model::watched);
}

proof fn lemma_same_checked(x: AutoView, y: AutoView, check: CapCheck, done: Num, t_mono: Num)
    requires
        same_session(x, y),
    ensures
        same_session(x.cap_checked(check, done, t_mono), y.cap_checked(check, done, t_mono)),
        x.cap_outcome(check, t_mono) == y.cap_outcome(check, t_mono),
{
    reveal(AutoView::cap_checked);
}

proof fn lemma_same_cpu_tended(a: Model, b: Model, check: CapCheck, done: Num, t_mono: Num)
    requires
        alike(a, b),
    ensures
        alike(a.cpu_tended(check, done, t_mono), b.cpu_tended(check, done, t_mono)),
{
    lemma_alike_shares(a, b);
    if a.auto is Some {
        let (x, y) = (a.auto->0, b.auto->0);
        lemma_same_checked(x, y, check, done, t_mono);
        let (c, d) = (x.cap_checked(check, done, t_mono), y.cap_checked(check, done, t_mono));
        lemma_same_synced(a.board, b.board, c, d);
        let (p, q) = (
            synced(a.board, Some(c)),
            synced(b.board, Some(d)),
        );
        assert forall|cause: Cause| same_flags(#[trigger] p.noted(cause), q.noted(cause)) by {
            reveal(same_flags);
        }
    }
    reveal(alike);
    reveal(Model::cpu_tended);
}

proof fn lemma_same_gpu_tended(a: Model, b: Model, lock: LockReply, done: Num)
    requires
        alike(a, b),
    ensures
        alike(a.gpu_tended(lock, done), b.gpu_tended(lock, done)),
{
    lemma_alike_shares(a, b);
    if a.auto is Some && a.core.limits.gpu_max_mhz is Some {
        let mhz = a.core.limits.gpu_max_mhz->0;
        lemma_same_relocked(a.auto->0, b.auto->0, mhz, lock, done);
    }
    reveal(alike);
    reveal(Model::gpu_tended);
}

proof fn lemma_same_tended(a: Model, b: Model, reply: ReassertReply, t_mono: Num)
    requires
        alike(a, b),
    ensures
        alike(a.tended(reply, t_mono), b.tended(reply, t_mono)),
{
    if let Some((check, done)) = reply.cpu {
        lemma_same_cpu_tended(a, b, check, done, t_mono);
        if let Some((lock, at)) = reply.gpu {
            lemma_same_gpu_tended(
                a.cpu_tended(check, done, t_mono),
                b.cpu_tended(check, done, t_mono),
                lock,
                at,
            );
        }
    } else if let Some((lock, at)) = reply.gpu {
        lemma_same_gpu_tended(a, b, lock, at);
    }
}

/// So it does in a turn in which limits were looked after.
pub proof fn lemma_hot_drive_moves_no_upkeep(
    a: Model,
    b: Model,
    s: Sample,
    t: Sample,
    why: Why,
    reply: ReassertReply,
    fenced: bool,
)
    requires
        alike(a, b),
        same_but_drive(s, t),
    ensures
        same_turn(a.looked_after(s, why, reply, fenced), b.looked_after(t, why, reply, fenced)),
{
    lemma_same_tended(a, b, reply, s.t_mono);
    let (x, y) = (a.tended(reply, s.t_mono), b.tended(reply, s.t_mono));
    let held = Model::upheld(reply);
    let (x, y) = (x.reported(why, held, s.t_mono), y.reported(why, held, s.t_mono));
    assert(alike(x, y)) by {
        reveal(alike);
        reveal(Model::reported);
    }
    lemma_same_frame(x, y, Order::RearmWatchdog, false, fenced);
    lemma_same_looped(x.because(Cause::Resume), y.because(Cause::Resume), s, t, fenced);
    assert(alike(x.unstuck(), y.unstuck())) by {
        lemma_alike_shares(x, y);
        lemma_same_set(x.board, y.board, StatusFlag::LimitNotSticking, true, true);
        reveal(alike);
        reveal(Model::unstuck);
    }
    lemma_same_scheduled(x.unstuck(), y.unstuck(), s.t_mono, fenced);
    lemma_same_finished(x, y);
    reveal(Model::looked_after);
}

proof fn lemma_same_retaining(a: Model, b: Model, view: Option<FanctrlView>)
    requires
        alike(a, b),
    ensures
        alike(a.retaining(view), b.retaining(view)),
{
    reveal(alike);
    reveal(Model::retaining);
}

proof fn lemma_same_step(a: Model, b: Model, step: CalibStep, view: Option<FanctrlView>)
    requires
        alike(a, b),
    ensures
        alike(a.stepped(step, view), b.stepped(step, view)),
{
    match step {
        CalibStep::Fitted { device, gains } => {
            reveal(alike);
            reveal(Model::fitting);
        },
        CalibStep::Saved { save, error } => {
            lemma_alike_shares(a, b);
            reveal(Model::keeping);
            let flag = StatusFlag::NotCalibrated;
            let x = !fitted(a.keeping(save, error, view).store, view);
            lemma_same_set(a.board, b.board, flag, x, x);
            reveal(alike);
        },
        _ => {
            reveal(alike);
        },
    }
}

proof fn lemma_same_steps(a: Model, b: Model, steps: Seq<CalibStep>, view: Option<FanctrlView>)
    requires
        alike(a, b),
    ensures
        alike(a.all_stepped(steps, view), b.all_stepped(steps, view)),
    decreases steps.len(),
{
    if steps.len() > 0 {
        let earlier = steps.drop_last();
        lemma_same_steps(a, b, earlier, view);
        lemma_same_step(
            a.all_stepped(earlier, view),
            b.all_stepped(earlier, view),
            steps.last(),
            view,
        );
    }
}

proof fn lemma_same_ended(a: Model, b: Model)
    requires
        alike(a, b),
    ensures
        alike(a.calibration_ended(), b.calibration_ended()),
{
    lemma_alike_shares(a, b);
    if a.auto is Some {
        let (w, mhz) = (a.core.limits.cpu_limit_w, a.core.limits.gpu_max_mhz);
        assert(same_session(a.auto->0.returned(w, mhz), b.auto->0.returned(w, mhz))) by {
            reveal(AutoView::returned);
        }
    }
    reveal(alike);
    reveal(Model::calibration_ended);
}

proof fn lemma_same_calibrated(a: Model, b: Model, steps: Seq<CalibStep>, view: Option<FanctrlView>)
    requires
        alike(a, b),
    ensures
        alike(a.calibrated(steps, view), b.calibrated(steps, view)),
{
    lemma_same_retaining(a, b, view);
    let (x, y) = (a.retaining(view), b.retaining(view));
    lemma_same_steps(x, y, steps, view);
    lemma_same_ended(x.all_stepped(steps, view), y.all_stepped(steps, view));
    reveal(Model::calibrated);
}

proof fn lemma_same_progressed(
    a: Model,
    b: Model,
    steps: Seq<CalibStep>,
    shown: Option<ProgressView>,
    view: Option<FanctrlView>,
)
    requires
        alike(a, b),
    ensures
        alike(a.progressed(steps, shown, view), b.progressed(steps, shown, view)),
{
    lemma_same_calibrated(a, b, steps, view);
    reveal(alike);
    reveal(Model::progressed);
}

proof fn lemma_same_closed(a: Model, b: Model, otherwise: Cause)
    requires
        alike(a, b),
    ensures
        alike(a.closed(otherwise), b.closed(otherwise)),
        alike(a.drained(), b.drained()),
{
    lemma_alike_shares(a, b);
    assert(same_flags(a.board.drained(), b.board.drained())) by {
        reveal(same_flags);
    }
    reveal(alike);
    reveal(Model::closed);
}

proof fn lemma_same_trial_done(
    a: Model,
    b: Model,
    s: Sample,
    t: Sample,
    steps: Seq<CalibStep>,
    shown: Option<ProgressView>,
    recorded: bool,
)
    requires
        alike(a, b),
        same_but_drive(s, t),
    ensures
        same_turn(
            a.trial_done(s, steps, shown, recorded),
            b.trial_done(t, steps, shown, recorded),
        ),
{
    let (x, y) = if recorded {
        (a.with_effect(a.trial_record(s)), b.with_effect(b.trial_record(t)))
    } else {
        (a, b)
    };
    assert(alike(x, y)) by {
        reveal(alike);
    }
    lemma_same_progressed(x, y, steps, shown, s.fanctrl);
    let (x, y) = (x.progressed(steps, shown, s.fanctrl), y.progressed(steps, shown, s.fanctrl));
    lemma_same_closed(x, y, Cause::CalibProgress);
    lemma_same_closed(x.drained(), y.drained(), Cause::CalibProgress);
    reveal(Model::trial_done);
}

proof fn lemma_same_trial_checked(
    a: Model,
    b: Model,
    s: Sample,
    t: Sample,
    check: CapCheck,
    done: Num,
)
    requires
        alike(a, b),
        same_but_drive(s, t),
    ensures
        same_turn(a.trial_checked(s, check, done), b.trial_checked(t, check, done)),
{
    let reset = if check.observed is Mismatch {
        Some(check)
    } else {
        None
    };
    let x = Model { bench: a.bench.checked(check, done), ..a }.with_reset(reset);
    let y = Model { bench: b.bench.checked(check, done), ..b }.with_reset(reset);
    assert(alike(x, y)) by {
        reveal(alike);
    }
    lemma_same_viewed(x, y, s, t);
    reveal(Model::trial_checked);
}

proof fn lemma_same_trial_scored(a: Model, b: Model, s: Sample, t: Sample, score: ScoreReply)
    requires
        alike(a, b),
        same_but_drive(s, t),
    ensures
        same_turn(a.trial_scored(s, score), b.trial_scored(t, score)),
{
    reveal(alike);
    reveal(Model::trial_scored);
}

/// So it does in the turns of a calibration's sample, and of its end.
pub proof fn lemma_hot_drive_moves_no_calibration(
    a: Model,
    b: Model,
    s: Sample,
    t: Sample,
    check: CapCheck,
    done: Num,
    score: ScoreReply,
    steps: Seq<CalibStep>,
    shown: Option<ProgressView>,
    recorded: bool,
    trip: Trip,
)
    requires
        alike(a, b),
        same_but_drive(s, t),
    ensures
        same_turn(a.trial_checked(s, check, done), b.trial_checked(t, check, done)),
        same_turn(a.trial_scored(s, score), b.trial_scored(t, score)),
        same_turn(
            a.trial_done(s, steps, shown, recorded),
            b.trial_done(t, steps, shown, recorded),
        ),
        same_turn(a.cooled(s, steps, shown), b.cooled(t, steps, shown)),
        same_turn(a.aborted_in(trip, steps), b.aborted_in(trip, steps)),
{
    lemma_same_trial_checked(a, b, s, t, check, done);
    lemma_same_trial_scored(a, b, s, t, score);
    lemma_same_trial_done(a, b, s, t, steps, shown, recorded);
    lemma_same_aborted(a, b, s, t, steps, shown, trip);
}

proof fn lemma_same_aborted(
    a: Model,
    b: Model,
    s: Sample,
    t: Sample,
    steps: Seq<CalibStep>,
    shown: Option<ProgressView>,
    trip: Trip,
)
    requires
        alike(a, b),
        same_but_drive(s, t),
    ensures
        same_turn(a.cooled(s, steps, shown), b.cooled(t, steps, shown)),
        same_turn(a.aborted_in(trip, steps), b.aborted_in(trip, steps)),
{
    lemma_same_progressed(a, b, steps, shown, s.fanctrl);
    let (x, y) = (a.progressed(steps, shown, s.fanctrl), b.progressed(steps, shown, s.fanctrl));
    lemma_same_closed(x, y, Cause::CalibSkipped);
    lemma_same_evacuated(
        x.closed(Cause::CalibSkipped),
        y.closed(Cause::CalibSkipped),
        Trip::Thermal,
    );
    lemma_same_calibrated(a, b, steps, None);
    let (p, q) = (a.calibrated(steps, None), b.calibrated(steps, None));
    lemma_same_ended(p, q);
    lemma_same_evacuated(p.calibration_ended(), q.calibration_ended(), trip);
    reveal(Model::cooled);
    reveal(Model::aborted_in);
}

/// What the machine answers to one turn of a sample.
pub enum Reply {
    Watchdog { trip: Option<Trip>, quiet: bool, finishing: bool },
    Reassert { why: Why, reply: ReassertReply },
    Overheated { steps: Seq<CalibStep>, shown: Option<ProgressView> },
    Aborted { trip: Trip, steps: Seq<CalibStep> },
    Replica { ma: Option<Num>, gap_s: Num },
    Score { score: ScoreReply },
    Source { reply: SourceReply, curve: TreadReply, duty: u8, rpm: Num },
    CpuWrite { verdict: WriteVerdict, done: Num, retry: bool },
    GpuVerdict { verdict: WriteVerdict },
    GpuLock { lock: LockReply, done: Num },
    CapCheck { check: CapCheck, done: Num },
    CalibScore { score: ScoreReply },
    CalibGpu { verdict: WriteVerdict },
    Runner { steps: Seq<CalibStep>, shown: Option<ProgressView>, recorded: bool },
}

impl Model {
    /// The turn after a reply.
    pub open spec fn turned(self, s: Sample, reply: Reply, fenced: bool) -> (Model, Next) {
        match reply {
            Reply::Watchdog { trip, quiet, finishing } => self.watched(
                s,
                trip,
                quiet,
                finishing,
                fenced,
            ),
            Reply::Reassert { why, reply } => self.looked_after(s, why, reply, fenced),
            Reply::Overheated { steps, shown } => self.cooled(s, steps, shown),
            Reply::Aborted { trip, steps } => self.aborted_in(trip, steps),
            Reply::Replica { ma, gap_s } => self.telling(s, ma, gap_s, fenced),
            Reply::Score { score } => self.asking(s, score, fenced),
            Reply::Source { reply, curve, duty, rpm } => self.sourced(
                s,
                reply,
                curve,
                duty,
                rpm,
                fenced,
            ),
            Reply::CpuWrite { verdict, done, retry } => self.after_cpu(
                s,
                verdict,
                done,
                retry,
                fenced,
            ),
            Reply::GpuVerdict { verdict } => self.after_gpu(s, verdict, fenced),
            Reply::GpuLock { lock, done } => self.after_lock(s, lock, done, fenced),
            Reply::CapCheck { check, done } => self.trial_checked(s, check, done),
            Reply::CalibScore { score } => self.trial_scored(s, score),
            Reply::CalibGpu { verdict } => (
                Model { bench: self.bench.proven(verdict is Verified), ..self },
                Next::SampleRunner,
            ),
            Reply::Runner { steps, shown, recorded } => self.trial_done(
                s,
                steps,
                shown,
                recorded,
            ),
        }
    }

    /// The last turn of a sample after so many replies, each with whether the
    /// machine shuts down by then.
    pub open spec fn sampled(self, s: Sample, fenced: bool, replies: Seq<(Reply, bool)>) -> (
        Model,
        Next,
    )
        decreases replies.len(),
    {
        if replies.len() == 0 {
            self.begun(fenced)
        } else {
            self.sampled(s, fenced, replies.drop_last()).0.turned(
                s,
                replies.last().0,
                replies.last().1,
            )
        }
    }
}

proof fn lemma_same_reply(a: Model, b: Model, s: Sample, t: Sample, reply: Reply, fenced: bool)
    requires
        alike(a, b),
        same_but_drive(s, t),
    ensures
        same_turn(a.turned(s, reply, fenced), b.turned(t, reply, fenced)),
{
    match reply {
        Reply::Watchdog { trip, quiet, finishing } => {
            lemma_hot_drive_trips_nothing(a, b, s, t, trip, quiet, finishing, fenced);
        },
        Reply::Reassert { why, reply } => {
            lemma_hot_drive_moves_no_upkeep(a, b, s, t, why, reply, fenced);
        },
        Reply::Overheated { steps, shown } => {
            lemma_same_aborted(a, b, s, t, steps, shown, Trip::Thermal);
        },
        Reply::Aborted { trip, steps } => {
            lemma_same_aborted(a, b, s, t, steps, None, trip);
        },
        Reply::Replica { ma, gap_s } => {
            lemma_same_telling(a, b, s, t, ma, gap_s, fenced);
        },
        Reply::Score { score } => {
            lemma_same_asking(a, b, s, t, score, fenced);
        },
        Reply::Source { reply, curve, duty, rpm } => {
            lemma_hot_drive_only_reports(a, b, s, t, reply, curve, duty, rpm, fenced);
        },
        Reply::CpuWrite { verdict, done, retry } => {
            lemma_same_after_cpu(a, b, s, t, verdict, done, retry, fenced);
        },
        Reply::GpuVerdict { verdict } => {
            lemma_same_after_gpu(a, b, s, t, verdict, fenced);
        },
        Reply::GpuLock { lock, done } => {
            lemma_same_after_lock(a, b, s, t, lock, done, fenced);
        },
        Reply::CapCheck { check, done } => {
            lemma_same_trial_checked(a, b, s, t, check, done);
        },
        Reply::CalibScore { score } => {
            lemma_same_trial_scored(a, b, s, t, score);
        },
        Reply::CalibGpu { verdict } => {
            reveal(alike);
        },
        Reply::Runner { steps, shown, recorded } => {
            lemma_same_trial_done(a, b, s, t, steps, shown, recorded);
        },
    }
}

/// A drive's temperature only reports in a sample from its first turn to its
/// last: whatever the machine answers, after as many replies the states are
/// alike and the same is to be done next.
pub proof fn lemma_hot_drive_only_reports_in_a_sample(
    a: Model,
    b: Model,
    s: Sample,
    t: Sample,
    fenced: bool,
    replies: Seq<(Reply, bool)>,
)
    requires
        alike(a, b),
        same_but_drive(s, t),
    ensures
        same_turn(a.sampled(s, fenced, replies), b.sampled(t, fenced, replies)),
    decreases replies.len(),
{
    if replies.len() == 0 {
        lemma_same_frame(a, b, Order::RearmWatchdog, false, fenced);
    } else {
        let earlier = replies.drop_last();
        lemma_hot_drive_only_reports_in_a_sample(a, b, s, t, fenced, earlier);
        lemma_same_reply(
            a.sampled(s, fenced, earlier).0,
            b.sampled(t, fenced, earlier).0,
            s,
            t,
            replies.last().0,
            replies.last().1,
        );
    }
}

/// A sample and what the machine answers in its turns.
pub struct Course {
    pub sample: Sample,
    pub fenced: bool,
    pub replies: Seq<(Reply, bool)>,
}

/// The state after a run of samples.
pub open spec fn after_courses(m: Model, run: Seq<Course>) -> Model
    decreases run.len(),
{
    if run.len() == 0 {
        m
    } else {
        let c = run.last();
        after_courses(m, run.drop_last()).sampled(c.sample, c.fenced, c.replies).0
    }
}

/// The runs are equal but for the drive's temperature in each sample.
pub open spec fn same_run(p: Seq<Course>, q: Seq<Course>) -> bool {
    &&& p.len() == q.len()
    &&& forall|i: int|
        0 <= i < p.len() ==> same_but_drive((#[trigger] p[i]).sample, q[i].sample) && p[i].fenced
            == q[i].fenced && p[i].replies == q[i].replies
}

/// Over a run of samples that differ only in the drive's temperature, two
/// controllers that begin alike stay so: the same caps, target, limits,
/// readout and orders, and the same flags but that of a hot drive.
pub proof fn lemma_hot_drive_only_reports_in_a_run(
    a: Model,
    b: Model,
    p: Seq<Course>,
    q: Seq<Course>,
)
    requires
        alike(a, b),
        same_run(p, q),
    ensures
        ({
            let (x, y) = (after_courses(a, p), after_courses(b, q));
            &&& alike(x, y)
            &&& x.core == y.core
            &&& x.readout == y.readout
            &&& x.orders == y.orders
            &&& forall|f: StatusFlag|
                f != StatusFlag::NvmeHot ==> #[trigger] x.board.flags.contains(f)
                    == y.board.flags.contains(f)
        }),
    decreases p.len(),
{
    if p.len() > 0 {
        lemma_hot_drive_only_reports_in_a_run(a, b, p.drop_last(), q.drop_last());
        let (c, d) = (p.last(), q.last());
        lemma_hot_drive_only_reports_in_a_sample(
            after_courses(a, p.drop_last()),
            after_courses(b, q.drop_last()),
            c.sample,
            d.sample,
            c.fenced,
            c.replies,
        );
    }
    lemma_alike_shares(after_courses(a, p), after_courses(b, q));
    reveal(same_flags);
}

/// The flag of a hot drive stands as it did, on a board that is in order.
spec fn keeps_drive(a: BoardView, b: BoardView) -> bool {
    a.wf() ==> b.wf() && b.flags.contains(StatusFlag::NvmeHot) == a.flags.contains(
        StatusFlag::NvmeHot,
    )
}

proof fn lemma_other_flag(b: BoardView, f: StatusFlag, active: bool)
    requires
        f != StatusFlag::NvmeHot,
    ensures
        keeps_drive(b, b.set(f, active)),
{
    if b.wf() {
        lemma_set_flag(b, f, active);
    }
}

proof fn lemma_measuring_keeps_drive(m: Model, s: Sample, fenced: bool)
    ensures
        keeps_drive(m.board, m.measured(s, fenced).0.board),
{
    reveal(Model::measured);
    reveal(Model::scheduled);
    reveal(Model::closed);
    reveal(Model::complied);
    reveal(Model::unstuck);
    lemma_other_flag(m.board, StatusFlag::LimitNotSticking, true);
    lemma_other_flag(m.board, StatusFlag::LimitNotSticking, false);
}

proof fn lemma_writing_keeps_drive(m: Model, s: Sample, fenced: bool)
    ensures
        keeps_drive(m.board, m.writing(s, fenced).0.board),
{
    reveal(Model::writing);
    reveal(Model::verifying);
    reveal(Model::locking);
    reveal(Model::settled);
    lemma_measuring_keeps_drive(m, s, fenced);
    if m.run.pass.decisions is Some {
        let l = m.because(Cause::DeviceLoops).learned(s, m.run.pass.decisions->0);
        assert(l.board == m.board) by {
            reveal(Model::learned);
        }
        lemma_measuring_keeps_drive(l, s, fenced);
    }
}

proof fn lemma_publishing_flags_the_drive(
    b: BoardView,
    s: Sample,
    d: Decisions,
    reply: SourceReply,
    curve: TreadReply,
    ec_mismatch: bool,
    has_gains: bool,
)
    requires
        b.wf(),
    ensures
        ({
            let after = flagged(b, s, d, reply, curve, ec_mismatch, has_gains);
            after.wf() && after.flags.contains(StatusFlag::NvmeHot) == d.guard.nvme_hot
        }),
{
    reveal(flagged);
    lemma_set_flag(b, StatusFlag::GpuHot, d.guard.gpu_hot);
    let b1 = b.set(StatusFlag::GpuHot, d.guard.gpu_hot);
    lemma_set_flag(b1, StatusFlag::NvmeHot, d.guard.nvme_hot);
    let b2 = b1.set(StatusFlag::NvmeHot, d.guard.nvme_hot);
    lemma_other_flag(b2, StatusFlag::EcMismatch, ec_mismatch);
    let b3 = b2.set(StatusFlag::EcMismatch, ec_mismatch);
    let stale = s.fanctrl_freshness != Freshness::Fresh;
    lemma_other_flag(b3, StatusFlag::FanctrlLost, stale);
    let b4 = b3.set(StatusFlag::FanctrlLost, stale);
    lemma_other_flag(b4, StatusFlag::CurveInvalid, curve.invalid);
    let b5 = b4.set(StatusFlag::CurveInvalid, curve.invalid);
    let steep = says_steep(reply.flags@);
    lemma_other_flag(b5, StatusFlag::SteepCurve, steep);
    let b6 = b5.set(StatusFlag::SteepCurve, steep);
    let far = says_unreachable(reply.flags@);
    lemma_other_flag(b6, StatusFlag::TargetUnreachable, far);
    let b7 = b6.set(StatusFlag::TargetUnreachable, far);
    lemma_other_flag(b7, StatusFlag::NotCalibrated, !has_gains);
}

/// A closed-loop sample flags a hot drive exactly if its guard says so.
pub proof fn lemma_hot_drive_is_flagged(
    m: Model,
    s: Sample,
    reply: SourceReply,
    curve: TreadReply,
    duty: u8,
    rpm: Num,
    fenced: bool,
)
    requires
        m.board.wf(),
        m.auto is Some,
    ensures
        ({
            let after = m.sourced(s, reply, curve, duty, rpm, fenced).0;
            let session = m.auto->0.session;
            after.board.flags.contains(StatusFlag::NvmeHot) == stays_hot(
                session.guards.nvme_hot,
                s.nvme_temp_c,
                session.guards.nvme_hot_c,
                Num(NVME_HYSTERESIS_C),
            )
        }),
{
    reveal(Model::sourced);
    let d = m.decided(s, reply, duty, rpm);
    let decisions = d.run.pass.decisions->0;
    assert(d.board == m.board && decisions.guard == m.auto->0.session.guard(s)) by {
        reveal(Model::decided);
        reveal(AutoView::decisions);
    }
    let p = d.published(s, decisions, reply, curve);
    assert(p.board.wf() && p.board.flags.contains(StatusFlag::NvmeHot) == decisions.guard.nvme_hot)
        by {
        reveal(Model::published);
        lemma_publishing_flags_the_drive(
            d.board,
            s,
            decisions,
            reply,
            curve,
            d.run.pass.ec_mismatch,
            fitted(d.store, s.fanctrl),
        );
    }
    if reply.state == TStarState::Released {
        let i = p.idled();
        lemma_other_flag(p.board, StatusFlag::ReadbackBlind, false);
        lemma_other_flag(
            p.board.set(StatusFlag::ReadbackBlind, false),
            StatusFlag::LimitNotSticking,
            false,
        );
        reveal(Model::idled);
        reveal(Model::let_go);
        lemma_measuring_keeps_drive(i, s, fenced);
        lemma_measuring_keeps_drive(i.let_go(), s, fenced);
    } else {
        lemma_writing_keeps_drive(p, s, fenced);
    }
}

} // verus!
