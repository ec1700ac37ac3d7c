//! That an NVMe drive's temperature only reports: it moves no cap, no target
//! and no limit.

use crate::controller::auto::{AutoView, Session};
use crate::controller::board::{lemma_set_flag, BoardView};
use crate::controller::config::Config;
use crate::controller::drive::{cpu_input, gpu_input, Decisions, DriveFacts};
use crate::controller::effect::Cause;
use crate::controller::intake::{observation_of, seed_of};
use crate::controller::machine::Model;
use crate::controller::plain::{LockReply, Next, Pass};
use crate::controller::publish::{fitted, flagged, TreadReply};
use crate::controller::report::{says_steep, says_unreachable, SourceReply, TStarState};
use crate::controller::steady::{fan_after, SteadyFacts};
use crate::controller::trial::ScoreReply;
use crate::controller::upkeep::{is_blind, synced};
use crate::controller::verdict::{VerdictOutcome, WriteVerdict};
use crate::controller::writes::{clock_of, taught};
use crate::device_loop::Gains;
use crate::guards::{GuardState, Guards};
use crate::num::Num;
use crate::status::StatusFlag;
use crate::types::{Freshness, Sample};
use vstd::prelude::*;

verus! {

/// The samples are equal but for the drive's temperature.
pub open spec fn same_but_drive(s: Sample, t: Sample) -> bool {
    s == (Sample { nvme_temp_c: s.nvme_temp_c, ..t })
}

/// The sessions are equal but for a hot drive.
pub open spec fn same_session(a: AutoView, b: AutoView) -> bool {
    a == (AutoView {
        session: Session {
            guards: Guards { nvme_hot: a.session.guards.nvme_hot, ..b.session.guards },
            ..b.session
        },
        ..b
    })
}

/// The decisions are equal but for a hot drive.
pub open spec fn same_decisions(a: Decisions, b: Decisions) -> bool {
    a == (Decisions { guard: GuardState { nvme_hot: a.guard.nvme_hot, ..b.guard }, ..b })
}

/// So far the samples have found out the same, but for a hot drive.
pub open spec fn same_pass(a: Pass, b: Pass) -> bool {
    &&& a == (Pass { decisions: a.decisions, ..b })
    &&& match (a.decisions, b.decisions) {
        (Some(x), Some(y)) => same_decisions(x, y),
        (None, None) => true,
        _ => false,
    }
}

/// The same flags are up but for that of a hot drive.
#[verifier::opaque]
pub open spec fn same_flags(a: BoardView, b: BoardView) -> bool {
    &&& a.wf()
    &&& b.wf()
    &&& forall|f: StatusFlag|
        f != StatusFlag::NvmeHot ==> #[trigger] a.flags.contains(f) == b.flags.contains(f)
}

/// The states are equal but for a hot drive: the same limits, target, readout,
/// session, store and orders, and the same flags but one. What was reported on
/// the way, which tells of that flag, may differ.
#[verifier::opaque]
pub open spec fn alike(a: Model, b: Model) -> bool {
    &&& a == (Model { board: a.board, auto: a.auto, run: a.run, ..b })
    &&& match (a.auto, b.auto) {
        (Some(x), Some(y)) => same_session(x, y),
        (None, None) => true,
        _ => false,
    }
    &&& same_flags(a.board, b.board)
    &&& a.run.cause == b.run.cause
    &&& same_pass(a.run.pass, b.run.pass)
}

/// The turns are equal but for a hot drive: the states are alike and the same
/// is to be done next.
pub open spec fn same_turn(a: (Model, Next), b: (Model, Next)) -> bool {
    alike(a.0, b.0) && a.1 == b.1
}

/// A flag set alike.
pub proof fn lemma_same_set(a: BoardView, b: BoardView, flag: StatusFlag, x: bool, y: bool)
    requires
        same_flags(a, b),
        flag == StatusFlag::NvmeHot || x == y,
    ensures
        same_flags(a.set(flag, x), b.set(flag, y)),
{
    reveal(same_flags);
    lemma_set_flag(a, flag, x);
    lemma_set_flag(b, flag, y);
}

/// What alike states share.
pub proof fn lemma_alike_shares(a: Model, b: Model)
    requires
        alike(a, b),
    ensures
        a.core == b.core,
        a.config == b.config,
        a.rig == b.rig,
        a.store == b.store,
        a.readout == b.readout,
        a.orders == b.orders,
        a.auto is Some <==> b.auto is Some,
        a.auto is Some ==> same_session(a.auto->0, b.auto->0),
        same_flags(a.board, b.board),
        same_pass(a.run.pass, b.run.pass),
{
    reveal(alike);
}

/// A sample ended alike.
pub proof fn lemma_same_finished(a: Model, b: Model)
    requires
        alike(a, b),
    ensures
        same_turn(a.finished(), b.finished()),
{
    reveal(alike);
    reveal(Model::closed);
    assert(same_flags(a.board.drained(), b.board.drained())) by {
        reveal(same_flags);
    }
}

/// The schedule kept alike.
pub proof fn lemma_same_scheduled(a: Model, b: Model, t_mono: Num, fenced: bool)
    requires
        alike(a, b),
    ensures
        same_turn(a.scheduled(t_mono, fenced), b.scheduled(t_mono, fenced)),
{
    let core = a.core.tended(Some(t_mono));
    let (x, y) = (Model { core, ..a }, Model { core, ..b });
    lemma_alike_shares(a, b);
    assert(alike(x, y)) by {
        reveal(alike);
    }
    lemma_same_finished(a, b);
    lemma_same_finished(x, y);
    assert(a.plan(fenced) == b.plan(fenced));
    reveal(Model::scheduled);
}

proof fn lemma_same_streak(a: Model, b: Model, n: u8)
    requires
        alike(a, b),
    ensures
        alike(a.violated(n), b.violated(n)),
        alike(a.violated(n).unstuck(), b.violated(n).unstuck()),
        alike(a.complied(), b.complied()),
{
    reveal(alike);
    reveal(Model::complied);
    reveal(Model::unstuck);
    lemma_same_set(a.board, b.board, StatusFlag::LimitNotSticking, true, true);
    lemma_same_set(a.board, b.board, StatusFlag::LimitNotSticking, false, false);
}

/// The draw measured alike.
pub proof fn lemma_same_measured(a: Model, b: Model, s: Sample, t: Sample, fenced: bool)
    requires
        alike(a, b),
        same_but_drive(s, t),
    ensures
        same_turn(a.measured(s, fenced), b.measured(t, fenced)),
{
    lemma_alike_shares(a, b);
    let n = (a.core.watch.stick_violations + 1) as u8;
    lemma_same_streak(a, b, 0);
    lemma_same_streak(a, b, n);
    lemma_same_scheduled(a, b, s.t_mono, fenced);
    lemma_same_scheduled(a.complied(), b.complied(), s.t_mono, fenced);
    lemma_same_scheduled(a.violated(0).unstuck(), b.violated(0).unstuck(), s.t_mono, fenced);
    lemma_same_scheduled(a.violated(n), b.violated(n), s.t_mono, fenced);
    assert(a.plan(fenced) == b.plan(fenced));
    reveal(Model::measured);
}

/// The facts are equal but for a hot drive.
pub open spec fn same_facts(f: SteadyFacts, g: SteadyFacts) -> bool {
    &&& f == (SteadyFacts { decisions: f.decisions, ..g })
    &&& same_decisions(f.decisions, g.decisions)
}

proof fn lemma_same_judgement(
    a: AutoView,
    b: AutoView,
    s: Sample,
    t: Sample,
    f: SteadyFacts,
    g: SteadyFacts,
)
    requires
        same_session(a, b),
        same_but_drive(s, t),
        same_facts(f, g),
    ensures
        s.fanctrl is Some ==> a.qualifies(s, s.fanctrl->0, f) == b.qualifies(t, s.fanctrl->0, g),
        f.pair() == g.pair(),
{
    reveal(AutoView::qualifies);
}

proof fn lemma_same_fan(
    a: AutoView,
    b: AutoView,
    s: Sample,
    t: Sample,
    f: SteadyFacts,
    g: SteadyFacts,
)
    requires
        same_session(a, b),
        same_but_drive(s, t),
        same_facts(f, g),
    ensures
        fan_after(a.fan, s) == fan_after(b.fan, t),
        a.on_speed(s, f) == b.on_speed(t, g),
{
    reveal(fan_after);
}

proof fn lemma_same_lesson(
    a: AutoView,
    b: AutoView,
    s: Sample,
    t: Sample,
    f: SteadyFacts,
    g: SteadyFacts,
)
    requires
        same_session(a, b),
        same_but_drive(s, t),
        same_facts(f, g),
    ensures
        a.lesson(s, f) == b.lesson(t, g),
        same_session(a.learned(s, f), b.learned(t, g)),
{
    lemma_same_judgement(a, b, s, t, f, g);
    lemma_same_fan(a, b, s, t, f, g);
    assert(a.lesson(s, f) == b.lesson(t, g)) by {
        reveal(AutoView::lesson);
    }
    assert(same_session(a.learned(s, f), b.learned(t, g))) by {
        reveal(AutoView::learned);
    }
}

proof fn lemma_same_learned(
    a: Model,
    b: Model,
    s: Sample,
    t: Sample,
    d: Decisions,
    e: Decisions,
)
    requires
        alike(a, b),
        same_but_drive(s, t),
        a.auto is Some,
        same_decisions(d, e),
    ensures
        alike(a.learned(s, d), b.learned(t, e)),
{
    lemma_alike_shares(a, b);
    let (f, g) = (a.steady_facts(d), b.steady_facts(e));
    lemma_same_lesson(a.auto->0, b.auto->0, s, t, f, g);
    let lesson = a.auto->0.lesson(s, f);
    assert(taught(a.store, s, f.target_duty, lesson) == taught(b.store, t, g.target_duty, lesson))
        by {
        reveal(taught);
    }
    reveal(alike);
    reveal(Model::learned);
}

proof fn lemma_same_settled(a: Model, b: Model, s: Sample, t: Sample, fenced: bool)
    requires
        alike(a, b),
        same_but_drive(s, t),
    ensures
        same_turn(a.settled(s, fenced), b.settled(t, fenced)),
{
    reveal(Model::settled);
    lemma_alike_shares(a, b);
    lemma_same_measured(a, b, s, t, fenced);
    if a.auto is Some && a.run.pass.decisions is Some {
        let (d, e) = (a.run.pass.decisions->0, b.run.pass.decisions->0);
        let (x, y) = (a.because(Cause::DeviceLoops), b.because(Cause::DeviceLoops));
        assert(alike(x, y)) by {
            reveal(alike);
        }
        lemma_same_learned(x, y, s, t, d, e);
        lemma_same_measured(x.learned(s, d), y.learned(t, e), s, t, fenced);
    }
}

proof fn lemma_same_writing(
    a: Model,
    b: Model,
    s: Sample,
    t: Sample,
    o: VerdictOutcome,
    fenced: bool,
)
    requires
        alike(a, b),
        same_but_drive(s, t),
    ensures
        same_turn(a.locking(s, o, fenced), b.locking(t, o, fenced)),
        same_turn(a.verifying(s, fenced), b.verifying(t, fenced)),
        same_turn(a.writing(s, fenced), b.writing(t, fenced)),
{
    lemma_alike_shares(a, b);
    reveal(Model::locking);
    reveal(Model::verifying);
    reveal(Model::writing);
    lemma_same_settled(a, b, s, t, fenced);
}

proof fn lemma_same_shown(
    a: Model,
    b: Model,
    s: Sample,
    t: Sample,
    d: Decisions,
    e: Decisions,
    reply: SourceReply,
    curve: TreadReply,
)
    requires
        alike(a, b),
        same_but_drive(s, t),
        same_decisions(d, e),
    ensures
        alike(a.published(s, d, reply, curve), b.published(t, e, reply, curve)),
        a.published(s, d, reply, curve).auto == a.auto,
{
    reveal(alike);
    reveal(Model::published);
    reveal(Model::read_out);
    reveal(flagged);
    reveal(crate::controller::publish::gauged);
    reveal(crate::controller::publish::diagnosed);
    let (a1, b1) = (
        a.board.set(StatusFlag::GpuHot, d.guard.gpu_hot),
        b.board.set(StatusFlag::GpuHot, e.guard.gpu_hot),
    );
    lemma_same_set(a.board, b.board, StatusFlag::GpuHot, d.guard.gpu_hot, e.guard.gpu_hot);
    let (a2, b2) = (
        a1.set(StatusFlag::NvmeHot, d.guard.nvme_hot),
        b1.set(StatusFlag::NvmeHot, e.guard.nvme_hot),
    );
    lemma_same_set(a1, b1, StatusFlag::NvmeHot, d.guard.nvme_hot, e.guard.nvme_hot);
    let has_gains = fitted(a.store, s.fanctrl);
    lemma_same_rest(a2, b2, s, reply, curve, a.run.pass.ec_mismatch, has_gains);
}

proof fn lemma_same_rest(
    a: BoardView,
    b: BoardView,
    s: Sample,
    reply: SourceReply,
    curve: TreadReply,
    ec_mismatch: bool,
    has_gains: bool,
)
    requires
        same_flags(a, b),
    ensures
        ({
            let stale = s.fanctrl_freshness != Freshness::Fresh;
            let steep = says_steep(reply.flags@);
            let far = says_unreachable(reply.flags@);
            same_flags(
                a.set(StatusFlag::EcMismatch, ec_mismatch).set(StatusFlag::FanctrlLost, stale).set(
                    StatusFlag::CurveInvalid,
                    curve.invalid,
                ).set(StatusFlag::SteepCurve, steep).set(StatusFlag::TargetUnreachable, far).set(
                    StatusFlag::NotCalibrated,
                    !has_gains,
                ),
                b.set(StatusFlag::EcMismatch, ec_mismatch).set(StatusFlag::FanctrlLost, stale).set(
                    StatusFlag::CurveInvalid,
                    curve.invalid,
                ).set(StatusFlag::SteepCurve, steep).set(StatusFlag::TargetUnreachable, far).set(
                    StatusFlag::NotCalibrated,
                    !has_gains,
                ),
            )
        }),
{
    let stale = s.fanctrl_freshness != Freshness::Fresh;
    let steep = says_steep(reply.flags@);
    let far = says_unreachable(reply.flags@);
    lemma_same_set(a, b, StatusFlag::EcMismatch, ec_mismatch, ec_mismatch);
    let (a1, b1) = (
        a.set(StatusFlag::EcMismatch, ec_mismatch),
        b.set(StatusFlag::EcMismatch, ec_mismatch),
    );
    lemma_same_set(a1, b1, StatusFlag::FanctrlLost, stale, stale);
    let (a2, b2) = (
        a1.set(StatusFlag::FanctrlLost, stale),
        b1.set(StatusFlag::FanctrlLost, stale),
    );
    lemma_same_set(a2, b2, StatusFlag::CurveInvalid, curve.invalid, curve.invalid);
    let (a3, b3) = (
        a2.set(StatusFlag::CurveInvalid, curve.invalid),
        b2.set(StatusFlag::CurveInvalid, curve.invalid),
    );
    lemma_same_set(a3, b3, StatusFlag::SteepCurve, steep, steep);
    let (a4, b4) = (
        a3.set(StatusFlag::SteepCurve, steep),
        b3.set(StatusFlag::SteepCurve, steep),
    );
    lemma_same_set(a4, b4, StatusFlag::TargetUnreachable, far, far);
    lemma_same_set(
        a4.set(StatusFlag::TargetUnreachable, far),
        b4.set(StatusFlag::TargetUnreachable, far),
        StatusFlag::NotCalibrated,
        !has_gains,
        !has_gains,
    );
}

proof fn lemma_same_sight(
    a: AutoView,
    b: AutoView,
    s: Sample,
    t: Sample,
    reply: SourceReply,
    c: Config,
    f: DriveFacts,
)
    requires
        same_session(a, b),
        same_but_drive(s, t),
    ensures
        a.cpu_sees(s, reply, c, f) == b.cpu_sees(t, reply, c, f),
        a.gpu_sees(s, reply, c, f) == b.gpu_sees(t, reply, c, f),
{
    reveal(cpu_input);
    reveal(gpu_input);
}

proof fn lemma_same_guards(a: AutoView, b: AutoView, s: Sample, t: Sample, c: Config)
    requires
        same_session(a, b),
        same_but_drive(s, t),
    ensures
        a.cpu_under_ceiling(s, c) == b.cpu_under_ceiling(t, c),
        a.gpu_under_ceiling(s, c) == b.gpu_under_ceiling(t, c),
        ({
            let (x, y) = (a.session.guarded(s, c), b.session.guarded(t, c));
            x == Session { guards: Guards { nvme_hot: x.guards.nvme_hot, ..y.guards }, ..y }
        }),
{
    reveal(Session::guarded);
}

proof fn lemma_same_lanes(
    a: AutoView,
    b: AutoView,
    s: Sample,
    t: Sample,
    reply: SourceReply,
    c: Config,
    f: DriveFacts,
)
    requires
        same_session(a, b),
        same_but_drive(s, t),
    ensures
        same_session(a.driven(s, reply, c, f), b.driven(t, reply, c, f)),
        same_decisions(a.decisions(s, reply, c, f), b.decisions(t, reply, c, f)),
{
    lemma_same_sight(a, b, s, t, reply, c, f);
    lemma_same_guards(a, b, s, t, c);
    assert(same_session(a.driven(s, reply, c, f), b.driven(t, reply, c, f))) by {
        reveal(AutoView::driven);
    }
    assert(same_decisions(a.decisions(s, reply, c, f), b.decisions(t, reply, c, f))) by {
        reveal(AutoView::decisions);
    }
}

proof fn lemma_same_drive(
    a: Model,
    b: Model,
    s: Sample,
    t: Sample,
    reply: SourceReply,
    duty: u8,
    rpm: Num,
)
    requires
        alike(a, b),
        same_but_drive(s, t),
        a.auto is Some,
    ensures
        alike(a.decided(s, reply, duty, rpm), b.decided(t, reply, duty, rpm)),
        a.decided(s, reply, duty, rpm).auto is Some,
        a.decided(s, reply, duty, rpm).run.pass.decisions is Some,
{
    lemma_alike_shares(a, b);
    let f = a.drive_facts(s, duty);
    assert(f == b.drive_facts(t, duty)) by {
        reveal(crate::controller::samples::recorded_pair);
    }
    lemma_same_lanes(a.auto->0, b.auto->0, s, t, reply, a.config, f);
    reveal(alike);
    reveal(Model::decided);
}

/// A drive's temperature only reports: two samples that differ in nothing else
/// lead to the same decisions, limits, readout, orders and next turn, and to
/// the same flags but that of a hot drive.
pub proof fn lemma_hot_drive_only_reports(
    a: Model,
    b: Model,
    s: Sample,
    t: Sample,
    reply: SourceReply,
    curve: TreadReply,
    duty: u8,
    rpm: Num,
    fenced: bool,
)
    requires
        alike(a, b),
        same_but_drive(s, t),
    ensures
        same_turn(
            a.sourced(s, reply, curve, duty, rpm, fenced),
            b.sourced(t, reply, curve, duty, rpm, fenced),
        ),
{
    lemma_alike_shares(a, b);
    reveal(Model::sourced);
    if a.auto is Some {
        lemma_same_drive(a, b, s, t, reply, duty, rpm);
        let (x, y) = (a.decided(s, reply, duty, rpm), b.decided(t, reply, duty, rpm));
        lemma_alike_shares(x, y);
        let (d, e) = (x.run.pass.decisions->0, y.run.pass.decisions->0);
        lemma_same_shown(x, y, s, t, d, e, reply, curve);
        let (p, q) = (x.published(s, d, reply, curve), y.published(t, e, reply, curve));
        if reply.state == TStarState::Released {
            lemma_same_idled(p, q, s, t, fenced);
        } else {
            lemma_same_writing(p, q, s, t, VerdictOutcome::Quiet, fenced);
        }
    } else {
        lemma_same_measured(a, b, s, t, fenced);
    }
}

proof fn lemma_same_idled(a: Model, b: Model, s: Sample, t: Sample, fenced: bool)
    requires
        alike(a, b),
        same_but_drive(s, t),
        a.auto is Some,
    ensures
        same_turn(a.idled().measured(s, fenced), b.idled().measured(t, fenced)),
        same_turn(a.idled().let_go().measured(s, fenced), b.idled().let_go().measured(t, fenced)),
{
    reveal(Model::idled);
    reveal(Model::let_go);
    reveal(AutoView::disengaged);
    lemma_alike_shares(a, b);
    lemma_same_set(a.board, b.board, StatusFlag::ReadbackBlind, false, false);
    lemma_same_set(
        a.board.set(StatusFlag::ReadbackBlind, false),
        b.board.set(StatusFlag::ReadbackBlind, false),
        StatusFlag::LimitNotSticking,
        false,
        false,
    );
    assert(alike(a.idled(), b.idled()) && alike(a.idled().let_go(), b.idled().let_go())) by {
        reveal(alike);
    }
    lemma_same_measured(a.idled(), b.idled(), s, t, fenced);
    lemma_same_measured(a.idled().let_go(), b.idled().let_go(), s, t, fenced);
}

/// The flags of read-backs synced alike.
pub proof fn lemma_same_synced(a: BoardView, b: BoardView, x: AutoView, y: AutoView)
    requires
        same_flags(a, b),
        same_session(x, y),
    ensures
        same_flags(synced(a, Some(x)), synced(b, Some(y))),
{
    reveal(synced);
    let blind = is_blind(Some(x));
    lemma_same_set(a, b, StatusFlag::LimitNotSticking, true, true);
    lemma_same_set(a, b, StatusFlag::ReadbackBlind, blind, blind);
    lemma_same_set(
        a.set(StatusFlag::LimitNotSticking, true),
        b.set(StatusFlag::LimitNotSticking, true),
        StatusFlag::ReadbackBlind,
        blind,
        blind,
    );
}

/// A CPU write taken in alike.
pub proof fn lemma_same_after_cpu(
    a: Model,
    b: Model,
    s: Sample,
    t: Sample,
    verdict: WriteVerdict,
    done: Num,
    retry: bool,
    fenced: bool,
)
    requires
        alike(a, b),
        same_but_drive(s, t),
    ensures
        same_turn(
            a.after_cpu(s, verdict, done, retry, fenced),
            b.after_cpu(t, verdict, done, retry, fenced),
        ),
{
    lemma_alike_shares(a, b);
    reveal(Model::after_cpu);
    lemma_same_settled(a, b, s, t, fenced);
    if a.auto is Some {
        lemma_same_cpu_taken(a, b, s.t_mono, verdict, done);
        lemma_same_writing(
            a.cpu_settled(verdict, done, s.t_mono),
            b.cpu_settled(verdict, done, s.t_mono),
            s,
            t,
            VerdictOutcome::Quiet,
            fenced,
        );
    }
}

/// A read-back of the GPU taken in alike.
pub proof fn lemma_same_after_gpu(
    a: Model,
    b: Model,
    s: Sample,
    t: Sample,
    verdict: WriteVerdict,
    fenced: bool,
)
    requires
        alike(a, b),
        same_but_drive(s, t),
    ensures
        same_turn(a.after_gpu(s, verdict, fenced), b.after_gpu(t, verdict, fenced)),
{
    lemma_alike_shares(a, b);
    reveal(Model::after_gpu);
    lemma_same_settled(a, b, s, t, fenced);
    if a.auto is Some {
        lemma_same_gpu_taken(a, b, s.t_mono, verdict);
        lemma_same_writing(
            a.gpu_settled(verdict, s.t_mono),
            b.gpu_settled(verdict, s.t_mono),
            s,
            t,
            a.auto->0.gpu_outcome(verdict, s.t_mono),
            fenced,
        );
    }
}

/// A lock taken in alike.
pub proof fn lemma_same_relocked(x: AutoView, y: AutoView, mhz: u32, lock: LockReply, done: Num)
    requires
        same_session(x, y),
    ensures
        same_session(x.relocked(mhz, lock, done), y.relocked(mhz, lock, done)),
{
    reveal(AutoView::relocked);
    reveal(AutoView::commanded);
}

proof fn lemma_same_locked(a: Model, b: Model, mhz: u32, lock: LockReply, done: Num)
    requires
        alike(a, b),
        a.auto is Some,
    ensures
        alike(a.gpu_locked(mhz, lock, done), b.gpu_locked(mhz, lock, done)),
{
    reveal(alike);
    lemma_same_relocked(a.auto->0, b.auto->0, mhz, lock, done);
    reveal(Model::gpu_locked);
}

/// The turn after a lock alike.
pub proof fn lemma_same_after_lock(
    a: Model,
    b: Model,
    s: Sample,
    t: Sample,
    lock: LockReply,
    done: Num,
    fenced: bool,
)
    requires
        alike(a, b),
        same_but_drive(s, t),
    ensures
        same_turn(a.after_lock(s, lock, done, fenced), b.after_lock(t, lock, done, fenced)),
{
    lemma_alike_shares(a, b);
    reveal(Model::after_lock);
    lemma_same_settled(a, b, s, t, fenced);
    if a.auto is Some && a.run.pass.decisions is Some {
        let mhz = clock_of(a.run.pass.decisions->0.gpu.cap);
        lemma_same_locked(a, b, mhz, lock, done);
        lemma_same_settled(
            a.gpu_locked(mhz, lock, done),
            b.gpu_locked(mhz, lock, done),
            s,
            t,
            fenced,
        );
    }
}

/// So it does in the turns that a write or a read-back ends.
pub proof fn lemma_hot_drive_moves_no_write(
    a: Model,
    b: Model,
    s: Sample,
    t: Sample,
    verdict: WriteVerdict,
    lock: LockReply,
    done: Num,
    retry: bool,
    fenced: bool,
)
    requires
        alike(a, b),
        same_but_drive(s, t),
    ensures
        same_turn(
            a.after_cpu(s, verdict, done, retry, fenced),
            b.after_cpu(t, verdict, done, retry, fenced),
        ),
        same_turn(a.after_gpu(s, verdict, fenced), b.after_gpu(t, verdict, fenced)),
        same_turn(a.after_lock(s, lock, done, fenced), b.after_lock(t, lock, done, fenced)),
{
    lemma_same_after_cpu(a, b, s, t, verdict, done, retry, fenced);
    lemma_same_after_gpu(a, b, s, t, verdict, fenced);
    lemma_same_after_lock(a, b, s, t, lock, done, fenced);
}

proof fn lemma_same_cpu_taken(a: Model, b: Model, t_mono: Num, verdict: WriteVerdict, done: Num)
    requires
        alike(a, b),
        a.auto is Some,
    ensures
        alike(a.cpu_settled(verdict, done, t_mono), b.cpu_settled(verdict, done, t_mono)),
{
    reveal(alike);
    reveal(Model::cpu_settled);
    reveal(Model::outspoken);
    let (x, y) = (a.auto->0, b.auto->0);
    let (c, d) = (x.cpu_written(verdict, done, t_mono), y.cpu_written(verdict, done, t_mono));
    assert(same_session(c, d)) by {
        reveal(AutoView::cpu_written);
    }
    lemma_same_synced(a.board, b.board, c, d);
}

proof fn lemma_same_gpu_taken(a: Model, b: Model, t_mono: Num, verdict: WriteVerdict)
    requires
        alike(a, b),
        a.auto is Some,
    ensures
        alike(a.gpu_settled(verdict, t_mono), b.gpu_settled(verdict, t_mono)),
        a.auto->0.gpu_outcome(verdict, t_mono) == b.auto->0.gpu_outcome(verdict, t_mono),
{
    reveal(alike);
    reveal(Model::gpu_settled);
    reveal(Model::outspoken);
    let (x, y) = (a.auto->0, b.auto->0);
    let (g, h) = (x.gpu_judged(verdict, t_mono), y.gpu_judged(verdict, t_mono));
    assert(same_session(g, h)) by {
        reveal(AutoView::gpu_judged);
    }
    lemma_same_synced(a.board, b.board, g, h);
}

proof fn lemma_same_intake(
    a: AutoView,
    b: AutoView,
    s: Sample,
    t: Sample,
    c: Config,
    cpu: Map<Seq<char>, Gains>,
    gpu: Map<Seq<char>, Gains>,
)
    requires
        same_session(a, b),
        same_but_drive(s, t),
    ensures
        same_session(a.taken_in(s, c, cpu, gpu), b.taken_in(t, c, cpu, gpu)),
        a.replica_orders(s) == b.replica_orders(t),
{
    let (a1, b1) = (a.timed(s.t_mono), b.timed(t.t_mono));
    assert(same_session(a1, b1)) by {
        reveal(AutoView::timed);
    }
    let (a2, b2) = (a1.woken(s.resumed), b1.woken(t.resumed));
    assert(same_session(a2, b2)) by {
        reveal(AutoView::woken);
    }
    let (a3, b3) = (a2.retuned(s, c, cpu, gpu), b2.retuned(t, c, cpu, gpu));
    assert(same_session(a3, b3)) by {
        reveal(AutoView::retuned);
    }
    let (a4, b4) = (a3.powered(s.on_ac, s.t_mono), b3.powered(t.on_ac, t.t_mono));
    assert(same_session(a4, b4)) by {
        reveal(AutoView::powered);
    }
    assert(same_session(a4.sighted(s), b4.sighted(t))) by {
        reveal(AutoView::sighted);
    }
}

/// So it does before the decisions: the replica and the target's source are
/// asked the same.
pub proof fn lemma_hot_drive_asks_the_same(
    a: Model,
    b: Model,
    s: Sample,
    t: Sample,
    score: ScoreReply,
    ma: Option<Num>,
    gap_s: Num,
    fenced: bool,
)
    requires
        alike(a, b),
        same_but_drive(s, t),
    ensures
        same_turn(a.looped(s, fenced), b.looped(t, fenced)),
        same_turn(a.telling(s, ma, gap_s, fenced), b.telling(t, ma, gap_s, fenced)),
        same_turn(a.asking(s, score, fenced), b.asking(t, score, fenced)),
{
    lemma_same_looped(a, b, s, t, fenced);
    lemma_same_asking(a, b, s, t, score, fenced);
    lemma_same_telling(a, b, s, t, ma, gap_s, fenced);
}

/// The replica told alike.
pub proof fn lemma_same_telling(
    a: Model,
    b: Model,
    s: Sample,
    t: Sample,
    ma: Option<Num>,
    gap_s: Num,
    fenced: bool,
)
    requires
        alike(a, b),
        same_but_drive(s, t),
    ensures
        same_turn(a.telling(s, ma, gap_s, fenced), b.telling(t, ma, gap_s, fenced)),
{
    lemma_alike_shares(a, b);
    lemma_same_measured(a, b, s, t, fenced);
    reveal(observation_of);
}

/// The closed loop entered alike.
pub proof fn lemma_same_looped(a: Model, b: Model, s: Sample, t: Sample, fenced: bool)
    requires
        alike(a, b),
        same_but_drive(s, t),
    ensures
        same_turn(a.looped(s, fenced), b.looped(t, fenced)),
{
    lemma_alike_shares(a, b);
    lemma_same_measured(a, b, s, t, fenced);
    if a.auto is Some {
        let (cpu, gpu) = (a.store.cpu_gains, a.store.gpu_gains);
        lemma_same_intake(a.auto->0, b.auto->0, s, t, a.config, cpu, gpu);
    }
    assert(seed_of(s) == seed_of(t)) by {
        reveal(seed_of);
    }
    reveal(alike);
    reveal(Model::looped);
}

/// The target's source asked alike.
pub proof fn lemma_same_asking(
    a: Model,
    b: Model,
    s: Sample,
    t: Sample,
    score: ScoreReply,
    fenced: bool,
)
    requires
        alike(a, b),
        same_but_drive(s, t),
    ensures
        same_turn(a.asking(s, score, fenced), b.asking(t, score, fenced)),
{
    lemma_alike_shares(a, b);
    assert(alike(a.pass_with(score), b.pass_with(score))) by {
        reveal(alike);
    }
    lemma_same_measured(a.pass_with(score), b.pass_with(score), s, t, fenced);
    reveal(alike);
    reveal(AutoView::source_request);
    reveal(Model::asking);
}

} // verus!
