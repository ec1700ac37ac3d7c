//! What the controller promises across its parts.

use crate::controller::auto::AutoView;
use crate::controller::board::{lemma_set_flag, BoardView};
use crate::controller::calibration::{tally, CalibStep};
use crate::controller::commands::{Answer, Command};
use crate::controller::config::{FAN_TARGET_MAX_RPM, FAN_TARGET_MIN_RPM};
use crate::controller::effect::{Cause, Effect};
use crate::controller::lane::{LaneInput, LaneView};
use crate::controller::machine::{quieted, releasing, Model};
use crate::controller::plain::{
    Abort, CapCheck, LockReply, Next, Order, Trip, Why, REASSERT_PERIOD_S, STICKINESS_MARGIN_W,
    STICKINESS_SAMPLES, STICKINESS_SAMPLES_STRICT,
};
use crate::controller::samples::{trip_cause, trip_flag};
use crate::controller::trial::ScoreReply;
use crate::controller::verdict::{VerdictOutcome, WriteVerdict};
use crate::device_loop::numbers::{
    finite_draws, lemma_numbers_stay_numbers, longest_step, numbered, numeric, usable,
};
use crate::device_loop::{bounds_of, Gains, LoopState, Plant};
use crate::num::{Num, ZERO};
use crate::status::{Mode, StatusFlag};
use crate::types::{FanctrlView, Freshness, Sample};
use vstd::prelude::*;

verus! {

/// A turn that leads to a write of an actuator.
pub open spec fn asks_for_write(n: Next) -> bool {
    n is WriteCpu || n is LockGpu || n is Reassert || n is CheckCap
}

proof fn lemma_fenced_upkeep(m: Model, s: Sample)
    ensures
        !asks_for_write(m.finished().1),
        !asks_for_write(m.scheduled(s.t_mono, true).1),
        !asks_for_write(m.measured(s, true).1),
{
    reveal(Model::scheduled);
    reveal(Model::measured);
}

proof fn lemma_fenced_writes(m: Model, s: Sample, o: VerdictOutcome)
    ensures
        !asks_for_write(m.settled(s, true).1),
        !asks_for_write(m.locking(s, o, true).1),
        !asks_for_write(m.verifying(s, true).1),
        !asks_for_write(m.writing(s, true).1),
{
    reveal(Model::settled);
    reveal(Model::locking);
    reveal(Model::verifying);
    reveal(Model::writing);
    lemma_fenced_upkeep(m, s);
    if m.run.pass.decisions is Some {
        lemma_fenced_upkeep(
            m.because(Cause::DeviceLoops).learned(s, m.run.pass.decisions->0),
            s,
        );
    }
}

/// Once the machine shuts down, a sample is not handled at all, no turn of one
/// under way leads to a write, no command asks for one, and nothing is written
/// for a calibration's runner.
pub proof fn lemma_shutdown_stops_writes(
    m: Model,
    s: Sample,
    c: Command,
    tripped: bool,
    verdict: WriteVerdict,
    lock: LockReply,
    done: Num,
    retry: bool,
    w: Num,
    mhz: u32,
)
    ensures
        m.begun(true).1 is Done,
        m.runner_cap(w, true) is Err && m.runner_clock(mhz, true) is Err,
        !(m.request(c, tripped, true) is WriteCpu) && !(m.request(c, tripped, true) is LockGpu),
        !asks_for_write(m.looped(s, true).1),
        !asks_for_write(m.waking(s, true).1),
        !asks_for_write(m.writing(s, true).1),
        !asks_for_write(m.after_cpu(s, verdict, done, retry, true).1),
        !asks_for_write(m.after_gpu(s, verdict, true).1),
        !asks_for_write(m.after_lock(s, lock, done, true).1),
        !asks_for_write(m.measured(s, true).1),
{
    reveal(Model::request);
    reveal(Model::looped);
    reveal(Model::waking);
    reveal(Model::after_cpu);
    reveal(Model::after_gpu);
    reveal(Model::after_lock);
    lemma_fenced_upkeep(m, s);
    lemma_fenced_upkeep(m.resume_over(), s);
    lemma_fenced_upkeep(m.resumed(s.t_mono).because(Cause::Resume), s);
    lemma_fenced_writes(m, s, VerdictOutcome::Quiet);
    lemma_fenced_writes(m.cpu_settled(verdict, done, s.t_mono), s, VerdictOutcome::Quiet);
    if m.auto is Some {
        lemma_fenced_writes(
            m.gpu_settled(verdict, s.t_mono),
            s,
            m.auto->0.gpu_outcome(verdict, s.t_mono),
        );
    }
    if m.run.pass.decisions is Some {
        lemma_fenced_writes(
            m.gpu_locked(
                crate::controller::writes::clock_of(m.run.pass.decisions->0.gpu.cap),
                lock,
                done,
            ),
            s,
            VerdictOutcome::Quiet,
        );
    }
}

proof fn lemma_quieted(b: BoardView, f: StatusFlag)
    requires
        b.wf(),
        f == StatusFlag::ThermalEmergency || f == StatusFlag::SensorLost || f
            == StatusFlag::Resumed,
    ensures
        quieted(b).wf(),
        quieted(b).flags.contains(f) == b.flags.contains(f),
        !quieted(b).flags.contains(StatusFlag::LimitNotSticking),
        !quieted(b).flags.contains(StatusFlag::ReadbackBlind),
        !quieted(b).flags.contains(StatusFlag::GpuHot),
{
    reveal(quieted);
    let b1 = b.set(StatusFlag::TargetUnreachable, false);
    lemma_set_flag(b, StatusFlag::TargetUnreachable, false);
    let b2 = b1.set(StatusFlag::LimitNotSticking, false);
    lemma_set_flag(b1, StatusFlag::LimitNotSticking, false);
    let b3 = b2.set(StatusFlag::NotCalibrated, false);
    lemma_set_flag(b2, StatusFlag::NotCalibrated, false);
    let b4 = b3.set(StatusFlag::FanctrlLost, false);
    lemma_set_flag(b3, StatusFlag::FanctrlLost, false);
    let b5 = b4.set(StatusFlag::EcMismatch, false);
    lemma_set_flag(b4, StatusFlag::EcMismatch, false);
    let b6 = b5.set(StatusFlag::SteepCurve, false);
    lemma_set_flag(b5, StatusFlag::SteepCurve, false);
    let b7 = b6.set(StatusFlag::CurveInvalid, false);
    lemma_set_flag(b6, StatusFlag::CurveInvalid, false);
    let b8 = b7.set(StatusFlag::GpuHot, false);
    lemma_set_flag(b7, StatusFlag::GpuHot, false);
    let b9 = b8.set(StatusFlag::NvmeHot, false);
    lemma_set_flag(b8, StatusFlag::NvmeHot, false);
    lemma_set_flag(b9, StatusFlag::ReadbackBlind, false);
}

/// An emergency without a calibration leaves nothing commanded and no session,
/// orders both devices released, and raises its flag.
pub proof fn lemma_emergency_releases_everything(m: Model, trip: Trip)
    requires
        m.wf(),
        !m.core.calibrating,
    ensures
        ({
            let (after, next) = m.emergency(trip);
            &&& next is Done
            &&& !after.core.commanded()
            &&& after.auto is None
            &&& after.calib is None
            &&& after.board.flags.contains(trip_flag(trip))
            &&& after.board.pending.len() == 0
            &&& m.rig.gpu ==> after.orders.contains(Order::ReleaseGpu)
            &&& m.rig.cpu ==> after.orders.contains(Order::RestoreCpu)
            &&& after.run.effects.last() == Effect::StatusChanged { cause: trip_cause(trip) }
            &&& after.run.effects.contains(Effect::Released)
        }),
{
    reveal(Model::evacuated);
    reveal(Model::released);
    reveal(Model::without_session);
    let w = m.without_session();
    let r = w.released();
    lemma_quieted(w.board, trip_flag(trip));
    lemma_set_flag(r.board, trip_flag(trip), true);
    let orders = releasing(w.orders, m.rig);
    if m.rig.cpu {
        assert(orders.last() == Order::RestoreCpu);
        assert(orders.contains(Order::RestoreCpu)) by {
            assert(orders[orders.len() - 1] == Order::RestoreCpu);
        }
    }
    if m.rig.gpu {
        let g = w.orders.push(Order::ReleaseGpu);
        assert(orders[w.orders.len() as int] == Order::ReleaseGpu);
    }
    let effects = m.emergency(trip).0.run.effects;
    assert(effects[m.run.effects.len() as int] == Effect::Released);
}

/// An emergency in the middle of a calibration first aborts its runner, and
/// then leaves nothing commanded, no calibration and no session, and raises
/// its flag, whatever the runner still did.
pub proof fn lemma_emergency_ends_a_calibration(m: Model, trip: Trip, steps: Seq<CalibStep>)
    requires
        m.core.calibrating,
    ensures
        m.emergency(trip).1 == Next::AbortRunner(Abort::Emergency(trip)),
        ({
            let (after, next) = m.aborted_in(trip, steps);
            &&& next is Done
            &&& !after.core.commanded()
            &&& !after.core.calibrating
            &&& after.auto is None
            &&& after.board.flags.contains(trip_flag(trip))
        }),
{
    reveal(Model::aborted_in);
    reveal(Model::calibration_ended);
    reveal(Model::evacuated);
    reveal(Model::released);
    reveal(Model::without_session);
    reveal(BoardView::raised);
    let x = m.calibrated(steps, None).calibration_ended();
    let flags = x.without_session().released().board.flags;
    assert(flags.push(trip_flag(trip))[flags.len() as int] == trip_flag(trip));
}

/// Releasing by hand, and ending the closed loop, leave nothing commanded and
/// no session, and order both devices released.
pub proof fn lemma_release_ends_everything(m: Model, c: Command, a: Answer, tripped: bool)
    requires
        m.wf(),
        !m.core.calibrating,
        c is ReleaseAll || (c == Command::SetAuto(false) && m.core.limits.mode == Mode::Auto),
    ensures
        ({
            let after = m.commanded(c, a, tripped);
            &&& !after.core.commanded()
            &&& after.auto is None
            &&& after.run.effects.contains(Effect::Released)
            &&& after.orders == releasing(m.without_session().orders, m.rig)
        }),
{
    reveal(Model::commanded);
    reveal(Model::opened);
    reveal(Model::all_released);
    reveal(Model::released);
    reveal(Model::without_session);
    reveal(Model::announced);
    let effects = m.commanded(c, a, tripped).run.effects;
    assert(effects[0] == Effect::Released);
}

/// The end restores the hardware last, whatever runs: a calibration is over
/// and a session dropped before that.
pub proof fn lemma_quit_restores_the_hardware(m: Model, a: Answer, tripped: bool)
    requires
        m.wf(),
    ensures
        ({
            let after = m.commanded(Command::Quit, a, tripped);
            &&& after.orders.len() > 0 && after.orders.last() == Order::RestoreAll
            &&& after.auto is None
            &&& !after.core.calibrating
            &&& after.run.effects.last() == Effect::Quit
        }),
{
    reveal(Model::commanded);
    reveal(Model::opened);
    reveal(Model::quit);
    reveal(Model::given_up);
    reveal(Model::calibration_ended);
    reveal(Model::without_session);
}

/// With nothing commanded, no sample outside of the closed loop and of a
/// calibration leads to a write: what an emergency released stays released.
pub proof fn lemma_released_stays_released(m: Model, s: Sample, fenced: bool)
    requires
        !m.core.commanded(),
    ensures
        !asks_for_write(m.waking(s, fenced).1),
        m.waking(s, fenced).1 is Done,
        m.waking(s, fenced).0.core.limits == m.core.limits,
{
    reveal(Model::waking);
    reveal(Model::looped);
    reveal(Model::measured);
    reveal(Model::scheduled);
    reveal(Model::resumed);
    reveal(Model::resume_over);
    reveal(Model::closed);
}

/// While an emergency stands, a command that would apply limits does nothing
/// but acknowledge it: both flags come down, the watchdog is armed again, and
/// mode and limits stay as they are.
pub proof fn lemma_first_command_only_acknowledges(m: Model, c: Command, a: Answer)
    requires
        m.wf(),
        c.actuates(),
    ensures
        ({
            let after = m.commanded(c, a, true);
            &&& after.core == m.core
            &&& after.auto == m.auto
            &&& after.config == m.config
            &&& after.orders == m.orders.push(Order::RearmWatchdog)
            &&& !after.board.flags.contains(StatusFlag::ThermalEmergency)
            &&& !after.board.flags.contains(StatusFlag::SensorLost)
            &&& after.run.effects.last() == Effect::StatusChanged { cause: Cause::Rearmed }
            &&& m.request(c, true, false) is Nothing
        }),
{
    reveal(Model::commanded);
    reveal(Model::acknowledged);
    reveal(Model::opened);
    reveal(Model::request);
    lemma_set_flag(m.board, StatusFlag::ThermalEmergency, false);
    lemma_set_flag(
        m.board.set(StatusFlag::ThermalEmergency, false),
        StatusFlag::SensorLost,
        false,
    );
}

/// Commands that apply no limits go through an emergency without
/// acknowledging it: its flags stay as they are, and the watchdog is not
/// armed again.
pub proof fn lemma_other_commands_do_not_acknowledge(m: Model, c: Command, a: Answer, f: StatusFlag)
    requires
        m.wf(),
        !m.core.calibrating,
        f == StatusFlag::ThermalEmergency || f == StatusFlag::SensorLost,
        c is SetFanTarget || c is SetFloors || c is ReleaseAll || c is DismissCalibrationOutcome,
    ensures
        m.commanded(c, a, true).board.flags.contains(f) == m.board.flags.contains(f),
        m.commanded(c, a, true) == m.commanded(c, a, false),
{
    reveal(Model::commanded);
    reveal(Model::opened);
    reveal(Model::all_released);
    reveal(Model::released);
    reveal(Model::without_session);
    reveal(Model::aimed);
    reveal(Model::floored);
    reveal(Model::announced);
    lemma_quieted(m.board, f);
}

/// While a calibration's runner owns the actuators, commands that would set,
/// release or bound limits change nothing; in the closed loop, neither do
/// those that set limits by hand.
pub proof fn lemma_refused_commands_change_nothing(m: Model, c: Command, a: Answer, tripped: bool)
    requires
        c.refused(m.core.limits.mode),
        !(tripped && c.actuates()),
    ensures
        ({
            let after = m.commanded(c, a, tripped);
            &&& after == Model { run: after.run, ..m }
            &&& after.run.effects.len() == 0
            &&& m.request(c, tripped, false) is Nothing
        }),
{
    reveal(Model::commanded);
    reveal(Model::opened);
    reveal(Model::request);
}

/// A limit set by hand counts only if the hardware took it: a CPU limit that
/// no read-back verified, and a GPU clock that no lock answered for, change
/// nothing, and report nothing unless the status shows what is no number.
pub proof fn lemma_failed_command_changes_nothing(m: Model, c: Command, a: Answer)
    requires
        m.idle(),
        m.core.limits.mode == Mode::Monitor || m.core.limits.mode == Mode::Manual,
        ({
            ||| c is SetCpuW && !(a matches Answer::CpuWritten(WriteVerdict::Verified(_)))
            ||| c is SetGpuMaxClock && !(a matches Answer::GpuLocked(LockReply::Locked(_)))
        }),
    ensures
        ({
            let after = m.commanded(c, a, false);
            &&& after == Model { run: after.run, ..m }
            &&& after.shown() == m.shown()
            &&& m.shown().agrees(m.shown()) ==> after.run.effects.len() == 0
        }),
{
    reveal(Model::commanded);
    reveal(Model::opened);
    reveal(Model::cpu_commanded);
    reveal(Model::gpu_commanded);
    reveal(Model::announced);
}

/// The fan target lies within its bounds after any command that sets it to a
/// number.
pub proof fn lemma_fan_target_is_bounded(m: Model, rpm: Num)
    requires
        !rpm.nan(),
        Num(FAN_TARGET_MIN_RPM).le(m.core.limits.fan_target_rpm),
        m.core.limits.fan_target_rpm.le(Num(FAN_TARGET_MAX_RPM)),
    ensures
        Num(FAN_TARGET_MIN_RPM).le(m.aimed(rpm).core.limits.fan_target_rpm),
        m.aimed(rpm).core.limits.fan_target_rpm.le(Num(FAN_TARGET_MAX_RPM)),
{
    reveal(Model::aimed);
    reveal(Num::within);
    reveal(Num::le);
    reveal(Num::lt);
}

/// The limits are looked after on schedule at most every ten seconds, and
/// never without a limit in force.
pub proof fn lemma_schedule_is_kept(m: Model, t_mono: Num, fenced: bool)
    requires
        m.scheduled(t_mono, fenced).1 is Reassert,
    ensures
        m.core.watch.last_reassert is Some,
        Num(REASSERT_PERIOD_S).le(t_mono.minus(m.core.watch.last_reassert->0)),
        m.scheduled(t_mono, fenced).0.core.watch.last_reassert == Some(t_mono),
        m.core.limits.cpu_limit_w is Some || m.core.limits.gpu_max_mhz is Some,
{
    reveal(Model::scheduled);
}

/// A sample without a measured draw neither violates a limit nor complies with
/// it: the streak and the flags stay as they are.
pub proof fn lemma_no_draw_proves_nothing(m: Model, s: Sample, fenced: bool)
    requires
        !Num(ZERO).lt(s.cpu_pkg_w),
    ensures
        m.measured(s, fenced) == m.scheduled(s.t_mono, fenced),
        m.measured(s, fenced).0.core.watch.stick_violations == m.core.watch.stick_violations,
        m.measured(s, fenced).0.board.flags == m.board.flags,
{
    reveal(Model::measured);
    reveal(Model::scheduled);
    reveal(Model::closed);
}

/// It takes three violations in a row, or two shortly after a resume, before a
/// limit counts as not sticking: an earlier one only lengthens the streak.
pub proof fn lemma_stickiness_takes_a_streak(m: Model, s: Sample, fenced: bool)
    requires
        m.core.limits.cpu_limit_w is Some,
        Num(ZERO).lt(s.cpu_pkg_w),
        m.core.limits.cpu_limit_w->0.plus(Num(STICKINESS_MARGIN_W)).lt(s.cpu_pkg_w),
        m.core.watch.stick_violations + 1 < m.patience(s.t_mono),
    ensures
        m.measured(s, fenced).0.core.watch.stick_violations == m.core.watch.stick_violations + 1,
        m.measured(s, fenced).0.board.flags == m.board.flags,
        !(m.measured(s, fenced).1 matches Next::Reassert { why, .. } && why == Why::Stickiness),
        m.patience(s.t_mono) == STICKINESS_SAMPLES || m.patience(s.t_mono)
            == STICKINESS_SAMPLES_STRICT,
{
    reveal(Model::measured);
    reveal(Model::scheduled);
    reveal(Model::closed);
}

/// Trouble with a read-back keeps the flag up through a compliant sample.
pub proof fn lemma_trouble_keeps_the_flag(m: Model)
    requires
        crate::controller::upkeep::in_trouble(m.auto),
    ensures
        m.complied().board == m.board,
        m.complied().core.watch.stick_violations == 0,
{
    reveal(Model::complied);
}

/// A GPU that has just been released is not locked again in the same sample.
pub proof fn lemma_release_is_not_relocked(m: Model, s: Sample, fenced: bool)
    ensures
        !(m.locking(s, VerdictOutcome::Released, fenced).1 is LockGpu),
{
    reveal(Model::locking);
    reveal(Model::settled);
    reveal(Model::measured);
    reveal(Model::scheduled);
}

/// The CPU's cap is written at most every two seconds, except where the loop
/// must not wait.
pub proof fn lemma_writes_keep_apart(m: Model, s: Sample, fenced: bool)
    requires
        m.auto is Some,
        m.run.pass.decisions is Some,
        m.writing(s, fenced).1 is WriteCpu,
    ensures
        m.run.pass.decisions->0.cpu.write_allowed,
        m.run.pass.decisions->0.cpu.write_immediately || m.auto->0.cpu.due(s.t_mono),
        !fenced,
        m.rig.cpu,
{
    reveal(Model::writing);
    reveal(Model::verifying);
    reveal(Model::locking);
    reveal(Model::settled);
    reveal(Model::measured);
    reveal(Model::scheduled);
}

/// The first sample after a calibration that suspended a session writes
/// nothing, reports nothing and leaves both lanes and the limits as they are.
pub proof fn lemma_reentry_sample_holds(m: Model, s: Sample, finishing: bool, fenced: bool)
    requires
        m.core.limits.mode == Mode::Auto,
        m.core.reentry_hold,
        m.auto is Some,
    ensures
        ({
            let (after, next) = m.routed(s, finishing, fenced);
            &&& next is Done
            &&& after.core.limits == m.core.limits
            &&& !after.core.reentry_hold
            &&& after.run == m.run
            &&& after.auto is Some
            &&& after.auto->0.cpu == m.auto->0.cpu
            &&& after.auto->0.gpu == m.auto->0.gpu
        }),
{
    reveal(Model::routed);
    reveal(Model::rejoined);
    crate::controller::session::lemma_reentry_holds(m.auto->0, s, m.config);
}

proof fn lemma_steps_keep_session(m: Model, steps: Seq<CalibStep>, view: Option<FanctrlView>)
    ensures
        m.all_stepped(steps, view).auto == m.auto,
    decreases steps.len(),
{
    reveal(Model::fitting);
    reveal(Model::keeping);
    if steps.len() > 0 {
        lemma_steps_keep_session(m, steps.drop_last(), view);
    }
}

/// A suspended session does not move while the calibration goes on: no turn of
/// a calibration's sample touches its loops, windows or evidence.
pub proof fn lemma_calibration_freezes_the_session(
    m: Model,
    s: Sample,
    finishing: bool,
    fenced: bool,
    check: CapCheck,
    done: Num,
    score: ScoreReply,
    steps: Seq<CalibStep>,
)
    requires
        !tally(steps).ended,
    ensures
        m.trial_begun(s, finishing, fenced).0.auto == m.auto,
        m.trial_checked(s, check, done).0.auto == m.auto,
        m.trial_scored(s, score).0.auto == m.auto,
        m.calibrated(steps, s.fanctrl).auto == m.auto,
{
    reveal(Model::trial_begun);
    reveal(Model::trial_viewed);
    reveal(Model::trial_checked);
    reveal(Model::trial_scored);
    reveal(Model::calibrated);
    reveal(Model::retaining);
    reveal(Model::opened);
    lemma_steps_keep_session(m.retaining(s.fanctrl), steps, s.fanctrl);
}

/// An entry's thermal candidate never lies above the ceiling; it lies at or
/// above the entry floor, unless the ceiling is below that.
pub proof fn lemma_entry_is_bounded(i: LaneInput, max: Num)
    requires
        !max.nan(),
        !i.top.nan(),
        i.warm matches Some(w) ==> !w.nan(),
        !i.entry_floor().nan(),
    ensures
        i.entry_thermal(max).le(max),
        i.entry_floor().le(i.entry_thermal(max)) || i.entry_thermal(max).same(max),
{
    reveal(LaneInput::entry_thermal);
    reveal(Num::greater);
    reveal(Num::lesser);
    reveal(Num::le);
    reveal(Num::lt);
    reveal(Num::same);
}

/// A loop in order runs in order.
pub proof fn lemma_prepared_wf(l: LaneView, i: LaneInput)
    requires
        l.state.wf(),
    ensures
        l.prepared(i).state.wf(),
{
    reveal(LaneView::entered);
    reveal(LaneView::shadow_entered);
    reveal(LaneView::retargeted);
    reveal(LaneInput::warmed);
    reveal(LoopState::drawing);
}

/// A lane's cap lies between the floor and the ceiling in force, whatever the
/// readings and the target are, as long as it is a number.
pub proof fn lemma_cap_is_bounded(l: LaneView, p: Plant, i: LaneInput)
    requires
        l.wf(),
        i.floor.le(l.levels.current),
    ensures
        ({
            let cap = l.decision(p, i).cap;
            let (floor, max) = bounds_of(i.floor, l.levels.current);
            cap.nan() || (floor.le(cap) && cap.le(max))
        }),
{
    reveal(LaneView::decision);
    let ready = l.prepared(i);
    lemma_prepared_wf(l, i);
    crate::device_loop::laws::lemma_tick_stays_in_bounds(
        ready.state,
        p,
        ready.recent,
        l.loop_input(i),
    );
}

/// What a lane sees is in numbers: the error, and the longest step that it
/// leads to, are finite, a draw is finite and its headroom a number, and so
/// are the caps that an entry can start from.
pub open spec fn in_numbers(g: Gains, i: LaneInput) -> bool {
    &&& i.group_c is Some ==> i.error().finite() && longest_step(g, i.error()).finite()
    &&& i.draw matches Some(d) ==> d.finite()
    &&& !i.headroom.nan()
    &&& !i.top.nan()
    &&& numbered(i.warm)
    &&& numbered(i.applied)
}

proof fn lemma_prepared_numbers(l: LaneView, i: LaneInput)
    requires
        numeric(l.state),
        in_numbers(l.state.gains, i),
        !l.levels.current.nan(),
    ensures
        numeric(l.prepared(i).state),
        l.prepared(i).state.gains == l.state.gains,
        l.prepared(i).recent == l.recent,
{
    reveal(LaneView::entered);
    reveal(LaneView::shadow_entered);
    reveal(LaneView::retargeted);
    reveal(LaneInput::warmed);
    reveal(LaneInput::entry_thermal);
    reveal(LoopState::drawing);
    reveal(Num::greater);
    reveal(Num::lesser);
    reveal(Num::within);
    reveal(Num::lt);
    reveal(Num::le);
    if let Some(d) = i.draw {
        crate::order::lemma_plus_nan(d, i.headroom);
    }
}

/// A lane that holds numbers and sees numbers decides a cap that is a number
/// within the floor and the ceiling in force, and holds numbers again.
pub proof fn lemma_cap_is_a_number_within_bounds(l: LaneView, p: Plant, i: LaneInput)
    requires
        l.wf(),
        numeric(l.state),
        finite_draws(l.recent),
        usable(p),
        l.state.gains.valid(),
        in_numbers(l.state.gains, i),
        !l.levels.current.nan(),
    ensures
        ({
            let d = l.decision(p, i);
            let (floor, max) = bounds_of(i.floor, l.levels.current);
            &&& floor.le(d.cap) && d.cap.le(max)
            &&& floor.le(d.thermal) && d.thermal.le(max)
            &&& floor.le(d.shadow) && d.shadow.le(max)
        }),
        numeric(l.driven(p, i).state),
        finite_draws(l.driven(p, i).recent),
        l.driven(p, i).state.gains == l.state.gains,
{
    reveal(LaneView::decision);
    reveal(LaneView::driven);
    let ready = l.prepared(i);
    lemma_prepared_wf(l, i);
    lemma_prepared_numbers(l, i);
    lemma_numbers_stay_numbers(ready.state, p, ready.recent, l.loop_input(i));
}

/// Without a view of the fan daemon, or with one that is not fresh, nothing is
/// learned and no view is scored.
pub proof fn lemma_stale_view_teaches_nothing(
    a: AutoView,
    s: Sample,
    f: crate::controller::steady::SteadyFacts,
    gap_s: Num,
    ma: Option<Num>,
)
    requires
        s.fanctrl_freshness != Freshness::Fresh,
    ensures
        a.lesson(s, f).refine is None && a.lesson(s, f).warm is None,
        crate::controller::intake::observation_of(
            s,
            crate::controller::windows::slope(a.ec_slope),
            gap_s,
            ma,
        ) is Skipped,
{
    crate::controller::steady::lemma_only_settled_samples_teach(a, s, f);
    crate::controller::intake::lemma_only_new_views_are_scored(
        s,
        crate::controller::windows::slope(a.ec_slope),
        gap_s,
        ma,
    );
}

} // verus!
