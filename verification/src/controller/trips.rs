//! What the watchdog's trips and their acknowledgement do, from one call to
//! the next.

use crate::controller::board::{lemma_set_flag, without, BoardView};
use crate::controller::calibration::CalibStep;
use crate::controller::commands::{Answer, Command};
use crate::controller::effect::{Cause, Effect};
use crate::controller::laws::lemma_emergency_releases_everything;
use crate::controller::machine::Model;
use crate::controller::panel::ProgressView;
use crate::controller::plain::{Abort, Next, Order, Trip};
use crate::controller::samples::{trip_cause, trip_flag};
use crate::status::{Mode, StatusFlag};
use crate::types::Sample;
use vstd::prelude::*;

verus! {

/// What is reported when a flag comes down that may be up.
pub open spec fn lowering(flags: Seq<StatusFlag>, flag: StatusFlag) -> Seq<Effect> {
    if flags.contains(flag) {
        seq![Effect::Flagged { flag, active: false }]
    } else {
        Seq::empty()
    }
}

/// The flags without those of an emergency.
pub open spec fn calm(flags: Seq<StatusFlag>) -> Seq<StatusFlag> {
    without(without(flags, StatusFlag::ThermalEmergency), StatusFlag::SensorLost)
}

/// Acknowledging an emergency reports each of its flags that was up as down,
/// the thermal one first, then that the watchdog is armed again, and nothing
/// else; of the state it changes only those flags. The same command then acts
/// as it would without the emergency.
pub proof fn lemma_acknowledging_reports_the_flags(
    m: Model,
    c: Command,
    a: Answer,
    next: Answer,
    fenced: bool,
)
    requires
        m.idle(),
        c.actuates(),
    ensures
        ({
            let after = m.commanded(c, a, true);
            let cleared = Model {
                board: BoardView { flags: calm(m.board.flags), pending: Seq::empty() },
                orders: m.orders.push(Order::RearmWatchdog),
                ..m
            };
            &&& after.run.effects == lowering(m.board.flags, StatusFlag::ThermalEmergency)
                + lowering(m.board.flags, StatusFlag::SensorLost) + seq![
                Effect::StatusChanged { cause: Cause::Rearmed },
            ]
            &&& after == Model { run: after.run, ..cleared }
            &&& after.idle()
            &&& after.core.limits == m.core.limits
            &&& after.request(c, false, fenced) == m.request(c, false, fenced)
            &&& after.commanded(c, next, false) == cleared.commanded(c, next, false)
        }),
{
    reveal(Model::commanded);
    reveal(Model::acknowledged);
    reveal(Model::opened);
    reveal(Model::request);
    reveal(BoardView::lowered);
    let flags = m.board.flags;
    let first = without(flags, StatusFlag::ThermalEmergency);
    crate::controller::board::lemma_without(flags, StatusFlag::ThermalEmergency);
    crate::controller::board::lemma_without(first, StatusFlag::SensorLost);
    lemma_set_flag(m.board, StatusFlag::ThermalEmergency, false);
    lemma_set_flag(
        m.board.set(StatusFlag::ThermalEmergency, false),
        StatusFlag::SensorLost,
        false,
    );
    let after = m.commanded(c, a, true);
    assert(after.run.effects =~= lowering(flags, StatusFlag::ThermalEmergency) + lowering(
        flags,
        StatusFlag::SensorLost,
    ) + seq![Effect::StatusChanged { cause: Cause::Rearmed }]);
    assert(after.board =~= BoardView { flags: calm(flags), pending: Seq::empty() });
    let cleared = Model {
        board: BoardView { flags: calm(flags), pending: Seq::empty() },
        orders: m.orders.push(Order::RearmWatchdog),
        ..m
    };
    assert(after.opened() =~= cleared.opened());
}

/// With nothing in force, a trip releases nothing and raises no flag of an
/// emergency: it is remarked on, and the watchdog is armed again.
pub proof fn lemma_idle_trip_is_only_remarked_on(
    m: Model,
    s: Sample,
    trip: Trip,
    quiet: bool,
    finishing: bool,
    fenced: bool,
    f: StatusFlag,
)
    requires
        m.idle(),
        !m.core.commanded(),
        f == StatusFlag::ThermalEmergency || f == StatusFlag::SensorLost,
    ensures
        ({
            let (after, next) = m.watched(s, Some(trip), quiet, finishing, fenced);
            &&& next is Done
            &&& after.core.limits == m.core.limits
            &&& after.core.watch.idle_trip_warned
            &&& after.board.flags.contains(f) == m.board.flags.contains(f)
            &&& !after.run.effects.contains(Effect::Released)
            &&& after.orders.contains(Order::RearmWatchdog)
            &&& !after.orders.skip(m.orders.len() as int).contains(Order::ReleaseGpu)
            &&& !after.orders.skip(m.orders.len() as int).contains(Order::RestoreCpu)
        }),
{
    reveal(Model::watched);
    reveal(Model::routed);
    reveal(Model::opened);
    reveal(Model::waking);
    reveal(Model::looped);
    reveal(Model::measured);
    reveal(Model::scheduled);
    reveal(Model::resumed);
    reveal(Model::resume_over);
    reveal(Model::closed);
    reveal(BoardView::raised);
    reveal(BoardView::lowered);
    lemma_set_flag(m.board, StatusFlag::Resumed, true);
    lemma_set_flag(m.board, StatusFlag::Resumed, false);
    let orders = m.watched(s, Some(trip), quiet, finishing, fenced).0.orders;
    assert(orders[m.orders.len() as int] == Order::RearmWatchdog);
}

/// With something in force and no calibration, a trip releases everything at
/// once: nothing stays commanded, no session and no progress is left, both
/// devices are ordered back to stock, the release is reported first and the
/// emergency last, and its flag is up.
pub proof fn lemma_trip_releases_everything(
    m: Model,
    s: Sample,
    trip: Trip,
    quiet: bool,
    finishing: bool,
    fenced: bool,
)
    requires
        m.idle(),
        m.core.commanded(),
        !m.core.calibrating,
    ensures
        ({
            let (after, next) = m.begun(false).0.watched(s, Some(trip), quiet, finishing, fenced);
            &&& next is Done
            &&& after.core.limits.mode == Mode::Monitor
            &&& after.core.limits.cpu_limit_w is None
            &&& after.core.limits.gpu_max_mhz is None
            &&& after.auto is None
            &&& after.calib is None
            &&& after.board.flags.contains(trip_flag(trip))
            &&& m.rig.gpu ==> after.orders.contains(Order::ReleaseGpu)
            &&& m.rig.cpu ==> after.orders.contains(Order::RestoreCpu)
            &&& after.run.effects.first() == Effect::Released
            &&& after.run.effects.last() == Effect::StatusChanged { cause: trip_cause(trip) }
        }),
{
    reveal(Model::watched);
    let b = m.begun(false).0;
    lemma_emergency_releases_everything(b, trip);
    reveal(Model::evacuated);
    reveal(Model::released);
    reveal(Model::without_session);
    assert(b.run.effects.len() == 0);
}

/// A trip in the middle of a calibration has the runner aborted first. A lost
/// sensor then releases everything at once; an overheated runner's last steps
/// are taken in before that, and if it has not ended by them it is aborted
/// once more.
pub proof fn lemma_trip_aborts_a_calibration(
    m: Model,
    s: Sample,
    trip: Trip,
    quiet: bool,
    finishing: bool,
    fenced: bool,
    steps: Seq<CalibStep>,
    shown: Option<ProgressView>,
)
    requires
        m.wf(),
        m.core.calibrating,
    ensures
        m.watched(s, Some(trip), quiet, finishing, fenced).1 == Next::AbortRunner(
            match trip {
                Trip::Thermal => Abort::Overheated,
                Trip::SensorLost => Abort::Emergency(trip),
            },
        ),
        ({
            let (after, next) = m.cooled(s, steps, shown);
            if next is Done {
                &&& !after.core.commanded()
                &&& after.auto is None
                &&& after.board.flags.contains(StatusFlag::ThermalEmergency)
            } else {
                next == Next::AbortRunner(Abort::Emergency(Trip::Thermal))
            }
        }),
        ({
            let (after, next) = m.aborted_in(trip, steps);
            &&& next is Done
            &&& !after.core.commanded()
            &&& after.auto is None
            &&& after.board.flags.contains(trip_flag(trip))
        }),
{
    reveal(Model::watched);
    reveal(Model::cooled);
    crate::controller::laws::lemma_emergency_ends_a_calibration(m, trip, steps);
    let x = m.progressed(steps, shown, s.fanctrl).closed(Cause::CalibSkipped);
    if !x.core.calibrating {
        reveal(Model::evacuated);
        reveal(Model::released);
        reveal(Model::without_session);
        reveal(BoardView::raised);
        let flags = x.without_session().released().board.flags;
        let flag = StatusFlag::ThermalEmergency;
        assert(flags.push(flag)[flags.len() as int] == flag);
    }
}

/// What a sample brings.
pub struct Reading {
    pub sample: Sample,
    pub trip: Option<Trip>,
    pub quiet: bool,
    pub finishing: bool,
}

/// The state after samples, each of which its first turn ends.
pub open spec fn after_samples(m: Model, readings: Seq<Reading>) -> Model
    decreases readings.len(),
{
    if readings.len() == 0 {
        m
    } else {
        let r = readings.last();
        after_samples(m, readings.drop_last()).begun(false).0.watched(
            r.sample,
            r.trip,
            r.quiet,
            r.finishing,
            false,
        ).0
    }
}

/// What is released stays released: with nothing in force, no sample leads to
/// a further turn, and so to no write, whatever it reads and whatever trips;
/// after any number of samples the mode and the limits are what they were.
pub proof fn lemma_released_stays_released_over_samples(
    m: Model,
    readings: Seq<Reading>,
    r: Reading,
)
    requires
        !m.core.commanded(),
    ensures
        ({
            let then = after_samples(m, readings);
            &&& then.core.limits == m.core.limits
            &&& !then.core.commanded()
            &&& then.begun(false).0.watched(r.sample, r.trip, r.quiet, r.finishing, false).1 is Done
        }),
    decreases readings.len(),
{
    if readings.len() > 0 {
        lemma_released_stays_released_over_samples(m, readings.drop_last(), readings.last());
    }
    let then = after_samples(m, readings);
    let last = if readings.len() > 0 {
        readings.last()
    } else {
        r
    };
    let before = if readings.len() > 0 {
        after_samples(m, readings.drop_last())
    } else {
        m
    };
    lemma_uncommanded_sample(before.begun(false).0, last);
    lemma_uncommanded_sample(then.begun(false).0, r);
}

proof fn lemma_uncommanded_sample(m: Model, r: Reading)
    requires
        !m.core.commanded(),
    ensures
        ({
            let (after, next) = m.watched(r.sample, r.trip, r.quiet, r.finishing, false);
            &&& next is Done
            &&& after.core.limits == m.core.limits
        }),
{
    reveal(Model::watched);
    reveal(Model::routed);
    reveal(Model::opened);
    let s = r.sample;
    crate::controller::laws::lemma_released_stays_released(m.opened(), s, false);
    crate::controller::laws::lemma_released_stays_released(m.warned(false).opened(), s, false);
    crate::controller::laws::lemma_released_stays_released(
        m.warned(true).ordering(Order::RearmWatchdog).opened(),
        s,
        false,
    );
}

} // verus!
