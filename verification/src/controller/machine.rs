//! The controller's whole state and what it is made of.

use crate::controller::auto::{AutoState, AutoView, WarmStartEntry, GPU_COMMANDS_N};
use crate::controller::bench::{Bench, BenchView};
use crate::controller::board::{distinct, Board, BoardView};
use crate::controller::config::{Config, FAN_TARGET_MAX_RPM, FAN_TARGET_MIN_RPM};
use crate::controller::plain::{Core, Order, Pass, Rig, Watch, STICKINESS_SAMPLES};
use crate::controller::effect::{first_cause, first_or, Cause, Effect};
use crate::controller::panel::{
    compose, outcome, progress, CalibOutcome, CalibProgress, ControlStatus, Limits, OutcomeView,
    ProgressView, Readout, ReadoutView, StatusView,
};
use crate::device_loop::Gains;
use crate::num::{Num, ZERO};
use crate::status::{Mode, StatusFlag};
use crate::table::Table;
use vstd::prelude::*;

verus! {

/// What outlives a session.
pub struct Store {
    /// Fitted gains by strategy and interval.
    pub cpu_gains: Table<Gains>,
    pub gpu_gains: Table<Gains>,
    /// Settled pairs of caps by strategy, duty and power source.
    pub warm: Table<WarmStartEntry>,
    /// When the machine was last calibrated.
    pub calibrated_at: Option<String>,
}

/// A [`Store`] as values.
#[verifier::ext_equal]
pub struct StoreView {
    pub cpu_gains: Map<Seq<char>, Gains>,
    pub gpu_gains: Map<Seq<char>, Gains>,
    pub warm: Map<Seq<char>, WarmStartEntry>,
    pub calibrated_at: Option<Seq<char>>,
}

impl View for Store {
    type V = StoreView;

    open spec fn view(&self) -> StoreView {
        StoreView {
            cpu_gains: self.cpu_gains@,
            gpu_gains: self.gpu_gains@,
            warm: self.warm@,
            calibrated_at: crate::controller::panel::text(self.calibrated_at),
        }
    }
}

impl Store {
    /// No key occurs twice in a table.
    pub open spec fn wf(self) -> bool {
        self.cpu_gains.wf() && self.gpu_gains.wf() && self.warm.wf()
    }
}

/// What one command or sample has done so far.
pub struct Run {
    pub effects: Vec<Effect>,
    /// What claimed the cause first.
    pub cause: Option<Cause>,
    /// The status as it began.
    pub before: ControlStatus,
    pub pass: Pass,
}

/// A [`Run`] as values.
#[verifier::ext_equal]
pub struct RunView {
    pub effects: Seq<Effect>,
    pub cause: Option<Cause>,
    pub before: StatusView,
    pub pass: Pass,
}

impl View for Run {
    type V = RunView;

    open spec fn view(&self) -> RunView {
        RunView {
            effects: self.effects@,
            cause: self.cause,
            before: self.before@,
            pass: self.pass,
        }
    }
}

/// The controller.
pub struct Controller {
    pub core: Core,
    pub config: Config,
    pub rig: Rig,
    pub board: Board,
    pub readout: Readout,
    pub calib: Option<CalibProgress>,
    pub calib_outcome: Option<CalibOutcome>,
    /// The closed-loop session; it stays through a calibration that suspended
    /// it.
    pub auto: Option<AutoState>,
    pub bench: Bench,
    pub store: Store,
    /// What is to be done, in this order.
    pub orders: Vec<Order>,
    pub run: Run,
}

/// A [`Controller`] as values.
#[verifier::ext_equal]
pub struct Model {
    pub core: Core,
    pub config: Config,
    pub rig: Rig,
    pub board: BoardView,
    pub readout: ReadoutView,
    pub calib: Option<ProgressView>,
    pub outcome: Option<OutcomeView>,
    pub auto: Option<AutoView>,
    pub bench: BenchView,
    pub store: StoreView,
    pub orders: Seq<Order>,
    pub run: RunView,
}

/// A session that may not be there, as values.
pub open spec fn session(a: Option<AutoState>) -> Option<AutoView> {
    match a {
        Some(x) => Some(x@),
        None => None,
    }
}

impl View for Controller {
    type V = Model;

    open spec fn view(&self) -> Model {
        Model {
            core: self.core,
            config: self.config,
            rig: self.rig,
            board: self.board@,
            readout: self.readout@,
            calib: progress(self.calib),
            outcome: outcome(self.calib_outcome),
            auto: session(self.auto),
            bench: self.bench@,
            store: self.store@,
            orders: self.orders@,
            run: self.run@,
        }
    }
}

/// The flags that only a closed-loop session owns, and those of limits that
/// are gone, lowered.
#[verifier::opaque]
pub open spec fn quieted(b: BoardView) -> BoardView {
    b.lowered(StatusFlag::TargetUnreachable).lowered(StatusFlag::LimitNotSticking).lowered(
        StatusFlag::NotCalibrated,
    ).lowered(StatusFlag::FanctrlLost).lowered(StatusFlag::EcMismatch).lowered(
        StatusFlag::SteepCurve,
    ).lowered(StatusFlag::CurveInvalid).lowered(StatusFlag::GpuHot).lowered(
        StatusFlag::NvmeHot,
    ).lowered(StatusFlag::ReadbackBlind)
}

/// The orders that release both devices.
pub open spec fn releasing(orders: Seq<Order>, rig: Rig) -> Seq<Order> {
    let gpu = if rig.gpu {
        orders.push(Order::ReleaseGpu)
    } else {
        orders
    };
    if rig.cpu {
        gpu.push(Order::RestoreCpu)
    } else {
        gpu
    }
}

impl Model {
    /// The configuration's bounds are numbers, no flag is up twice, only a
    /// calibration shows progress, a session is in order, fewer violations
    /// stand than make a limit count as not sticking, and no more GPU commands
    /// are remembered than there is room for.
    pub open spec fn sound(self) -> bool {
        &&& self.calib is Some ==> self.core.calibrating
        &&& self.config.wf()
        &&& self.board.wf()
        &&& self.auto matches Some(a) ==> a.wf()
        &&& self.core.watch.stick_violations < STICKINESS_SAMPLES
        &&& self.bench.gpu_commands.len() <= GPU_COMMANDS_N
    }

    /// What always holds: the state is sound, the closed loop's mode comes
    /// with a session, and a calibration's with a runner.
    pub open spec fn wf(self) -> bool {
        &&& self.sound()
        &&& self.core.limits.mode == Mode::Auto ==> self.auto is Some
        &&& self.core.limits.mode == Mode::Calibrating <==> self.core.calibrating
    }

    /// What also holds between two calls: nothing is left to report.
    pub open spec fn idle(self) -> bool {
        self.wf() && self.board.pending.len() == 0
    }

    /// The status.
    pub open spec fn shown(self) -> StatusView {
        StatusView {
            limits: self.core.limits,
            flags: self.board.flags,
            calib: self.calib,
            outcome: self.outcome,
            readout: self.readout,
        }
    }

    /// Released to stock.
    #[verifier::opaque]
    pub open spec fn released(self) -> Model {
        Model {
            core: self.core.released(),
            board: quieted(self.board),
            readout: ReadoutView::blank(),
            orders: releasing(self.orders, self.rig),
            ..self
        }
    }

    /// Without a closed-loop session; its lessons are written down.
    #[verifier::opaque]
    pub open spec fn without_session(self) -> Model {
        if self.auto is Some {
            Model {
                auto: None,
                orders: self.orders.push(Order::SaveState),
                readout: self.readout.undecided(),
                ..self
            }
        } else {
            self
        }
    }

    /// With an effect.
    pub open spec fn with_effect(self, e: Effect) -> Model {
        Model { run: RunView { effects: self.run.effects.push(e), ..self.run }, ..self }
    }

    /// With a cause, unless there is one.
    pub open spec fn because(self, c: Cause) -> Model {
        Model { run: RunView { cause: first_cause(self.run.cause, Some(c)), ..self.run }, ..self }
    }

    /// With an order.
    pub open spec fn ordering(self, o: Order) -> Model {
        Model { orders: self.orders.push(o), ..self }
    }

    /// With what is pending reported.
    pub open spec fn drained(self) -> Model {
        Model {
            board: self.board.drained(),
            run: RunView { effects: self.run.effects + self.board.pending, ..self.run },
            ..self
        }
    }

    /// The effect that a call ends with: a changed status, or else the cause
    /// alone.
    pub open spec fn closing(self, otherwise: Cause) -> Seq<Effect> {
        if !self.shown().agrees(self.run.before) {
            seq![
                Effect::StatusChanged {
                    cause: match self.run.cause {
                        Some(c) => c,
                        None => otherwise,
                    },
                },
            ]
        } else {
            match self.run.cause {
                Some(c) => seq![Effect::Noted { cause: c }],
                None => Seq::empty(),
            }
        }
    }

    /// With that effect.
    #[verifier::opaque]
    pub open spec fn closed(self, otherwise: Cause) -> Model {
        Model {
            run: RunView { effects: self.run.effects + self.closing(otherwise), ..self.run },
            ..self
        }
    }

    /// With nothing done yet, and the status as it is.
    #[verifier::opaque]
    pub open spec fn opened(self) -> Model {
        Model {
            run: RunView {
                effects: Seq::empty(),
                cause: None,
                before: self.shown(),
                pass: self.run.pass,
            },
            ..self
        }
    }
}

impl Controller {
    /// The parts are in order.
    pub open spec fn wf(self) -> bool {
        self@.wf() && self.store.wf()
    }

    /// The parts are sound.
    pub open spec fn sound(self) -> bool {
        self@.sound() && self.store.wf()
    }

    /// A controller that does nothing yet.
    pub fn new(config: Config, rig: Rig, store: Store) -> (r: Controller)
        requires
            config.wf(),
            store.wf(),
        ensures
            r.wf(),
            r@.idle(),
            r@.config == config,
            r@.rig == rig,
            r@.store == store@,
            r@.core.limits == (Limits {
                mode: Mode::Monitor,
                cpu_limit_w: None,
                gpu_max_mhz: None,
                fan_target_rpm: config.fan_target_rpm.within(
                    Num(FAN_TARGET_MIN_RPM),
                    Num(FAN_TARGET_MAX_RPM),
                ),
                cpu_floor_w: config.cpu_floor_w,
                gpu_floor_mhz: config.gpu_floor_mhz,
                cpu_max_w: config.cpu_max_w,
            }),
            r@.core.watch == (Watch {
                stick_violations: 0,
                resumed_until: None,
                strict_until: None,
                last_reassert: None,
                idle_trip_warned: false,
            }),
            !r@.core.calibrating && !r@.core.from_auto && !r@.core.reentry_hold,
            r@.board.flags.len() == 0 && r@.board.pending.len() == 0,
            r@.readout == ReadoutView::blank(),
            r@.calib is None && r@.outcome is None && r@.auto is None,
            r@.bench == BenchView::empty(),
            r@.orders.len() == 0 && r@.run.effects.len() == 0,
    {
        proof {
            reveal(Num::le);
        }
        let limits = Limits {
            mode: Mode::Monitor,
            cpu_limit_w: None,
            gpu_max_mhz: None,
            fan_target_rpm: config.fan_target_rpm.clamp(
                Num(FAN_TARGET_MIN_RPM),
                Num(FAN_TARGET_MAX_RPM),
            ),
            cpu_floor_w: config.cpu_floor_w,
            gpu_floor_mhz: config.gpu_floor_mhz,
            cpu_max_w: config.cpu_max_w,
        };
        let board = Board { flags: Vec::new(), pending: Vec::new() };
        proof {
            reveal(distinct);
        }
        let readout = Readout::blank();
        let before = compose(limits, &board, &None, &None, &readout);
        Controller {
            core: Core {
                limits,
                watch: Watch {
                    stick_violations: 0,
                    resumed_until: None,
                    strict_until: None,
                    last_reassert: None,
                    idle_trip_warned: false,
                },
                calibrating: false,
                from_auto: false,
                reentry_hold: false,
            },
            config,
            rig,
            board,
            readout,
            calib: None,
            calib_outcome: None,
            auto: None,
            bench: Bench::new(),
            store,
            orders: Vec::new(),
            run: Run {
                effects: Vec::new(),
                cause: None,
                before,
                pass: Pass {
                    cpu_group_c: None,
                    gpu_group_c: None,
                    ec_mismatch: false,
                    ec_ma_c: None,
                    decisions: None,
                    target_duty: 0,
                    target_rpm: Num(ZERO),
                    cap_reset: None,
                },
            },
        }
    }

    /// The status.
    pub fn status(&self) -> (r: ControlStatus)
        ensures
            r@ == self@.shown(),
    {
        compose(self.core.limits, &self.board, &self.calib, &self.calib_outcome, &self.readout)
    }

    /// What is to be done now, in this order.
    pub fn take_orders(&mut self) -> (r: Vec<Order>)
        ensures
            r@ == old(self)@.orders,
            final(self)@ == (Model { orders: Seq::empty(), ..old(self)@ }),
            old(self).wf() ==> final(self).wf(),
    {
        let mut out: Vec<Order> = Vec::new();
        out.append(&mut self.orders);
        out
    }

    /// The effects of a call that is done.
    pub fn take_effects(&mut self) -> (r: Vec<Effect>)
        ensures
            r@ == old(self)@.run.effects,
            final(self)@ == (Model {
                run: RunView { effects: Seq::empty(), ..old(self)@.run },
                ..old(self)@
            }),
            old(self).wf() ==> final(self).wf(),
    {
        let mut out: Vec<Effect> = Vec::new();
        out.append(&mut self.run.effects);
        out
    }

    pub(crate) fn open_run(&mut self)
        ensures
            final(self)@ == old(self)@.opened(),
            old(self).wf() ==> final(self).wf(),
    {
        proof {
            reveal(Model::opened);
        }
        self.run.before = self.status();
        self.run.effects.clear();
        self.run.cause = None;
    }

    pub(crate) fn close_run(&mut self, otherwise: Cause)
        ensures
            final(self)@ == old(self)@.closed(otherwise),
            old(self).wf() ==> final(self).wf(),
    {
        proof {
            reveal(Model::closed);
        }
        let now = self.status();
        if !now.agrees_with(&self.run.before) {
            let cause = match self.run.cause {
                Some(c) => c,
                None => otherwise,
            };
            self.run.effects.push(Effect::StatusChanged { cause });
        } else if let Some(cause) = self.run.cause {
            self.run.effects.push(Effect::Noted { cause });
        }
        assert(self@.run.effects =~= old(self)@.run.effects + old(self)@.closing(otherwise));
    }

    pub(crate) fn drain(&mut self)
        ensures
            final(self)@ == old(self)@.drained(),
            old(self).wf() ==> final(self).wf(),
            old(self).sound() ==> final(self).sound(),
    {
        self.board.drain_flag_effects(&mut self.run.effects);
    }

    pub(crate) fn claim(&mut self, cause: Cause)
        ensures
            final(self)@ == old(self)@.because(cause),
            old(self).wf() ==> final(self).wf(),
    {
        self.run.cause = first_or(self.run.cause, cause);
    }

    /// Back to stock limits; the actuators stay owned.
    pub(crate) fn release_to_stock(&mut self)
        ensures
            final(self)@ == old(self)@.released(),
            old(self).sound() && !old(self)@.core.calibrating ==> final(self).wf(),
    {
        proof {
            reveal(Model::released);
        }
        if self.rig.gpu {
            self.orders.push(Order::ReleaseGpu);
        }
        if self.rig.cpu {
            self.orders.push(Order::RestoreCpu);
        }
        self.core =
        Core {
            limits: Limits {
                cpu_limit_w: None,
                gpu_max_mhz: None,
                mode: Mode::Monitor,
                ..self.core.limits
            },
            watch: Watch { stick_violations: 0, last_reassert: None, ..self.core.watch },
            ..self.core
        };
        quiet(&mut self.board);
        self.readout = Readout::blank();
    }

    /// Drops the closed-loop session, if there is one.
    pub(crate) fn exit_auto_and_persist(&mut self)
        ensures
            final(self)@ == old(self)@.without_session(),
            final(self)@.auto is None,
            final(self)@.core == old(self)@.core,
            old(self).sound() ==> final(self).sound(),
    {
        proof {
            reveal(Model::without_session);
        }
        if self.auto.is_some() {
            self.auto = None;
            self.orders.push(Order::SaveState);
            self.readout.clear_decisions();
        }
    }
}

fn quiet(board: &mut Board)
    ensures
        final(board)@ == quieted(old(board)@),
        old(board)@.wf() ==> final(board)@.wf(),
{
    proof {
        reveal(quieted);
    }
    board.remove_flag(StatusFlag::TargetUnreachable);
    board.remove_flag(StatusFlag::LimitNotSticking);
    board.remove_flag(StatusFlag::NotCalibrated);
    board.remove_flag(StatusFlag::FanctrlLost);
    board.remove_flag(StatusFlag::EcMismatch);
    board.remove_flag(StatusFlag::SteepCurve);
    board.remove_flag(StatusFlag::CurveInvalid);
    board.remove_flag(StatusFlag::GpuHot);
    board.remove_flag(StatusFlag::NvmeHot);
    board.remove_flag(StatusFlag::ReadbackBlind);
}

} // verus!
