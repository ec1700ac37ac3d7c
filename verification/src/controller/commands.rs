//! What the user commands.

use crate::controller::auto::{AutoState, AutoView, DEFAULT_MA_INTERVAL};
use crate::controller::bench::{Bench, BenchView};
use crate::controller::between::lemma_command_reports;
use crate::controller::calibration::{step_wf, CalibStep};
use crate::controller::config::{
    in_milliwatts, milliwatts, Config, FAN_TARGET_MAX_RPM, FAN_TARGET_MIN_RPM,
};
use crate::controller::effect::{Cause, Effect};
use crate::controller::machine::{Controller, Model};
use crate::controller::panel::{progress, CalibOutcome, CalibProgress, Limits, OutcomeView, ProgressView};
use crate::controller::plain::{Core, LockReply, Order, Watch};
use crate::controller::verdict::WriteVerdict;
use crate::num::Num;
use crate::status::{Mode, StatusFlag};
use vstd::prelude::*;

verus! {

/// What the user commands.
#[derive(Clone, Copy, Debug)]
pub enum Command {
    /// Limit the CPU's sustained power, W.
    SetCpuW(Num),
    /// Limit the GPU's clock, MHz.
    SetGpuMaxClock(u32),
    /// Restore stock limits and go on monitoring.
    ReleaseAll,
    /// Set the fan target, RPM.
    SetFanTarget(Num),
    /// Set the floors of both devices.
    SetFloors { cpu_w: Num, gpu_mhz: u32 },
    /// Start or end the closed loop.
    SetAuto(bool),
    /// Calibrate, from monitoring or from the closed loop.
    StartCalibration,
    /// Abort the calibration.
    AbortCalibration,
    /// Take the last calibration's outcome down.
    DismissCalibrationOutcome,
    /// Restore the hardware and end.
    Quit,
}

/// What a command needs done first.
#[derive(Clone, Copy, Debug)]
pub enum Request {
    /// Nothing.
    Nothing,
    /// Write the CPU's limit and read it back.
    WriteCpu { mw: u32 },
    /// Lock the GPU's clock.
    LockGpu { mhz: u32 },
    /// Bring a configuration with these floors within the hardware's bounds.
    Sanitize { cpu_w: Num, gpu_mhz: u32 },
    /// Make a calibration runner and start it.
    StartRunner,
    /// Abort the calibration runner.
    AbortRunner,
}

/// How that went.
pub enum Answer {
    Nothing,
    CpuWritten(WriteVerdict),
    GpuLocked(LockReply),
    Sanitized(Config),
    /// What the runner wanted done, and how far it is.
    Runner { steps: Vec<CalibStep>, shown: Option<CalibProgress> },
}

impl Command {
    /// It would apply limits.
    pub open spec fn actuates(self) -> bool {
        match self {
            Command::SetCpuW(_) | Command::SetGpuMaxClock(_) | Command::StartCalibration => true,
            Command::SetAuto(on) => on,
            _ => false,
        }
    }

    /// It is refused while something else owns the actuators.
    pub open spec fn refused(self, mode: Mode) -> bool {
        match (mode, self) {
            (
                Mode::Calibrating,
                Command::SetCpuW(_) | Command::SetGpuMaxClock(_) | Command::ReleaseAll
                | Command::SetAuto(_) | Command::SetFloors { .. },
            ) => true,
            (Mode::Auto, Command::SetCpuW(_) | Command::SetGpuMaxClock(_)) => true,
            _ => false,
        }
    }

    fn is_actuating(&self) -> (r: bool)
        ensures
            r == self.actuates(),
    {
        match self {
            Command::SetCpuW(_) | Command::SetGpuMaxClock(_) | Command::StartCalibration => true,
            Command::SetAuto(on) => *on,
            _ => false,
        }
    }

    fn is_refused(&self, mode: Mode) -> (r: bool)
        ensures
            r == self.refused(mode),
    {
        match (mode, self) {
            (
                Mode::Calibrating,
                Command::SetCpuW(_) | Command::SetGpuMaxClock(_) | Command::ReleaseAll
                | Command::SetAuto(_) | Command::SetFloors { .. },
            ) => true,
            (Mode::Auto, Command::SetCpuW(_) | Command::SetGpuMaxClock(_)) => true,
            _ => false,
        }
    }

    /// The cause of a change that it makes.
    pub open spec fn cause(self) -> Cause {
        match self {
            Command::SetCpuW(_) => Cause::SetCpuW,
            Command::SetGpuMaxClock(_) => Cause::SetGpuMaxClock,
            Command::ReleaseAll => Cause::Release,
            Command::SetFanTarget(_) => Cause::SetFanTarget,
            Command::SetFloors { .. } => Cause::SetFloors,
            Command::SetAuto(true) => Cause::AutoOn,
            Command::SetAuto(false) => Cause::AutoOff,
            Command::StartCalibration => Cause::CalibStart,
            Command::DismissCalibrationOutcome => Cause::CalibDismissed,
            Command::AbortCalibration => Cause::CalibAborted,
            Command::Quit => Cause::Sample,
        }
    }

    fn cause_of(&self) -> (r: Cause)
        ensures
            r == self.cause(),
    {
        match self {
            Command::SetCpuW(_) => Cause::SetCpuW,
            Command::SetGpuMaxClock(_) => Cause::SetGpuMaxClock,
            Command::ReleaseAll => Cause::Release,
            Command::SetFanTarget(_) => Cause::SetFanTarget,
            Command::SetFloors { .. } => Cause::SetFloors,
            Command::SetAuto(on) => if *on {
                Cause::AutoOn
            } else {
                Cause::AutoOff
            },
            Command::StartCalibration => Cause::CalibStart,
            Command::DismissCalibrationOutcome => Cause::CalibDismissed,
            Command::AbortCalibration => Cause::CalibAborted,
            Command::Quit => Cause::Sample,
        }
    }
}

/// The answer is in order.
pub open spec fn answer_wf(a: Answer) -> bool {
    match a {
        Answer::Sanitized(c) => c.wf(),
        Answer::Runner { steps, .. } => forall|i: int|
            0 <= i < steps@.len() ==> step_wf(#[trigger] steps@[i]),
        _ => true,
    }
}

/// The steps of an answer.
pub open spec fn steps_of(a: Answer) -> Seq<CalibStep> {
    match a {
        Answer::Runner { steps, .. } => steps@,
        _ => Seq::empty(),
    }
}

/// The progress of an answer.
pub open spec fn progress_of(a: Answer) -> Option<ProgressView> {
    match a {
        Answer::Runner { shown, .. } => progress(shown),
        _ => None,
    }
}

impl Model {
    /// What a command needs done first.
    #[verifier::opaque]
    pub open spec fn request(self, c: Command, tripped: bool, fenced: bool) -> Request {
        if (tripped && c.actuates()) || c.refused(self.core.limits.mode) {
            Request::Nothing
        } else {
            match c {
                Command::SetCpuW(w) if self.rig.cpu && !fenced => Request::WriteCpu {
                    mw: milliwatts(w),
                },
                Command::SetGpuMaxClock(mhz) if self.rig.gpu && !fenced => Request::LockGpu { mhz },
                Command::SetFloors { cpu_w, gpu_mhz } => Request::Sanitize { cpu_w, gpu_mhz },
                Command::StartCalibration if self.core.limits.mode == Mode::Monitor
                    || self.core.limits.mode == Mode::Auto => Request::StartRunner,
                Command::AbortCalibration if self.core.calibrating => Request::AbortRunner,
                Command::Quit if self.core.calibrating => Request::AbortRunner,
                _ => Request::Nothing,
            }
        }
    }

    /// An emergency acknowledged: the command itself does nothing.
    #[verifier::opaque]
    pub open spec fn acknowledged(self) -> Model {
        Model {
            board: self.board.lowered(StatusFlag::ThermalEmergency).lowered(
                StatusFlag::SensorLost,
            ),
            orders: self.orders.push(Order::RearmWatchdog),
            ..self.opened()
        }.drained().with_effect(Effect::StatusChanged { cause: Cause::Rearmed })
    }

    /// A CPU limit by hand: only a verified one counts.
    #[verifier::opaque]
    pub open spec fn cpu_commanded(self, a: Answer) -> Model {
        match a {
            Answer::CpuWritten(WriteVerdict::Verified(w)) => Model {
                core: Core {
                    limits: Limits {
                        cpu_limit_w: Some(w),
                        mode: Mode::Manual,
                        ..self.core.limits
                    },
                    watch: Watch { stick_violations: 0, ..self.core.watch },
                    ..self.core
                },
                ..self
            }.with_effect(Effect::CpuSet(w)),
            _ => self,
        }
    }

    /// A GPU limit by hand.
    #[verifier::opaque]
    pub open spec fn gpu_commanded(self, mhz: u32, a: Answer) -> Model {
        match a {
            Answer::GpuLocked(LockReply::Locked(applied)) => Model {
                core: Core {
                    limits: Limits {
                        gpu_max_mhz: applied,
                        mode: Mode::Manual,
                        ..self.core.limits
                    },
                    ..self.core
                },
                ..self
            }.with_effect(
                Effect::GpuSet(
                    match applied {
                        Some(m) => m,
                        None => mhz,
                    },
                ),
            ),
            _ => self,
        }
    }

    /// Everything released by hand.
    #[verifier::opaque]
    pub open spec fn all_released(self) -> Model {
        self.without_session().released().with_effect(Effect::Released)
    }

    /// The fan target, within its bounds; only a change is written down.
    #[verifier::opaque]
    pub open spec fn aimed(self, rpm: Num) -> Model {
        let clamped = rpm.within(Num(FAN_TARGET_MIN_RPM), Num(FAN_TARGET_MAX_RPM));
        if clamped.same(self.core.limits.fan_target_rpm) {
            self
        } else {
            Model {
                core: Core {
                    limits: Limits { fan_target_rpm: clamped, ..self.core.limits },
                    ..self.core
                },
                config: Config { fan_target_rpm: clamped, ..self.config },
                orders: self.orders.push(Order::SaveConfig),
                ..self
            }
        }
    }

    /// The floors, within the hardware's bounds; only a change is written
    /// down.
    #[verifier::opaque]
    pub open spec fn floored(self, a: Answer) -> Model {
        match a {
            Answer::Sanitized(c) if !c.agrees(self.config) => Model {
                config: c,
                core: Core {
                    limits: Limits {
                        cpu_floor_w: c.cpu_floor_w,
                        gpu_floor_mhz: c.gpu_floor_mhz,
                        ..self.core.limits
                    },
                    ..self.core
                },
                orders: self.orders.push(Order::SaveConfig),
                ..self
            },
            _ => self,
        }
    }

    /// The closed loop started, if it does not run.
    #[verifier::opaque]
    pub open spec fn looping(self) -> Model {
        if self.core.limits.mode == Mode::Auto {
            self
        } else {
            Model {
                board: self.board.raised(StatusFlag::NotCalibrated),
                auto: Some(AutoView::at_start(self.config)),
                core: self.core.moded(Mode::Auto),
                ..self
            }
        }
    }

    /// A calibration begun; it can suspend the closed loop, but not limits
    /// set by hand.
    #[verifier::opaque]
    pub open spec fn trying(self, a: Answer) -> Model {
        let mode = self.core.limits.mode;
        if mode == Mode::Monitor || mode == Mode::Auto {
            let m = Model {
                outcome: Some(OutcomeView::empty()),
                core: Core {
                    limits: Limits { mode: Mode::Calibrating, ..self.core.limits },
                    calibrating: true,
                    from_auto: mode == Mode::Auto,
                    reentry_hold: false,
                    ..self.core
                },
                bench: BenchView::empty(),
                orders: self.orders.push(Order::NewCalibReplica(DEFAULT_MA_INTERVAL)).push(
                    Order::DropCalibVerifier,
                ),
                ..self
            }.calibrated(steps_of(a), None);
            Model {
                calib: if m.core.calibrating {
                    progress_of(a)
                } else {
                    None
                },
                ..m
            }
        } else {
            self
        }
    }

    /// A calibration aborted, if there is one.
    #[verifier::opaque]
    pub open spec fn given_up(self, a: Answer) -> Model {
        if self.core.calibrating {
            self.calibrated(steps_of(a), None).calibration_ended()
        } else {
            self
        }
    }

    /// The outcome taken down, unless a calibration runs.
    pub open spec fn dismissed(self) -> Model {
        if self.core.calibrating {
            self
        } else {
            Model { outcome: None, ..self }
        }
    }

    /// The end: a calibration is aborted, a session dropped and the hardware
    /// restored.
    #[verifier::opaque]
    pub open spec fn quit(self, a: Answer) -> Model {
        self.given_up(a).without_session().ordering(Order::RestoreAll).drained().with_effect(
            Effect::Quit,
        )
    }

    /// With the command carried out.
    pub open spec fn carried_out(self, c: Command, a: Answer) -> Model {
        match c {
            Command::SetCpuW(_) => self.cpu_commanded(a),
            Command::SetGpuMaxClock(mhz) => self.gpu_commanded(mhz, a),
            Command::ReleaseAll => self.all_released(),
            Command::SetFanTarget(rpm) => self.aimed(rpm),
            Command::SetFloors { .. } => self.floored(a),
            Command::SetAuto(true) => self.looping(),
            Command::SetAuto(false) => if self.core.limits.mode == Mode::Auto {
                self.all_released()
            } else {
                self
            },
            Command::StartCalibration => self.trying(a),
            Command::DismissCalibrationOutcome => self.dismissed(),
            Command::AbortCalibration => self.given_up(a),
            Command::Quit => self,
        }
    }

    /// With a changed status reported.
    #[verifier::opaque]
    pub open spec fn announced(self, cause: Cause) -> Model {
        if self.shown().agrees(self.run.before) {
            self
        } else {
            self.with_effect(Effect::StatusChanged { cause })
        }
    }

    /// After a command. While an emergency stands, the first command that
    /// would apply limits only acknowledges it.
    #[verifier::opaque]
    pub open spec fn commanded(self, c: Command, a: Answer, tripped: bool) -> Model {
        if tripped && c.actuates() {
            self.acknowledged()
        } else if c.refused(self.core.limits.mode) {
            self.opened()
        } else if c is Quit {
            self.opened().quit(a)
        } else {
            self.opened().carried_out(c, a).drained().announced(c.cause())
        }
    }
}

impl Controller {
    /// What a command needs done first. `tripped` tells whether the watchdog
    /// has tripped, `fenced` whether the machine shuts down.
    pub fn request(&self, c: Command, tripped: bool, fenced: bool) -> (r: Request)
        ensures
            r == self@.request(c, tripped, fenced),
    {
        proof {
            reveal(Model::request);
        }
        let mode = self.core.limits.mode;
        if (tripped && c.is_actuating()) || c.is_refused(mode) {
            return Request::Nothing;
        }
        match c {
            Command::SetCpuW(w) if self.rig.cpu && !fenced => Request::WriteCpu {
                mw: in_milliwatts(w),
            },
            Command::SetGpuMaxClock(mhz) if self.rig.gpu && !fenced => Request::LockGpu { mhz },
            Command::SetFloors { cpu_w, gpu_mhz } => Request::Sanitize { cpu_w, gpu_mhz },
            Command::StartCalibration if mode == Mode::Monitor || mode == Mode::Auto => {
                Request::StartRunner
            },
            Command::AbortCalibration if self.core.calibrating => Request::AbortRunner,
            Command::Quit if self.core.calibrating => Request::AbortRunner,
            _ => Request::Nothing,
        }
    }

    fn acknowledge(&mut self)
        requires
            old(self).wf(),
        ensures
            final(self)@ == old(self)@.acknowledged(),
            final(self).wf(),
    {
        proof {
            reveal(Model::acknowledged);
            reveal(Model::opened);
        }
        self.open_run();
        self.board.remove_flag(StatusFlag::ThermalEmergency);
        self.board.remove_flag(StatusFlag::SensorLost);
        self.orders.push(Order::RearmWatchdog);
        self.drain();
        self.run.effects.push(Effect::StatusChanged { cause: Cause::Rearmed });
    }

    fn command_cpu(&mut self, a: &Answer)
        requires
            old(self).wf(),
            !old(self)@.core.calibrating,
        ensures
            final(self)@ == old(self)@.cpu_commanded(*a),
            final(self).wf(),
    {
        proof {
            reveal(Model::cpu_commanded);
        }
        if let Answer::CpuWritten(WriteVerdict::Verified(w)) = a {
            self.core =
            Core {
                limits: Limits { cpu_limit_w: Some(*w), mode: Mode::Manual, ..self.core.limits },
                watch: Watch { stick_violations: 0, ..self.core.watch },
                ..self.core
            };
            self.run.effects.push(Effect::CpuSet(*w));
        }
    }

    fn command_gpu(&mut self, mhz: u32, a: &Answer)
        requires
            old(self).wf(),
            !old(self)@.core.calibrating,
        ensures
            final(self)@ == old(self)@.gpu_commanded(mhz, *a),
            final(self).wf(),
    {
        proof {
            reveal(Model::gpu_commanded);
        }
        if let Answer::GpuLocked(LockReply::Locked(applied)) = a {
            self.core.limits =
            Limits { gpu_max_mhz: *applied, mode: Mode::Manual, ..self.core.limits };
            let clock = match applied {
                Some(m) => *m,
                None => mhz,
            };
            self.run.effects.push(Effect::GpuSet(clock));
        }
    }

    fn release_all(&mut self)
        requires
            old(self).wf(),
            !old(self)@.core.calibrating,
        ensures
            final(self)@ == old(self)@.all_released(),
            final(self).wf(),
    {
        proof {
            reveal(Model::all_released);
        }
        self.exit_auto_and_persist();
        self.release_to_stock();
        self.run.effects.push(Effect::Released);
    }

    fn aim(&mut self, rpm: Num)
        requires
            old(self).wf(),
        ensures
            final(self)@ == old(self)@.aimed(rpm),
            final(self).wf(),
    {
        proof {
            reveal(Model::aimed);
            reveal(Num::le);
        }
        let clamped = rpm.clamp(Num(FAN_TARGET_MIN_RPM), Num(FAN_TARGET_MAX_RPM));
        if clamped != self.core.limits.fan_target_rpm {
            self.core.limits.fan_target_rpm = clamped;
            self.config.fan_target_rpm = clamped;
            self.orders.push(Order::SaveConfig);
        }
    }

    fn set_floors(&mut self, a: &Answer)
        requires
            old(self).wf(),
            answer_wf(*a),
        ensures
            final(self)@ == old(self)@.floored(*a),
            final(self).wf(),
    {
        proof {
            reveal(Model::floored);
        }
        if let Answer::Sanitized(config) = a {
            if !config.agrees_with(&self.config) {
                self.config = *config;
                self.core.limits =
                Limits {
                    cpu_floor_w: config.cpu_floor_w,
                    gpu_floor_mhz: config.gpu_floor_mhz,
                    ..self.core.limits
                };
                self.orders.push(Order::SaveConfig);
            }
        }
    }

    fn start_loop(&mut self)
        requires
            old(self).wf(),
            !old(self)@.core.calibrating,
        ensures
            final(self)@ == old(self)@.looping(),
            final(self).wf(),
    {
        proof {
            reveal(Model::looping);
        }
        if self.core.limits.mode != Mode::Auto {
            self.board.add_flag(StatusFlag::NotCalibrated);
            self.auto = Some(AutoState::new(&self.config));
            self.core.limits.mode = Mode::Auto;
        }
    }

    fn start_calibration(&mut self, a: Answer)
        requires
            old(self).wf(),
            answer_wf(a),
        ensures
            final(self)@ == old(self)@.trying(a),
            final(self).wf(),
    {
        proof {
            reveal(Model::trying);
        }
        let mode = self.core.limits.mode;
        if mode == Mode::Monitor || mode == Mode::Auto {
            self.calib_outcome = Some(CalibOutcome::new());
            self.core =
            Core {
                limits: Limits { mode: Mode::Calibrating, ..self.core.limits },
                calibrating: true,
                from_auto: mode == Mode::Auto,
                reentry_hold: false,
                ..self.core
            };
            self.bench = Bench::new();
            self.orders.push(Order::NewCalibReplica(DEFAULT_MA_INTERVAL));
            self.orders.push(Order::DropCalibVerifier);
            let (steps, shown) = runner_of(a);
            let _ = self.apply_calib_effects(&steps, &None);
            if self.core.calibrating {
                self.calib = shown;
            } else {
                self.calib = None;
            }
        }
    }

    fn abort_calibration(&mut self, a: Answer)
        requires
            old(self).wf(),
            answer_wf(a),
        ensures
            final(self)@ == old(self)@.given_up(a),
            final(self).wf(),
            !final(self)@.core.calibrating,
    {
        proof {
            reveal(Model::given_up);
        }
        if self.core.calibrating {
            let (steps, _) = runner_of(a);
            let _ = self.apply_calib_effects(&steps, &None);
            self.end_calibration();
        }
    }

    /// Has the hardware restored in full; no state stands in the way.
    pub fn restore_all(&mut self)
        ensures
            final(self)@ == old(self)@.ordering(Order::RestoreAll),
            old(self).wf() ==> final(self).wf(),
            old(self).sound() ==> final(self).sound(),
    {
        self.orders.push(Order::RestoreAll);
    }

    fn end(&mut self, a: Answer)
        requires
            old(self).wf(),
            answer_wf(a),
        ensures
            final(self)@ == old(self)@.quit(a),
            final(self).sound(),
    {
        proof {
            reveal(Model::quit);
        }
        self.abort_calibration(a);
        self.exit_auto_and_persist();
        self.restore_all();
        self.drain();
        self.run.effects.push(Effect::Quit);
    }

    fn announce(&mut self, cause: Cause)
        requires
            old(self).wf(),
        ensures
            final(self)@ == old(self)@.announced(cause),
            final(self).wf(),
    {
        proof {
            reveal(Model::announced);
        }
        let now = self.status();
        if !now.agrees_with(&self.run.before) {
            self.run.effects.push(Effect::StatusChanged { cause });
        }
    }

    fn carry_out(&mut self, c: Command, a: Answer)
        requires
            old(self).wf(),
            answer_wf(a),
            !c.refused(old(self)@.core.limits.mode),
        ensures
            final(self)@ == old(self)@.carried_out(c, a),
            final(self).wf(),
    {
        match c {
            Command::SetCpuW(_) => {
                self.command_cpu(&a);
            },
            Command::SetGpuMaxClock(mhz) => {
                self.command_gpu(mhz, &a);
            },
            Command::ReleaseAll => {
                self.release_all();
            },
            Command::SetFanTarget(rpm) => {
                self.aim(rpm);
            },
            Command::SetFloors { .. } => {
                self.set_floors(&a);
            },
            Command::SetAuto(on) => {
                if on {
                    self.start_loop();
                } else if self.core.limits.mode == Mode::Auto {
                    self.release_all();
                }
            },
            Command::StartCalibration => {
                self.start_calibration(a);
            },
            Command::DismissCalibrationOutcome => {
                if !self.core.calibrating {
                    self.calib_outcome = None;
                }
            },
            Command::AbortCalibration => {
                self.abort_calibration(a);
            },
            Command::Quit => {},
        }
    }

    /// Carries a command out, with the answer to its request; its effects can
    /// be taken then.
    pub fn on_command(&mut self, c: Command, a: Answer, tripped: bool)
        requires
            old(self).wf(),
            answer_wf(a),
        ensures
            final(self)@ == old(self)@.commanded(c, a, tripped),
            !(c is Quit) ==> final(self).wf(),
            final(self).sound(),
            old(self)@.idle() && !(c is Quit) ==> final(self)@.idle(),
    {
        proof {
            if old(self)@.idle() {
                lemma_command_reports(old(self)@, c, a, tripped);
            }
            reveal(Model::commanded);
            reveal(Model::opened);
        }
        if tripped && c.is_actuating() {
            self.acknowledge();
            return ;
        }
        let refused = c.is_refused(self.core.limits.mode);
        self.open_run();
        if refused {
            return ;
        }
        if let Command::Quit = c {
            self.end(a);
            return ;
        }
        self.carry_out(c, a);
        self.drain();
        self.announce(c.cause_of());
    }
}

fn runner_of(a: Answer) -> (r: (Vec<CalibStep>, Option<CalibProgress>))
    ensures
        r.0@ == steps_of(a),
        progress(r.1) == progress_of(a),
        answer_wf(a) ==> forall|i: int| 0 <= i < r.0@.len() ==> step_wf(#[trigger] r.0@[i]),
{
    match a {
        Answer::Runner { steps, shown } => (steps, shown),
        _ => (Vec::new(), None),
    }
}

} // verus!
