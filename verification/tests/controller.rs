//! The controller, driven through doubles of everything around it.

use fw_fanctrl_loop::budget::WarmStart;
use fw_fanctrl_loop::controller::auto::{GpuCommandEvidence, WarmStartEntry};
use fw_fanctrl_loop::controller::calibration::{CalibSave, CalibStep, CpuReply, GpuReply};
use fw_fanctrl_loop::controller::commands::{Answer, Request};
use fw_fanctrl_loop::controller::config::DEFAULT_FAN_TARGET_RPM;
use fw_fanctrl_loop::controller::drive::Decisions;
use fw_fanctrl_loop::controller::intake::{ReconciliationObservation, ReplicaSeed, SourceRequest};
use fw_fanctrl_loop::controller::lane::GainsSource;
use fw_fanctrl_loop::controller::panel::{decision_telemetry_flags, CalibProgress};
use fw_fanctrl_loop::controller::plain::{
    CapCheck, LockReply, Next, Order, Rig, Trip, REASSERT_PERIOD_S,
};
use fw_fanctrl_loop::controller::publish::TreadReply;
use fw_fanctrl_loop::controller::report::{
    Device, DeviceReport, SourceFlag, SourceReply, TStarState, TelemetryFlag,
};
use fw_fanctrl_loop::controller::steady::SteadyFacts;
use fw_fanctrl_loop::controller::trial::ScoreReply;
use fw_fanctrl_loop::controller::upkeep::ReassertReply;
use fw_fanctrl_loop::controller::verdict::{VerdictOutcome, VerdictState, WriteVerdict};
use fw_fanctrl_loop::controller::windows::STEADY_WINDOW_N;
use fw_fanctrl_loop::controller::{commands, config, effect, machine};
use fw_fanctrl_loop::device_loop::{
    ActuatorState, DeviceDecision, Gains, Hold, Selected, ThermalMode,
};
use fw_fanctrl_loop::guards::{GuardState, CPU_MAX_RATCHET_DOWN_RATE_W};
use fw_fanctrl_loop::num::Num;
use fw_fanctrl_loop::status::{flag_severity, Mode, Severity, StatusFlag};
use fw_fanctrl_loop::table::Table;
use fw_fanctrl_loop::types;
use fw_fanctrl_loop::types::{EcGroup, EcSensor, Freshness};
use std::cell::{Cell, RefCell};
use std::collections::VecDeque;
use std::rc::Rc;

fn n(x: f64) -> Num {
    Num::from_bits(x.to_bits())
}

fn f(x: Num) -> f64 {
    f64::from_bits(x.to_bits())
}

fn gains(kc: f64, ti_s: f64) -> Gains {
    Gains {
        kc: n(kc),
        ti_s: n(ti_s),
    }
}

// What the controller is told, in plain numbers.

#[derive(Clone, Debug, PartialEq)]
struct EcReading {
    sensors: Vec<(String, f64)>,
}

/// A reading over a sensor's plausible range is thrown out.
const PLAUSIBLE_MAX_C: f64 = 115.0;

fn group_of(label: &str) -> EcGroup {
    if label.starts_with("cpu") || label.starts_with("apu") {
        EcGroup::Cpu
    } else if label.starts_with("gpu") {
        EcGroup::Gpu
    } else if label.starts_with("ambient") || label.starts_with("charger") {
        EcGroup::Uncontrollable
    } else {
        EcGroup::Unknown
    }
}

impl EcReading {
    fn plausible(&self) -> Vec<(String, f64)> {
        self.sensors.iter().filter(|(_, c)| *c <= PLAUSIBLE_MAX_C).cloned().collect()
    }

    fn group_c(&self, group: EcGroup) -> Option<f64> {
        self.plausible()
            .iter()
            .filter(|(label, _)| group_of(label) == group)
            .map(|(_, c)| *c)
            .reduce(f64::max)
    }

    fn raw_max_c(&self) -> Option<f64> {
        self.sensors.iter().map(|(_, c)| *c).reduce(f64::max)
    }

    fn bits(&self) -> types::EcReading {
        let plausible = self.plausible();
        let mut hottest = plausible[0].clone();
        for sensor in &plausible {
            if sensor.1 > hottest.1 {
                hottest = sensor.clone();
            }
        }
        types::EcReading {
            max_c: n(hottest.1),
            argmax: hottest.0.clone(),
            argmax_group: group_of(&hottest.0),
            reconciliation_max_c: self.raw_max_c().map(n),
            cpu_group_c: self.group_c(EcGroup::Cpu).map(n),
            gpu_group_c: self.group_c(EcGroup::Gpu).map(n),
            all: plausible
                .iter()
                .map(|(label, c)| EcSensor {
                    label: label.clone(),
                    group: group_of(label),
                    c: n(*c),
                })
                .collect(),
            implausible: self
                .sensors
                .iter()
                .filter(|(_, c)| *c > PLAUSIBLE_MAX_C)
                .map(|(label, _)| label.clone())
                .collect(),
        }
    }
}

fn ec_reading_c(sensors: &[(&str, f64)]) -> EcReading {
    EcReading {
        sensors: sensors.iter().map(|(label, c)| (label.to_string(), *c)).collect(),
    }
}

#[derive(Clone, Debug, PartialEq)]
struct FanctrlView {
    strategy: String,
    active: bool,
    speed_pct: u8,
    temperature: f64,
    ma_temperature: f64,
    ma_interval: u32,
    curve: Vec<(f64, u8)>,
    /// The view's age, s.
    age_s: f64,
}

impl FanctrlView {
    fn bits(&self) -> types::FanctrlView {
        types::FanctrlView {
            strategy: self.strategy.clone(),
            active: self.active,
            speed_pct: self.speed_pct,
            temperature: n(self.temperature),
            ma_temperature: n(self.ma_temperature),
            ma_interval: self.ma_interval,
            curve: self.curve.iter().map(|(c, duty)| (n(*c), *duty)).collect(),
        }
    }
}

#[derive(Clone, Debug)]
struct Sample {
    t_mono: f64,
    /// When it was taken, on the completion clock.
    acquired_at: Option<f64>,
    resumed: bool,
    on_ac: bool,
    cpu_pkg_w: f64,
    cpu_temp_c: f64,
    cpu_temp_valid: bool,
    gpu_w: f64,
    gpu_w_valid: bool,
    gpu_sm_mhz: f64,
    gpu_mhz_valid: bool,
    gpu_util_pct: f64,
    gpu_temp_c: f64,
    gpu_temp_valid: bool,
    nvme_temp_c: Option<f64>,
    fan1_rpm: f64,
    fan2_rpm: f64,
    fan_valid: bool,
    ec: Option<EcReading>,
    ec_valid: bool,
    fanctrl: Option<FanctrlView>,
    fanctrl_freshness: Freshness,
    fanctrl_view_changed: bool,
}

impl Default for Sample {
    fn default() -> Sample {
        Sample {
            t_mono: 0.0,
            acquired_at: None,
            resumed: false,
            on_ac: false,
            cpu_pkg_w: 0.0,
            cpu_temp_c: 0.0,
            cpu_temp_valid: false,
            gpu_w: 0.0,
            gpu_w_valid: false,
            gpu_sm_mhz: 0.0,
            gpu_mhz_valid: false,
            gpu_util_pct: 0.0,
            gpu_temp_c: 0.0,
            gpu_temp_valid: false,
            nvme_temp_c: None,
            fan1_rpm: 0.0,
            fan2_rpm: 0.0,
            fan_valid: false,
            ec: None,
            ec_valid: false,
            fanctrl: None,
            fanctrl_freshness: Freshness::Absent,
            fanctrl_view_changed: false,
        }
    }
}

impl Sample {
    fn bits(&self) -> types::Sample {
        types::Sample {
            t_mono: n(self.t_mono),
            resumed: self.resumed,
            on_ac: self.on_ac,
            cpu_pkg_w: n(self.cpu_pkg_w),
            cpu_temp_c: n(self.cpu_temp_c),
            cpu_temp_valid: self.cpu_temp_valid,
            gpu_w: n(self.gpu_w),
            gpu_w_valid: self.gpu_w_valid,
            gpu_sm_mhz: n(self.gpu_sm_mhz),
            gpu_mhz_valid: self.gpu_mhz_valid,
            gpu_util_pct: n(self.gpu_util_pct),
            gpu_temp_c: n(self.gpu_temp_c),
            gpu_temp_valid: self.gpu_temp_valid,
            nvme_temp_c: self.nvme_temp_c.map(n),
            max_fan_rpm: n(self.fan1_rpm.max(self.fan2_rpm)),
            fan_valid: self.fan_valid,
            ec: self.ec.as_ref().map(EcReading::bits),
            ec_valid: self.ec_valid,
            fanctrl: self.fanctrl.as_ref().map(FanctrlView::bits),
            fanctrl_freshness: self.fanctrl_freshness,
            fanctrl_view_changed: self.fanctrl_view_changed,
            ..types::Sample::default()
        }
    }

    fn gap_s(&self) -> f64 {
        self.fanctrl.as_ref().map_or(f64::INFINITY, |view| view.age_s)
    }
}

#[derive(Clone, Copy, Debug, PartialEq)]
enum Command {
    SetCpuW(f64),
    SetGpuMaxClock(u32),
    ReleaseAll,
    SetFanTarget(f64),
    SetFloors { cpu_w: f64, gpu_mhz: u32 },
    SetAuto(bool),
    StartCalibration,
    AbortCalibration,
    DismissCalibrationOutcome,
    Quit,
}

impl Command {
    fn bits(self) -> commands::Command {
        match self {
            Command::SetCpuW(w) => commands::Command::SetCpuW(n(w)),
            Command::SetGpuMaxClock(mhz) => commands::Command::SetGpuMaxClock(mhz),
            Command::ReleaseAll => commands::Command::ReleaseAll,
            Command::SetFanTarget(rpm) => commands::Command::SetFanTarget(n(rpm)),
            Command::SetFloors { cpu_w, gpu_mhz } => commands::Command::SetFloors {
                cpu_w: n(cpu_w),
                gpu_mhz,
            },
            Command::SetAuto(on) => commands::Command::SetAuto(on),
            Command::StartCalibration => commands::Command::StartCalibration,
            Command::AbortCalibration => commands::Command::AbortCalibration,
            Command::DismissCalibrationOutcome => commands::Command::DismissCalibrationOutcome,
            Command::Quit => commands::Command::Quit,
        }
    }
}

#[derive(Clone, Copy, Debug, PartialEq)]
struct Config {
    fan_target_rpm: f64,
    cpu_floor_w: f64,
    gpu_floor_mhz: u32,
    cpu_max_w: f64,
    gpu_max_mhz: u32,
    cpu_hot_c: f64,
    gpu_hot_c: f64,
    nvme_hot_c: f64,
    fast_limit_mw: u32,
    cpu_gains: Option<Gains>,
    gpu_gains: Option<Gains>,
    shadow_headroom_cpu_w: f64,
    shadow_headroom_gpu_mhz: f64,
    shadow_fall_rate_cpu: f64,
    shadow_fall_rate_gpu: f64,
    gpu_shadow_enabled: bool,
}

impl Default for Config {
    fn default() -> Config {
        Config {
            fan_target_rpm: 3000.0,
            cpu_floor_w: 15.0,
            gpu_floor_mhz: 1000,
            cpu_max_w: 54.0,
            gpu_max_mhz: 3090,
            cpu_hot_c: 90.0,
            gpu_hot_c: 88.0,
            nvme_hot_c: 80.0,
            fast_limit_mw: 53_000,
            cpu_gains: None,
            gpu_gains: None,
            shadow_headroom_cpu_w: 10.0,
            shadow_headroom_gpu_mhz: 150.0,
            shadow_fall_rate_cpu: 1.0,
            shadow_fall_rate_gpu: 15.0,
            gpu_shadow_enabled: true,
        }
    }
}

impl Config {
    /// Within the hardware's bounds.
    fn sanitized(self) -> Config {
        let cpu_max_w = self.cpu_max_w.clamp(10.0, 54.0);
        let gpu_max_mhz = self.gpu_max_mhz.clamp(1000, 3090);
        let cpu_floor_w = self.cpu_floor_w.clamp(10.0, 54.0);
        let gpu_floor_mhz = self.gpu_floor_mhz.clamp(1000, 3090);
        Config {
            cpu_floor_w,
            gpu_floor_mhz,
            cpu_max_w: cpu_max_w.max(cpu_floor_w),
            gpu_max_mhz: gpu_max_mhz.max(gpu_floor_mhz),
            ..self
        }
    }

    fn bits(self) -> config::Config {
        config::Config {
            fan_target_rpm: n(self.fan_target_rpm),
            cpu_floor_w: n(self.cpu_floor_w),
            gpu_floor_mhz: self.gpu_floor_mhz,
            cpu_max_w: n(self.cpu_max_w),
            gpu_max_mhz: self.gpu_max_mhz,
            cpu_hot_c: n(self.cpu_hot_c),
            gpu_hot_c: n(self.gpu_hot_c),
            nvme_hot_c: n(self.nvme_hot_c),
            fast_limit_mw: self.fast_limit_mw,
            cpu_gains: self.cpu_gains,
            gpu_gains: self.gpu_gains,
            shadow_headroom_cpu_w: n(self.shadow_headroom_cpu_w),
            shadow_headroom_gpu_mhz: n(self.shadow_headroom_gpu_mhz),
            shadow_fall_rate_cpu: n(self.shadow_fall_rate_cpu),
            shadow_fall_rate_gpu: n(self.shadow_fall_rate_gpu),
            gpu_shadow_enabled: self.gpu_shadow_enabled,
        }
    }

    fn of(c: &config::Config) -> Config {
        Config {
            fan_target_rpm: f(c.fan_target_rpm),
            cpu_floor_w: f(c.cpu_floor_w),
            gpu_floor_mhz: c.gpu_floor_mhz,
            cpu_max_w: f(c.cpu_max_w),
            gpu_max_mhz: c.gpu_max_mhz,
            cpu_hot_c: f(c.cpu_hot_c),
            gpu_hot_c: f(c.gpu_hot_c),
            nvme_hot_c: f(c.nvme_hot_c),
            fast_limit_mw: c.fast_limit_mw,
            cpu_gains: c.cpu_gains,
            gpu_gains: c.gpu_gains,
            shadow_headroom_cpu_w: f(c.shadow_headroom_cpu_w),
            shadow_headroom_gpu_mhz: f(c.shadow_headroom_gpu_mhz),
            shadow_fall_rate_cpu: f(c.shadow_fall_rate_cpu),
            shadow_fall_rate_gpu: f(c.shadow_fall_rate_gpu),
            gpu_shadow_enabled: c.gpu_shadow_enabled,
        }
    }
}

// What the controller shows, in plain numbers.

#[derive(Clone, Debug, PartialEq)]
enum Effect {
    Calibration,
    CpuSet(f64),
    GpuSet(u32),
    Released,
    Reasserted { cause: &'static str },
    StatusChanged { cause: &'static str },
    Noted { cause: &'static str },
    Flagged { flag: &'static str, active: bool },
    Quit,
}

fn plain_effect(e: &effect::Effect) -> Effect {
    match e {
        effect::Effect::Calibration { .. } => Effect::Calibration,
        effect::Effect::CpuSet(w) => Effect::CpuSet(f(*w)),
        effect::Effect::GpuSet(mhz) => Effect::GpuSet(*mhz),
        effect::Effect::Released => Effect::Released,
        effect::Effect::Reasserted { cause } => Effect::Reasserted {
            cause: cause.as_str(),
        },
        effect::Effect::StatusChanged { cause } => Effect::StatusChanged {
            cause: cause.as_str(),
        },
        effect::Effect::Noted { cause } => Effect::Noted {
            cause: cause.as_str(),
        },
        effect::Effect::Flagged { flag, active } => Effect::Flagged {
            flag: flag.as_str(),
            active: *active,
        },
        effect::Effect::Quit => Effect::Quit,
    }
}

#[derive(Clone, Debug, PartialEq)]
struct Report {
    thermal: f64,
    shadow: f64,
    cap: f64,
    hold: Hold,
    gains_source: GainsSource,
}

fn plain_report(r: &DeviceReport) -> Report {
    Report {
        thermal: f(r.decision.thermal),
        shadow: f(r.decision.shadow),
        cap: f(r.decision.cap),
        hold: r.decision.hold,
        gains_source: r.gains_source,
    }
}

#[derive(Clone, Debug, PartialEq)]
struct Progress {
    phase: String,
    total: u32,
}

#[derive(Clone, Debug, PartialEq)]
struct Outcome {
    retained_cpu: Option<Gains>,
    retained_gpu: Option<Gains>,
    changes: Vec<(Device, Gains, Gains)>,
    notes: Vec<String>,
    errors: Vec<String>,
    applied: bool,
    saved: bool,
}

#[derive(Clone, Debug, PartialEq)]
struct Status {
    mode: Mode,
    cpu_limit_w: Option<f64>,
    gpu_max_mhz: Option<u32>,
    fan_target_rpm: f64,
    cpu_floor_w: f64,
    gpu_floor_mhz: u32,
    cpu_max_w: f64,
    flags: Vec<StatusFlag>,
    calib: Option<Progress>,
    calib_outcome: Option<Outcome>,
    t_star_c: Option<f64>,
    ec_ma_c: Option<f64>,
    ec_argmax: Option<String>,
    duty_cmd: Option<u8>,
    snapped_rpm: f64,
    strategy: Option<String>,
    tstar_state: Option<TStarState>,
    cpu: Option<Report>,
    gpu: Option<Report>,
    telemetry_flags: Vec<String>,
}

// Doubles.

/// What a command of the CPU's tool answers.
#[derive(Clone, Copy, Debug)]
enum Output {
    Code(i32),
    /// A table of the limits: sustained, burst and average, W.
    Info(f64, f64, f64),
}

fn output_with_code(code: i32) -> Output {
    Output::Code(code)
}

fn ryzenadj_info_table(slow_w: f64, fast_w: f64, stapm_w: f64) -> Output {
    Output::Info(slow_w, fast_w, stapm_w)
}

/// A clock that a blocking actuator moves on, and its attempts.
#[derive(Clone)]
struct ClockedWriteFailure {
    now: Rc<Cell<f64>>,
    attempts: Rc<Cell<usize>>,
}

impl ClockedWriteFailure {
    fn new() -> ClockedWriteFailure {
        ClockedWriteFailure {
            now: Rc::new(Cell::new(0.0)),
            attempts: Rc::new(Cell::new(0)),
        }
    }

    fn fail(&self) {
        self.now.set(self.now.get() + 3.0);
        self.attempts.set(self.attempts.get() + 1);
    }
}

/// Runs commands; answers from a queue, else as a healthy machine would.
struct FakeRunner {
    calls: RefCell<Vec<(String, Vec<String>)>>,
    queue: RefCell<VecDeque<Output>>,
    limits: Cell<(f64, f64, f64)>,
    blocked: Option<ClockedWriteFailure>,
}

impl FakeRunner {
    fn new() -> FakeRunner {
        FakeRunner {
            calls: RefCell::new(Vec::new()),
            queue: RefCell::new(VecDeque::new()),
            limits: Cell::new((54.0, 53.0, 54.0)),
            blocked: None,
        }
    }

    fn push_result(&self, output: Output) {
        self.queue.borrow_mut().push_back(output);
    }

    fn calls(&self) -> Vec<(String, Vec<String>)> {
        self.calls.borrow().clone()
    }

    fn run(&self, program: &str, args: Vec<String>) -> Option<Output> {
        self.calls.borrow_mut().push((program.to_string(), args));
        self.queue.borrow_mut().pop_front()
    }

    fn write(&self, mw: u32, fast_mw: u32) -> bool {
        let args = vec![
            format!("--stapm-limit={mw}"),
            format!("--slow-limit={mw}"),
            format!("--fast-limit={fast_mw}"),
        ];
        let answer = self.run("ryzenadj", args);
        if let Some(blocked) = &self.blocked {
            blocked.fail();
            return false;
        }
        if let Some(Output::Code(code)) = answer {
            if code != 0 {
                return false;
            }
        }
        let w = f64::from(mw) / 1000.0;
        self.limits.set((w, f64::from(fast_mw) / 1000.0, w));
        true
    }

    /// The sustained limit.
    fn info(&self) -> Option<f64> {
        match self.run("ryzenadj", vec!["--info".to_string()]) {
            Some(Output::Code(code)) if code != 0 => None,
            Some(Output::Info(slow, _, _)) => Some(slow),
            _ => Some(self.limits.get().0),
        }
    }
}

#[derive(Clone, Copy, Debug, PartialEq)]
enum GpuCall {
    Lock(u32),
    Release,
}

struct FakeGpu {
    calls: Rc<RefCell<Vec<GpuCall>>>,
    resumed: Rc<Cell<usize>>,
    failures: Rc<Cell<usize>>,
    raised: Option<Rc<Cell<bool>>>,
    blocked: Option<ClockedWriteFailure>,
}

impl FakeGpu {
    fn new() -> FakeGpu {
        FakeGpu {
            calls: Rc::new(RefCell::new(Vec::new())),
            resumed: Rc::new(Cell::new(0)),
            failures: Rc::new(Cell::new(0)),
            raised: None,
            blocked: None,
        }
    }

    fn set(&self, mhz: u32) -> LockReply {
        if let Some(blocked) = &self.blocked {
            blocked.fail();
            return LockReply::Failed;
        }
        if let Some(flag) = &self.raised {
            flag.set(true);
        }
        if self.failures.get() > 0 {
            self.failures.set(self.failures.get() - 1);
            return LockReply::Failed;
        }
        self.calls.borrow_mut().push(GpuCall::Lock(mhz));
        LockReply::Locked(Some(mhz))
    }
}

/// 91: a GPU this hot counts as overheating, °C.
const GPU_TRIP_C: f64 = 91.0;

struct Watchdog {
    hot: u32,
    lost: u32,
    tripped: bool,
}

impl Watchdog {
    fn observe(&mut self, s: &Sample) -> Option<Trip> {
        if self.tripped {
            return None;
        }
        let hot = (s.cpu_temp_valid && s.cpu_temp_c >= 95.0)
            || (s.gpu_temp_valid && s.gpu_temp_c >= GPU_TRIP_C);
        self.hot = if hot { self.hot + 1 } else { 0 };
        self.lost = if s.cpu_temp_valid { 0 } else { self.lost + 1 };
        if self.hot >= 3 {
            self.tripped = true;
            Some(Trip::Thermal)
        } else if self.lost >= 10 {
            self.tripped = true;
            Some(Trip::SensorLost)
        } else {
            None
        }
    }

    fn rearm(&mut self) {
        self.hot = 0;
        self.lost = 0;
        self.tripped = false;
    }

    fn quiet(&self) -> bool {
        self.hot == 0 && self.lost == 0
    }
}

/// Averages the readings as the fan daemon does.
#[derive(Clone, Debug)]
struct Replica {
    interval: u32,
    ma: Option<f64>,
    cpu: Option<f64>,
    gpu: Option<f64>,
    scored: u32,
    mismatches: u32,
    matches: u32,
    ec_mismatch: bool,
}

fn averaged(average: Option<f64>, reading: Option<f64>, interval: u32) -> Option<f64> {
    match (average, reading) {
        (Some(a), Some(x)) => Some(a + (x - a) / f64::from(interval)),
        (None, Some(x)) => Some(x),
        (_, None) => None,
    }
}

impl Replica {
    fn new(interval: u32) -> Replica {
        Replica {
            interval,
            ma: None,
            cpu: None,
            gpu: None,
            scored: 0,
            mismatches: 0,
            matches: 0,
            ec_mismatch: false,
        }
    }

    fn reset(&mut self, seed: ReplicaSeed) {
        self.ma = seed.ma_c.map(f);
        self.cpu = seed.cpu_group_c.map(f);
        self.gpu = seed.gpu_group_c.map(f);
    }

    fn tick(&mut self, s: &Sample) {
        let Some(ec) = &s.ec else {
            return;
        };
        self.ma = averaged(self.ma, ec.raw_max_c(), self.interval);
        self.cpu = averaged(self.cpu, ec.group_c(EcGroup::Cpu), self.interval);
        self.gpu = averaged(self.gpu, ec.group_c(EcGroup::Gpu), self.interval);
    }

    fn score(&mut self, s: &Sample, observation: ReconciliationObservation) -> ScoreReply {
        if let ReconciliationObservation::Scored {
            max_matches,
            ma_matches,
            ..
        } = observation
        {
            self.scored += 1;
            if max_matches {
                self.mismatches = 0;
                self.matches += 1;
                if self.ec_mismatch && self.matches >= 3 {
                    self.ec_mismatch = false;
                    self.ma = s.fanctrl.as_ref().map(|view| view.ma_temperature);
                    self.cpu = s.ec.as_ref().and_then(|ec| ec.group_c(EcGroup::Cpu));
                    self.gpu = s.ec.as_ref().and_then(|ec| ec.group_c(EcGroup::Gpu));
                }
            } else {
                self.matches = 0;
                self.mismatches += 1;
                if self.mismatches >= 3 {
                    self.ec_mismatch = true;
                }
            }
            let _ = ma_matches;
        }
        ScoreReply {
            trusted: self.scored > 0 && self.mismatches == 0 && !self.ec_mismatch,
            ec_mismatch: self.ec_mismatch,
            cpu_group_c: self.cpu.map(n),
            gpu_group_c: self.gpu.map(n),
            ma_c: self.ma.map(n),
        }
    }
}

/// Which duty gives which fan speed.
#[derive(Clone, Debug, PartialEq)]
struct DutyRpmTable {
    rpm: Vec<f64>,
}

impl Default for DutyRpmTable {
    fn default() -> DutyRpmTable {
        DutyRpmTable {
            rpm: (0..=100).map(|duty| 3030.0 + (f64::from(duty) - 36.0) * 300.0).collect(),
        }
    }
}

impl DutyRpmTable {
    fn rpm_for_duty(&self, duty: u8) -> f64 {
        self.rpm[usize::from(duty)]
    }

    fn duty_for_rpm(&self, rpm: f64) -> u8 {
        let mut best = 0_u8;
        for duty in 0..=100_u8 {
            if (self.rpm_for_duty(duty) - rpm).abs() < (self.rpm_for_duty(best) - rpm).abs() {
                best = duty;
            }
        }
        best
    }

    fn refine(&mut self, duty: u8, rpm: f64) {
        let old = self.rpm_for_duty(duty);
        self.rpm[usize::from(duty)] = 0.8 * old + 0.2 * rpm;
    }
}

fn is_curve(points: &[(f64, u8)]) -> bool {
    !points.is_empty() && points.windows(2).all(|w| w[0].1 <= w[1].1)
}

/// The lowest temperature at which a curve commands a duty.
fn temperature_at(points: &[(f64, u8)], duty: u8) -> f64 {
    let wanted = f64::from(duty);
    for w in points.windows(2) {
        let (low, high) = (f64::from(w[0].1), f64::from(w[1].1));
        if low < high && low <= wanted && wanted <= high {
            return w[0].0 + (w[1].0 - w[0].0) * (wanted - low) / (high - low);
        }
    }
    points[0].0
}

/// Where the target comes from: held as it began, and the curve's once the
/// curve can be trusted for long enough.
struct Source {
    t_star: Option<f64>,
    state: TStarState,
    trusted: u32,
}

impl Source {
    fn ask(&mut self, req: &SourceRequest, s: &Sample, duty: u8) -> SourceReply {
        let before = self.t_star;
        let was_curve = self.state == TStarState::Curve;
        let view = s.fanctrl.as_ref().filter(|view| is_curve(&view.curve));
        if req.fan_rpm.is_none() {
            self.state = TStarState::Released;
            self.t_star = None;
            self.trusted = 0;
        } else {
            if req.begins || self.t_star.is_none() {
                let groups = [req.cpu_group_c, req.gpu_group_c];
                self.t_star = groups.iter().flatten().map(|c| f(*c)).reduce(f64::max);
            }
            self.state = TStarState::Held;
            if req.fresh_view && req.replica_reconciled && view.is_some() {
                self.trusted += 1;
            } else {
                self.trusted = 0;
            }
            if let Some(view) = view {
                if self.trusted >= 15 {
                    self.state = TStarState::Curve;
                    self.t_star = Some(temperature_at(&view.curve, duty));
                }
            }
        }
        let moved = match (before, self.t_star) {
            (Some(a), Some(b)) => b - a,
            _ => 0.0,
        };
        SourceReply {
            state: self.state,
            t_star: self.t_star.map(n),
            thermal_mode: ThermalMode::Regulate,
            delta_tstar: n(moved),
            resync: false,
            restore_thermal: was_curve && self.state == TStarState::Curve && moved > 0.0,
            flags: Vec::new(),
            records: false,
        }
    }
}

/// Holds the GPU's clock against the commands before the observation.
#[derive(Clone, Copy)]
struct GpuVerifier {
    over: u32,
}

impl GpuVerifier {
    fn verify_paired(
        &mut self,
        util_pct: f64,
        mhz: f64,
        t: f64,
        commands: &VecDeque<GpuCommandEvidence>,
    ) -> WriteVerdict {
        let command = commands.iter().rev().find(|c| f(c.completed_at) < t);
        let Some(command) = command else {
            return WriteVerdict::Unverifiable;
        };
        if util_pct < 50.0 {
            return WriteVerdict::Unverifiable;
        }
        let commanded = f64::from(command.mhz);
        if mhz <= commanded + 15.0 {
            self.over = 0;
            return WriteVerdict::Verified(n(commanded));
        }
        self.over += 1;
        if self.over < 3 {
            WriteVerdict::Unverifiable
        } else {
            WriteVerdict::Mismatch {
                field: "sm_clock",
                commanded: n(commanded),
                read: n(mhz),
            }
        }
    }
}

#[derive(Clone, Debug, Default)]
struct PersistedState {
    calibrated_at: Option<String>,
    cpu_gains: Vec<(String, Gains)>,
    gpu_gains: Vec<(String, Gains)>,
}

fn table_of(entries: &[(String, Gains)]) -> Table<Gains> {
    let mut table = Table::new();
    for (key, gains) in entries {
        table.insert(key.clone(), *gains);
    }
    table
}

#[derive(Clone, Debug)]
enum RunnerEffect {
    SetCpuMaxWatts(f64),
    SetGpuMaxClock(u32),
    StartBurner,
    StopBurner,
    FittedDevice { device: Device, gains: Gains },
    Noted(String),
    SaveState(PersistedState),
    Finished,
}

/// Waits for the machine to settle at a pair of caps, and gives up in time.
struct Calibration {
    pair: Option<(f64, u32)>,
    began: Option<f64>,
    strategy: Option<String>,
}

/// How long the machine may take to settle, s.
const SETTLE_CAP_S: f64 = 600.0;

impl Calibration {
    fn restore(&self) -> Vec<RunnerEffect> {
        match self.pair {
            Some((w, mhz)) => vec![
                RunnerEffect::SetCpuMaxWatts(w),
                RunnerEffect::SetGpuMaxClock(mhz),
            ],
            None => Vec::new(),
        }
    }

    fn give_up(&self, reason: &str) -> Vec<RunnerEffect> {
        let mut effects = self.restore();
        effects.push(RunnerEffect::StopBurner);
        effects.push(RunnerEffect::Noted(reason.to_string()));
        effects
    }

    fn skip(&self, reason: &str) -> Vec<RunnerEffect> {
        let mut effects = self.give_up(reason);
        effects.push(RunnerEffect::SaveState(PersistedState {
            calibrated_at: Some("1700000000".to_string()),
            ..PersistedState::default()
        }));
        effects.push(RunnerEffect::Finished);
        effects
    }

    fn on_sample(&mut self, s: &Sample, pair: (f64, u32)) -> Vec<RunnerEffect> {
        let strategy = s.fanctrl.as_ref().map(|view| view.strategy.clone());
        let Some(began) = self.began else {
            self.began = Some(s.t_mono);
            self.pair = Some(pair);
            self.strategy = strategy;
            return vec![
                RunnerEffect::StartBurner,
                RunnerEffect::SetCpuMaxWatts(pair.0),
                RunnerEffect::SetGpuMaxClock(pair.1),
            ];
        };
        if self.strategy.is_some() && strategy != self.strategy {
            return self.skip("the strategy changed");
        }
        if s.t_mono - began >= SETTLE_CAP_S {
            return self.skip("the machine did not settle");
        }
        Vec::new()
    }
}

fn settling() -> Option<CalibProgress> {
    Some(CalibProgress {
        phase: "settle".to_string(),
        total: 3,
        detail: String::new(),
    })
}

/// A controller with its doubles.
struct Ctl<'a> {
    c: machine::Controller,
    config: Config,
    runner: &'a FakeRunner,
    gpu: Option<FakeGpu>,
    profile: &'static str,
    smu_unloaded: bool,
    watchdog: Watchdog,
    replica: Replica,
    calib_replica: Replica,
    source: Source,
    verifier: GpuVerifier,
    calib_verifier: GpuVerifier,
    duty_rpm_table: DutyRpmTable,
    calibration: Option<Calibration>,
    burner: Option<()>,
    shutdown: Option<Rc<Cell<bool>>>,
    clock: Box<dyn Fn() -> f64>,
    saved_config: Option<Config>,
    saves: usize,
    save_fails: bool,
}

impl<'a> Ctl<'a> {
    fn new(runner: &'a FakeRunner, cpu: bool, gpu: Option<FakeGpu>, config: Config) -> Ctl<'a> {
        let config = config.sanitized();
        let store = machine::Store {
            cpu_gains: Table::new(),
            gpu_gains: Table::new(),
            warm: Table::new(),
            calibrated_at: None,
        };
        let rig = Rig {
            cpu,
            gpu: gpu.is_some(),
        };
        Ctl {
            c: machine::Controller::new(config.bits(), rig, store),
            config,
            runner,
            gpu,
            profile: "balanced\n",
            smu_unloaded: true,
            watchdog: Watchdog {
                hot: 0,
                lost: 0,
                tripped: false,
            },
            replica: Replica::new(60),
            calib_replica: Replica::new(60),
            source: Source {
                t_star: None,
                state: TStarState::Held,
                trusted: 0,
            },
            verifier: GpuVerifier { over: 0 },
            calib_verifier: GpuVerifier { over: 0 },
            duty_rpm_table: DutyRpmTable::default(),
            calibration: None,
            burner: None,
            shutdown: None,
            clock: Box::new(|| 0.0),
            saved_config: None,
            saves: 0,
            save_fails: false,
        }
    }

    fn set_shutdown_flag(&mut self, flag: Rc<Cell<bool>>) {
        self.shutdown = Some(flag);
    }

    fn fenced(&self) -> bool {
        self.shutdown.as_ref().is_some_and(|flag| flag.get())
    }

    /// When something that began with a sample is done.
    fn done(&self, s: &Sample) -> Num {
        n(s.t_mono + s.acquired_at.map_or(0.0, |acquired| (self.clock)() - acquired))
    }

    fn status(&self) -> Status {
        let st = self.c.status();
        Status {
            mode: st.mode,
            cpu_limit_w: st.cpu_limit_w.map(f),
            gpu_max_mhz: st.gpu_max_mhz,
            fan_target_rpm: f(st.fan_target_rpm),
            cpu_floor_w: f(st.cpu_floor_w),
            gpu_floor_mhz: st.gpu_floor_mhz,
            cpu_max_w: f(st.cpu_max_w),
            flags: st.flags.clone(),
            calib: st.calib.as_ref().map(|p| Progress {
                phase: p.phase.clone(),
                total: p.total,
            }),
            calib_outcome: st.calib_outcome.as_ref().map(|o| Outcome {
                retained_cpu: o.retained_cpu,
                retained_gpu: o.retained_gpu,
                changes: o.changes.iter().map(|c| (c.device, c.before, c.after)).collect(),
                notes: o.notes.clone(),
                errors: o.errors.clone(),
                applied: o.applied,
                saved: o.saved,
            }),
            t_star_c: st.t_star_c.map(f),
            ec_ma_c: st.ec_ma_c.map(f),
            ec_argmax: st.ec_argmax.clone(),
            duty_cmd: st.duty_cmd,
            snapped_rpm: f(st.snapped_rpm),
            strategy: st.strategy.clone(),
            tstar_state: st.tstar_state,
            cpu: st.cpu.as_ref().map(plain_report),
            gpu: st.gpu.as_ref().map(plain_report),
            telemetry_flags: st.telemetry_flags.iter().map(|flag| format!("{flag:?}")).collect(),
        }
    }

    /// Writes a sustained limit and reads it back.
    fn write_cpu(&self, mw: u32) -> WriteVerdict {
        let (fast_mw, max_mw) = self.config.bits().cpu_limits_mw();
        let mw = mw.clamp(10_000, max_mw.min(54_000));
        if !self.runner.write(mw, fast_mw) {
            return WriteVerdict::Unreadable;
        }
        self.read_cpu(mw)
    }

    fn read_cpu(&self, mw: u32) -> WriteVerdict {
        let commanded = f64::from(mw) / 1000.0;
        match self.runner.info() {
            None => WriteVerdict::Unreadable,
            Some(slow) if (slow - commanded).abs() <= 0.05 => WriteVerdict::Verified(n(commanded)),
            Some(slow) => WriteVerdict::Mismatch {
                field: "slow",
                commanded: n(commanded),
                read: n(slow),
            },
        }
    }

    /// Reads a sustained limit, and writes it again if it is another.
    fn maintain_cpu(&self, mw: u32, may_repair: bool) -> CapCheck {
        let observed = self.read_cpu(mw);
        let repair = match observed {
            WriteVerdict::Mismatch { .. } if may_repair => Some(self.write_cpu(mw)),
            _ => None,
        };
        CapCheck { observed, repair }
    }

    fn lock_gpu(&self, mhz: u32) -> LockReply {
        match &self.gpu {
            Some(gpu) => gpu.set(mhz),
            None => LockReply::Failed,
        }
    }

    fn perform_orders(&mut self) {
        for order in self.c.take_orders() {
            match order {
                Order::RearmWatchdog => self.watchdog.rearm(),
                Order::PokeGpu => {
                    if let Some(gpu) = &self.gpu {
                        gpu.resumed.set(gpu.resumed.get() + 1);
                    }
                }
                Order::ReleaseGpu => {
                    if let Some(gpu) = &self.gpu {
                        gpu.calls.borrow_mut().push(GpuCall::Release);
                    }
                }
                Order::RestoreCpu => self.restore_cpu(),
                Order::SaveState => self.saves += 1,
                Order::SaveConfig => self.saved_config = Some(Config::of(&self.c.config)),
                Order::RestoreAll => self.restore_hardware(),
                Order::StopBurner => self.burner = None,
                Order::DropVerifier => self.verifier = GpuVerifier { over: 0 },
                Order::DropCalibVerifier => self.calib_verifier = GpuVerifier { over: 0 },
                Order::ResetReplica(seed) => self.replica.reset(seed),
                Order::SetReplicaInterval(interval) => self.replica.interval = interval,
                Order::NewCalibReplica(interval) => self.calib_replica = Replica::new(interval),
                Order::ResetCalibReplica(seed) => self.calib_replica.reset(seed),
                Order::SetCalibReplicaInterval(interval) => self.calib_replica.interval = interval,
                Order::RefineDuty { duty, rpm } => self.duty_rpm_table.refine(duty, f(rpm)),
            }
        }
    }

    fn restore_cpu(&mut self) {
        self.profile = "balanced";
        let _ = self.runner.info();
    }

    fn restore_hardware(&mut self) {
        if let Some(gpu) = &self.gpu {
            gpu.calls.borrow_mut().push(GpuCall::Release);
        }
        if self.c.rig.cpu {
            self.restore_cpu();
        }
        if self.smu_unloaded {
            self.smu_unloaded = false;
            let _ = self.runner.run("modprobe", vec!["ryzen_smu".to_string()]);
        }
    }

    fn restore_all(&mut self) {
        self.c.restore_all();
        self.perform_orders();
    }

    /// Does what a calibration's runner wants.
    fn steps(&mut self, effects: Vec<RunnerEffect>, s: Option<&Sample>) -> Vec<CalibStep> {
        let mut steps = Vec::new();
        for effect in effects {
            let step = match effect {
                RunnerEffect::SetCpuMaxWatts(w) => {
                    CalibStep::Cpu(match self.c.cap_for_runner(n(w), self.fenced()) {
                        Ok(mw) => CpuReply::Written {
                            verdict: self.write_cpu(mw),
                            done: s.map(|s| self.done(s)),
                        },
                        Err(reply) => reply,
                    })
                }
                RunnerEffect::SetGpuMaxClock(mhz) => {
                    CalibStep::Gpu(match self.c.clock_for_runner(mhz, self.fenced()) {
                        Ok(mhz) => match self.lock_gpu(mhz) {
                            LockReply::Failed => GpuReply::Failed,
                            LockReply::Locked(applied) => GpuReply::Locked {
                                applied,
                                done: s.map(|s| self.done(s)),
                            },
                        },
                        Err(reply) => reply,
                    })
                }
                RunnerEffect::StartBurner => {
                    self.burner = Some(());
                    CalibStep::Burner
                }
                RunnerEffect::StopBurner => {
                    self.burner = None;
                    CalibStep::Burner
                }
                RunnerEffect::FittedDevice { device, gains } => CalibStep::Fitted { device, gains },
                RunnerEffect::Noted(reason) => CalibStep::Noted(reason),
                RunnerEffect::SaveState(state) => {
                    self.saves += 1;
                    CalibStep::Saved {
                        save: CalibSave {
                            calibrated_at: state.calibrated_at.clone(),
                            cpu_gains: table_of(&state.cpu_gains),
                            gpu_gains: table_of(&state.gpu_gains),
                        },
                        error: if self.save_fails {
                            Some("is a directory".to_string())
                        } else {
                            None
                        },
                    }
                }
                RunnerEffect::Finished => {
                    self.calibration = None;
                    CalibStep::Finished
                }
            };
            steps.push(step);
        }
        steps
    }

    fn apply_calib_effects(&mut self, effects: Vec<RunnerEffect>, s: Option<&Sample>) {
        let steps = self.steps(effects, s);
        let view = s.and_then(|s| s.fanctrl.as_ref()).map(FanctrlView::bits);
        let _ = self.c.apply_calib_effects(&steps, &view);
        self.perform_orders();
    }

    fn on_command(&mut self, command: Command) -> Vec<Effect> {
        let c = command.bits();
        let tripped = self.watchdog.tripped;
        let answer = match self.c.request(c, tripped, self.fenced()) {
            Request::Nothing => Answer::Nothing,
            Request::WriteCpu { mw } => Answer::CpuWritten(self.write_cpu(mw)),
            Request::LockGpu { mhz } => Answer::GpuLocked(self.lock_gpu(mhz)),
            Request::Sanitize { cpu_w, gpu_mhz } => {
                let wanted = Config {
                    cpu_floor_w: f(cpu_w),
                    gpu_floor_mhz: gpu_mhz,
                    ..self.config
                };
                Answer::Sanitized(wanted.sanitized().bits())
            }
            Request::StartRunner => {
                self.calibration = Some(Calibration {
                    pair: None,
                    began: None,
                    strategy: None,
                });
                Answer::Runner {
                    steps: Vec::new(),
                    shown: settling(),
                }
            }
            Request::AbortRunner => {
                let effects = match self.calibration.take() {
                    Some(calibration) => calibration.give_up("calibration aborted"),
                    None => Vec::new(),
                };
                Answer::Runner {
                    steps: self.steps(effects, None),
                    shown: None,
                }
            }
        };
        self.c.on_command(c, answer, tripped);
        self.perform_orders();
        self.config = Config::of(&self.c.config);
        self.take_effects()
    }

    fn take_effects(&mut self) -> Vec<Effect> {
        self.c.take_effects().iter().map(plain_effect).collect()
    }

    fn tread(&self, s: &Sample, duty: u8) -> TreadReply {
        match &s.fanctrl {
            None => TreadReply {
                invalid: false,
                tread: None,
                rpm: n(0.0),
            },
            Some(view) if !is_curve(&view.curve) => TreadReply {
                invalid: true,
                tread: None,
                rpm: n(0.0),
            },
            Some(view) => {
                let top = view.curve[view.curve.len() - 1].1;
                let tread = duty.clamp(view.curve[0].1, top);
                TreadReply {
                    invalid: false,
                    tread: Some(tread),
                    rpm: n(self.duty_rpm_table.rpm_for_duty(tread)),
                }
            }
        }
    }

    /// Looks after the limits that are asked for.
    fn reassert(&mut self, cpu_mw: Option<u32>, gpu_mhz: Option<u32>, s: &Sample) -> ReassertReply {
        ReassertReply {
            cpu: cpu_mw.map(|mw| (self.maintain_cpu(mw, true), self.done(s))),
            gpu: gpu_mhz.map(|mhz| (self.lock_gpu(mhz), self.done(s))),
        }
    }

    fn reassert_actuators(&mut self, s: &Sample) -> Option<bool> {
        let status = self.status();
        let cpu_mw = status.cpu_limit_w.map(|w| (w * 1000.0).round() as u32);
        let reply = self.reassert(cpu_mw, status.gpu_max_mhz, s);
        let held = self.c.reassert_actuators(reply, n(s.t_mono));
        self.perform_orders();
        held
    }

    /// One turn of a sample.
    fn turn(&mut self, s: &Sample, bits: &types::Sample, next: Next) -> Next {
        match next {
            Next::Done => Next::Done,
            Next::ObserveWatchdog => {
                let trip = self.watchdog.observe(s);
                let quiet = self.watchdog.quiet();
                self.c.after_watchdog(bits, trip, quiet, false, self.fenced())
            }
            Next::Reassert {
                why,
                cpu_mw,
                gpu_mhz,
            } => {
                let reply = self.reassert(cpu_mw, gpu_mhz, s);
                self.c.after_reassert(bits, why, reply, self.fenced())
            }
            Next::TickReplica => {
                self.replica.tick(s);
                let ma = self.replica.ma.map(n);
                self.c.after_replica(bits, ma, n(s.gap_s()), self.fenced())
            }
            Next::ScoreView(observation) => {
                let score = self.replica.score(s, observation);
                self.c.after_score(bits, score, self.fenced())
            }
            Next::AskSource(request) => {
                let duty = self.duty_rpm_table.duty_for_rpm(self.status().fan_target_rpm);
                let rpm = n(self.duty_rpm_table.rpm_for_duty(duty));
                let reply = self.source.ask(&request, s, duty);
                let tread = self.tread(s, duty);
                self.c.after_source(bits, &reply, tread, duty, rpm, self.fenced())
            }
            Next::WriteCpu { mw, retry } => {
                let verdict = self.write_cpu(mw);
                let done = self.done(s);
                self.c.after_cpu_write(bits, verdict, done, retry, self.fenced())
            }
            Next::VerifyGpu { .. } => {
                let verdict = match &self.c.auto {
                    Some(auto) => self.verifier.verify_paired(
                        s.gpu_util_pct,
                        s.gpu_sm_mhz,
                        s.t_mono,
                        &auto.gpu_commands,
                    ),
                    None => WriteVerdict::Unverifiable,
                };
                self.c.after_gpu_verdict(bits, verdict, self.fenced())
            }
            Next::LockGpu { mhz } => {
                let reply = self.lock_gpu(mhz);
                let done = self.done(s);
                self.c.after_gpu_lock(bits, reply, done, self.fenced())
            }
            Next::AbortRunner(why) => {
                let effects = match (self.calibration.take(), why.reason()) {
                    (Some(calibration), Some(reason)) => {
                        let mut effects = calibration.give_up(reason);
                        effects.push(RunnerEffect::Finished);
                        effects
                    }
                    (Some(calibration), None) => calibration.give_up("calibration aborted"),
                    (None, _) => Vec::new(),
                };
                let steps = self.steps(effects, Some(s));
                self.c.after_abort(bits, why, &steps, None)
            }
            Next::CheckCap { mw, may_repair } => {
                let check = self.maintain_cpu(mw, may_repair);
                let done = self.done(s);
                self.c.after_cap_check(bits, check, done)
            }
            Next::TickCalibReplica => {
                self.calib_replica.tick(s);
                let ma = self.calib_replica.ma.map(n);
                self.c.after_calib_replica(bits, ma, n(s.gap_s()))
            }
            Next::ScoreCalibView(observation) => {
                let score = self.calib_replica.score(s, observation);
                self.c.after_calib_score(bits, score)
            }
            Next::VerifyCalibGpu => {
                let verdict = self.calib_verifier.verify_paired(
                    s.gpu_util_pct,
                    s.gpu_sm_mhz,
                    s.t_mono,
                    &self.c.bench.gpu_commands,
                );
                self.c.after_calib_gpu(verdict)
            }
            Next::SampleRunner => {
                let context = self.c.calib_context(bits);
                let floors = (self.config.cpu_floor_w, self.config.gpu_floor_mhz);
                let pair = if context.use_current_caps {
                    (
                        context.cpu_cap_w.map_or(floors.0, f),
                        context.gpu_cap_mhz.unwrap_or(floors.1),
                    )
                } else {
                    floors
                };
                let effects = match &mut self.calibration {
                    Some(calibration) => calibration.on_sample(s, pair),
                    None => Vec::new(),
                };
                let steps = self.steps(effects, Some(s));
                let shown = if self.calibration.is_some() {
                    settling()
                } else {
                    None
                };
                self.c.after_runner(bits, &steps, shown, true)
            }
        }
    }

    fn on_sample(&mut self, s: &Sample) -> Vec<Effect> {
        let bits = s.bits();
        let mut next = self.c.on_sample(self.fenced());
        self.perform_orders();
        while !matches!(next, Next::Done) {
            next = self.turn(s, &bits, next);
            self.perform_orders();
        }
        self.take_effects()
    }

    /// Goes as far as a calibration's runner, and tells what it would be
    /// shown.
    fn build_calib_context(&mut self, s: &Sample) -> Context {
        let bits = s.bits();
        let mut next = self.c.after_watchdog(&bits, None, true, false, self.fenced());
        self.perform_orders();
        while !matches!(next, Next::SampleRunner) {
            next = self.turn(s, &bits, next);
            self.perform_orders();
        }
        let c = self.c.calib_context(&bits);
        Context {
            cpu_cap_w: c.cpu_cap_w.map(f),
            cpu_cap_verified: c.cpu_cap_verified,
            cpu_cap_checked_at_s: c.cpu_cap_checked_at_s.map(f),
            cpu_cap_readback: c.cpu_cap_readback.map(read_of),
            cpu_cap_reset: c.cpu_cap_reset.map(|check| read_of(check.observed)),
            cpu_cap_completed_at_s: c.cpu_cap_completed_at_s.map(f),
            gpu_cap_mhz: c.gpu_cap_mhz,
            gpu_cap_verified: c.gpu_cap_verified,
            gpu_cap_completed_at_s: c.gpu_cap_completed_at_s.map(f),
            use_current_caps: c.use_current_caps,
            cpu_floor_w: f(c.cpu_floor_w),
            gpu_floor_mhz: c.gpu_floor_mhz,
            cpu_max_w: f(c.cpu_max_w),
            gpu_max_mhz: c.gpu_max_mhz,
            cpu_group_c: c.cpu_group_c.map(f),
            gpu_group_c: c.gpu_group_c.map(f),
            fanctrl_active: c.fanctrl_active,
            ec_mismatch: c.ec_mismatch,
            argmax_controllable: c.argmax_controllable,
            cpu_hot_c: f(c.cpu_hot_c),
            gpu_hot_c: f(c.gpu_hot_c),
            strategy: c.strategy.clone(),
            ma_interval: c.ma_interval,
        }
    }

    fn insert_warm(&mut self, key: String, cpu_cap_w: f64, gpu_lock_mhz: u32) {
        self.c.store.warm.insert(
            key,
            WarmStartEntry {
                cpu_cap_w: n(cpu_cap_w),
                gpu_lock_mhz,
            },
        );
    }

    fn warm(&self, key: &str) -> Option<(f64, u32)> {
        let entry = self.c.store.warm.get(&key.to_string());
        entry.map(|e| (f(e.cpu_cap_w), e.gpu_lock_mhz))
    }

    fn warm_is_empty(&self) -> bool {
        self.c.store.warm.entries.is_empty()
    }

    fn cpu_thermal(&self) -> f64 {
        f(self.c.auto.as_ref().expect("Auto state").cpu.device.thermal())
    }

    fn gpu_thermal(&self) -> f64 {
        f(self.c.auto.as_ref().expect("Auto state").gpu.device.thermal())
    }

    fn cpu_requested(&self) -> Option<f64> {
        self.c.auto.as_ref().expect("Auto state").cpu.device.requested().map(f)
    }

    fn gpu_requested(&self) -> Option<f64> {
        self.c.auto.as_ref().expect("Auto state").gpu.device.requested().map(f)
    }

    fn last_cpu_write(&self) -> Option<f64> {
        self.c.auto.as_ref().expect("Auto state").cpu.facts.last_write.map(f)
    }

    fn last_gpu_write(&self) -> Option<f64> {
        self.c.auto.as_ref().expect("Auto state").gpu.facts.last_write.map(f)
    }

    fn observe_steady(&mut self, s: &Sample, cpu: DeviceDecision, gpu: DeviceDecision, duty: u8) {
        let facts = SteadyFacts {
            decisions: Decisions {
                cpu,
                gpu,
                guard: GuardState {
                    gpu_hot: false,
                    nvme_hot: false,
                },
            },
            t_star: self.c.status().t_star_c,
            target_duty: duty,
            target_rpm: n(self.duty_rpm_table.rpm_for_duty(duty)),
            cpu_limit_w: self.c.status().cpu_limit_w,
            gpu_max_mhz: self.c.status().gpu_max_mhz,
        };
        let lesson = match &mut self.c.auto {
            Some(auto) => auto.observe_steady(&s.bits(), &facts),
            None => return,
        };
        if let Some(rpm) = lesson.refine {
            self.duty_rpm_table.refine(duty, f(rpm));
        }
        if let (Some(pair), Some(view)) = (lesson.warm, &s.fanctrl) {
            let key = warm_start_key(&view.strategy, duty, s.on_ac);
            self.c.store.warm.insert(key, pair);
        }
    }
}

#[derive(Clone, Debug, PartialEq)]
struct Context {
    cpu_cap_w: Option<f64>,
    cpu_cap_verified: bool,
    cpu_cap_checked_at_s: Option<f64>,
    /// What was read, if it was not what was commanded.
    cpu_cap_readback: Option<Option<f64>>,
    cpu_cap_reset: Option<Option<f64>>,
    cpu_cap_completed_at_s: Option<f64>,
    gpu_cap_mhz: Option<u32>,
    gpu_cap_verified: bool,
    gpu_cap_completed_at_s: Option<f64>,
    use_current_caps: bool,
    cpu_floor_w: f64,
    gpu_floor_mhz: u32,
    cpu_max_w: f64,
    gpu_max_mhz: u32,
    cpu_group_c: Option<f64>,
    gpu_group_c: Option<f64>,
    fanctrl_active: bool,
    ec_mismatch: bool,
    argmax_controllable: bool,
    cpu_hot_c: f64,
    gpu_hot_c: f64,
    strategy: Option<String>,
    ma_interval: Option<u32>,
}

fn read_of(verdict: WriteVerdict) -> Option<f64> {
    match verdict {
        WriteVerdict::Mismatch { read, .. } => Some(f(read)),
        _ => None,
    }
}

fn warm_start_key(strategy: &str, duty: u8, on_ac: bool) -> String {
    WarmStart::key(strategy, duty, on_ac)
}

fn default_status() -> Status {
    let runner = FakeRunner::new();
    let ctl = Ctl::new(&runner, false, None, Config::default());
    ctl.status()
}

fn controller(runner: &FakeRunner) -> Ctl<'_> {
    Ctl::new(runner, true, None, Config::default())
}

fn unequipped(runner: &FakeRunner, config: Config) -> Ctl<'_> {
    Ctl::new(runner, false, None, config)
}

type GpuCalls = Rc<RefCell<Vec<GpuCall>>>;

fn auto_controller(runner: &FakeRunner, config: Config) -> (Ctl<'_>, GpuCalls) {
    let gpu = FakeGpu::new();
    let calls = Rc::clone(&gpu.calls);
    let mut ctl = Ctl::new(runner, true, Some(gpu), config);
    ctl.smu_unloaded = false;
    (ctl, calls)
}

fn auto_controller_default(runner: &FakeRunner) -> (Ctl<'_>, GpuCalls) {
    auto_controller(runner, Config::default())
}

/// The same, with the count of the GPU's resume hook.
fn auto_controller_with_resume_counter(runner: &FakeRunner) -> (Ctl<'_>, GpuCalls, Rc<Cell<usize>>) {
    let (ctl, calls) = auto_controller_default(runner);
    let resumed = match &ctl.gpu {
        Some(gpu) => Rc::clone(&gpu.resumed),
        None => Rc::new(Cell::new(0)),
    };
    (ctl, calls, resumed)
}

fn gpu_sets(calls: &GpuCalls) -> Vec<u32> {
    calls
        .borrow()
        .iter()
        .filter_map(|c| match c {
            GpuCall::Lock(mhz) => Some(*mhz),
            GpuCall::Release => None,
        })
        .collect()
}

/// The writes of the CPU's tool, without its readings.
fn ryzenadj_calls(runner: &FakeRunner) -> Vec<Vec<String>> {
    runner
        .calls()
        .into_iter()
        .filter(|(prog, args)| prog == "ryzenadj" && !(args.len() == 1 && args[0] == "--info"))
        .map(|(_, args)| args)
        .collect()
}

fn modprobe_reload_calls(runner: &FakeRunner) -> usize {
    runner
        .calls()
        .iter()
        .filter(|(prog, args)| prog == "modprobe" && args == &vec!["ryzen_smu".to_string()])
        .count()
}

fn queue_cpu_reset(runner: &FakeRunner, slow_w: f64) {
    runner.push_result(ryzenadj_info_table(slow_w, 53.0, slow_w));
}

/// A write whose read-back disagrees, twice.
fn queue_confirmed_cpu_mismatch(runner: &FakeRunner) {
    for _ in 0..2 {
        runner.push_result(output_with_code(0));
        runner.push_result(ryzenadj_info_table(0.1, 53.0, 0.0));
    }
}

fn expected_args(mw: u32) -> Vec<String> {
    vec![
        format!("--stapm-limit={mw}"),
        format!("--slow-limit={mw}"),
        "--fast-limit=53000".to_string(),
    ]
}

fn sample_at(t_mono: f64) -> Sample {
    Sample {
        t_mono,
        ..Sample::default()
    }
}

fn sample_with_power(t_mono: f64, cpu_pkg_w: f64) -> Sample {
    Sample {
        t_mono,
        cpu_pkg_w,
        ..Sample::default()
    }
}

fn status_changes(effects: &[Effect]) -> usize {
    effects.iter().filter(|e| matches!(e, Effect::StatusChanged { .. })).count()
}

fn has_reassert(effects: &[Effect], want_cause: &str) -> bool {
    effects.iter().any(|e| matches!(e, Effect::Reasserted { cause } if *cause == want_cause))
}

fn has_flagged(effects: &[Effect], want_flag: &str, want_active: bool) -> bool {
    effects.iter().any(|e| {
        matches!(e, Effect::Flagged { flag, active }
            if *flag == want_flag && *active == want_active)
    })
}

fn has_status_change_cause(effects: &[Effect], want: &str) -> bool {
    effects.iter().any(|e| matches!(e, Effect::StatusChanged { cause } if *cause == want))
}

/// A curve with duty 31 at 75 °C.
const TEMP_CURVE: &[(f64, u8)] = &[
    (0.0, 15),
    (55.0, 15),
    (65.0, 21),
    (75.0, 31),
    (82.0, 37),
    (88.0, 55),
    (95.0, 100),
];

/// A sample that a curve can regulate on: a fresh, active view, a reading
/// that agrees with it and a valid fan speed.
fn curve_sample(t: f64, temp: f64, ma_temp: f64, curve: &[(f64, u8)]) -> Sample {
    let view = FanctrlView {
        strategy: "quiet16".to_string(),
        active: true,
        speed_pct: 31,
        temperature: temp,
        ma_temperature: ma_temp,
        ma_interval: 60,
        curve: curve.to_vec(),
        age_s: 0.0,
    };
    let ec = ec_reading_c(&[("ambient_f75303@4d", 40.0), ("cpu@4c", temp)]);
    Sample {
        t_mono: t,
        fan_valid: true,
        fan1_rpm: 3000.0,
        fan2_rpm: 2950.0,
        ec: Some(ec),
        ec_valid: true,
        fanctrl: Some(view),
        fanctrl_freshness: Freshness::Fresh,
        fanctrl_view_changed: true,
        // A healthy machine reports a valid, cool CPU.
        cpu_temp_c: 60.0,
        cpu_temp_valid: true,
        ..Sample::default()
    }
}

fn drive_curve(ctl: &mut Ctl<'_>, t0: f64, count: u32) -> Vec<Effect> {
    let mut last = Vec::new();
    for i in 0..count {
        last = ctl.on_sample(&curve_sample(t0 + f64::from(i), 75.0, 74.0, TEMP_CURVE));
    }
    last
}

/// A complete sample of a busy machine: both groups and both draws.
fn busy_at(t: f64) -> Sample {
    let mut sample = curve_sample(t, 75.0, 74.0, TEMP_CURVE);
    sample.cpu_pkg_w = 25.0;
    sample.gpu_w_valid = true;
    sample.gpu_w = 60.0;
    sample.gpu_mhz_valid = true;
    sample.gpu_sm_mhz = 1_800.0;
    sample.gpu_util_pct = 95.0;
    sample.ec = Some(ec_reading_c(&[
        ("ambient_f75303@4d", 40.0),
        ("cpu@4c", 75.0),
        ("gpu_vr_f75303@4d", 74.0),
    ]));
    sample
}

/// A CPU over the watchdog's limit, with everything else in order.
fn overheat_at(t: f64) -> Sample {
    Sample {
        t_mono: t,
        cpu_temp_c: 96.0,
        cpu_temp_valid: true,
        fan_valid: true,
        fan1_rpm: 2500.0,
        fan2_rpm: 2400.0,
        ..busy_at(t)
    }
}

/// A sample with a view of the given strategy, duty and power source.
fn rpm_view_sample(t: f64, fan_rpm: f64, strategy: &str, speed_pct: u8, on_ac: bool) -> Sample {
    let view = FanctrlView {
        strategy: strategy.to_string(),
        active: true,
        speed_pct,
        temperature: 60.0,
        ma_temperature: 60.0,
        ma_interval: 60,
        curve: TEMP_CURVE.to_vec(),
        age_s: 0.0,
    };
    Sample {
        t_mono: t,
        fan_valid: true,
        fan1_rpm: fan_rpm,
        fan2_rpm: fan_rpm,
        on_ac,
        fanctrl: Some(view),
        fanctrl_freshness: Freshness::Fresh,
        cpu_temp_c: 60.0,
        cpu_temp_valid: true,
        ..busy_at(t)
    }
}

fn keyed_auto_sample(t: f64, strategy: &str, duty: u8, on_ac: bool) -> Sample {
    let mut sample = busy_at(t);
    let target_rpm = DutyRpmTable::default().rpm_for_duty(duty);
    sample.fan1_rpm = target_rpm;
    sample.fan2_rpm = target_rpm;
    sample.on_ac = on_ac;
    let view = sample.fanctrl.as_mut().expect("busy sample has fanctrl view");
    view.strategy = strategy.to_string();
    view.speed_pct = duty;
    sample
}

/// A sample of a calibration that never settles: there is no view.
fn settle_sample() -> Sample {
    Sample {
        cpu_pkg_w: 10.0,
        gpu_w: 5.0,
        gpu_w_valid: true,
        gpu_util_pct: 3.0,
        fan1_rpm: 3000.0,
        fan_valid: true,
        cpu_temp_c: 60.0,
        cpu_temp_valid: true,
        ..Sample::default()
    }
}

fn drive_shared_settle_entry(ctl: &mut Ctl<'_>) {
    ctl.on_sample(&settle_sample());
    let calib = ctl.status().calib.expect("calibrating");
    assert_eq!(calib.phase, "settle", "must start with shared settle: {calib:?}");
}

/// Samples until the calibration gives up.
fn drive_calibration_to_skip(ctl: &mut Ctl<'_>) {
    for second in 1..=600 {
        let mut sample = settle_sample();
        sample.t_mono = f64::from(second);
        ctl.on_sample(&sample);
        if ctl.status().calib.is_none() {
            return;
        }
    }
    panic!("calibration never concluded through the controller");
}

fn calibration_reconciliation_sample(t: f64, ec_max_c: f64, socket_max_c: f64, age_s: f64) -> Sample {
    let mut sample = curve_sample(t, socket_max_c, socket_max_c, TEMP_CURVE);
    sample.ec = Some(ec_reading_c(&[
        ("ambient_f75303@4d", 40.0),
        ("cpu@4c", ec_max_c),
    ]));
    sample.fanctrl.as_mut().expect("view").age_s = age_s;
    sample
}

fn settled_decision(group_c: f64, cap: f64) -> DeviceDecision {
    DeviceDecision {
        t_star: n(75.0),
        group_c: Some(n(group_c)),
        err_c: Some(n(75.0 - group_c)),
        thermal: n(cap),
        shadow: n(cap),
        cap: n(cap),
        selected: Selected::Thermal,
        hold: Hold::Free,
        write_allowed: true,
        group_lost: false,
        write_immediately: false,
    }
}


fn assert_rekey_preserves_live_candidates(
    changed_strategy: &str,
    changed_duty: u8,
    changed_on_ac: bool,
) {
    let changed_runner = FakeRunner::new();
    let reference_runner = FakeRunner::new();
    let (mut changed, _changed_gpu) = auto_controller_default(&changed_runner);
    let (mut reference, _reference_gpu) = auto_controller_default(&reference_runner);
    let hostile_key = warm_start_key(changed_strategy, changed_duty, changed_on_ac);
    for ctl in [&mut changed, &mut reference] {
        let (floor_w, floor_mhz) = (ctl.config.cpu_floor_w, ctl.config.gpu_floor_mhz);
        ctl.insert_warm(hostile_key.clone(), floor_w + 1.0, floor_mhz + 1);
        ctl.on_command(Command::SetAuto(true));
        ctl.on_sample(&keyed_auto_sample(0.0, "quiet16", 36, false));
        let auto = ctl.c.auto.as_mut().expect("Auto state");
        auto.steady.key = Some(warm_start_key("quiet16", 36, false));
        auto.steady.window = [n(3_030.0); 12].into();
    }

    if changed_duty != 36 {
        let target = changed.duty_rpm_table.rpm_for_duty(changed_duty);
        changed.on_command(Command::SetFanTarget(target));
        reference.on_command(Command::SetFanTarget(target));
    }
    changed.on_sample(&keyed_auto_sample(1.0, changed_strategy, changed_duty, changed_on_ac));
    reference.on_sample(&keyed_auto_sample(1.0, "quiet16", changed_duty, false));

    assert_eq!(changed.cpu_thermal(), reference.cpu_thermal());
    assert_eq!(changed.gpu_thermal(), reference.gpu_thermal());
    assert_ne!(changed.cpu_thermal(), changed.config.cpu_floor_w + 1.0);
    assert_ne!(changed.gpu_thermal(), f64::from(changed.config.gpu_floor_mhz + 1));
    {
        let auto = changed.c.auto.as_ref().expect("Auto state");
        assert_eq!(auto.steady.key.as_deref(), Some(hostile_key.as_str()));
        assert!(auto.steady.window.is_empty(), "a key change restarts the window");
    }

    let cpu_cap = changed.status().cpu_limit_w.expect("CPU cap");
    let gpu_cap = f64::from(changed.status().gpu_max_mhz.expect("GPU cap"));
    changed.c.readout.gauges.t_star_c = Some(n(75.0));
    {
        let auto = changed.c.auto.as_mut().expect("Auto state");
        auto.cpu.facts.verdict = VerdictState::default();
        auto.gpu.facts.verdict = VerdictState::default();
        auto.session.cpu_hot = false;
        auto.fan.clear();
    }
    for t in 2..42 {
        changed.observe_steady(
            &keyed_auto_sample(f64::from(t), changed_strategy, changed_duty, changed_on_ac),
            settled_decision(75.0, cpu_cap),
            settled_decision(74.0, gpu_cap),
            changed_duty,
        );
    }
    assert_eq!(
        changed.c.auto.as_ref().expect("Auto state").steady.window.len(),
        STEADY_WINDOW_N,
        "qualified samples must fill the re-keyed window",
    );
    let recorded = changed
        .warm(&hostile_key)
        .expect("the settled pair must be recorded under the new key");
    assert_eq!(recorded.0, changed.status().cpu_limit_w.expect("CPU cap"));
    assert_eq!(recorded.1, changed.status().gpu_max_mhz.expect("GPU cap"));
}

#[test]
fn set_cpu_w_clamps_applies_and_updates_status() {
    let runner = FakeRunner::new();
    let mut ctl = controller(&runner);
    let effects = ctl.on_command(Command::SetCpuW(5.0));
    assert_eq!(ryzenadj_calls(&runner), vec![expected_args(10_000)]);
    assert_eq!(ctl.status().mode, Mode::Manual);
    assert_eq!(ctl.status().cpu_limit_w, Some(10.0));
    assert!(effects.contains(&Effect::CpuSet(10.0)), "got {effects:?}");
    assert_eq!(status_changes(&effects), 1);
    let effects = ctl.on_command(Command::SetCpuW(5.0));
    assert_eq!(ryzenadj_calls(&runner).len(), 2);
    assert_eq!(status_changes(&effects), 0, "got {effects:?}");
}

#[test]
fn set_cpu_w_failure_leaves_status_unchanged() {
    let runner = FakeRunner::new();
    runner.push_result(output_with_code(1));
    let mut ctl = controller(&runner);

    let effects = ctl.on_command(Command::SetCpuW(20.0));
    assert!(effects.is_empty(), "got {effects:?}");
    assert_eq!(ctl.status(), default_status());
}

#[test]
fn set_cpu_w_without_actuator_is_a_warned_noop() {
    let runner = FakeRunner::new();
    let mut ctl = unequipped(&runner, Config::default());

    let effects = ctl.on_command(Command::SetCpuW(20.0));
    assert!(effects.is_empty(), "got {effects:?}");
    assert!(runner.calls().is_empty());
    assert_eq!(ctl.status(), default_status());
}

#[test]
fn set_gpu_without_actuator_is_a_warned_noop() {
    let runner = FakeRunner::new();
    let mut ctl = controller(&runner);

    let effects = ctl.on_command(Command::SetGpuMaxClock(1500));
    assert!(effects.is_empty(), "got {effects:?}");
    assert_eq!(ctl.status().gpu_max_mhz, None);
    assert_eq!(ctl.status().mode, Mode::Monitor);
}

#[test]
fn release_all_restores_stock_and_resets_status() {
    let runner = FakeRunner::new();
    let mut ctl = controller(&runner);
    ctl.on_command(Command::SetCpuW(20.0));

    let effects = ctl.on_command(Command::ReleaseAll);
    assert_eq!(ctl.profile, "balanced");
    assert_eq!(modprobe_reload_calls(&runner), 0);
    assert_eq!(ctl.status().mode, Mode::Monitor);
    assert_eq!(ctl.status().cpu_limit_w, None);
    assert_eq!(ctl.status().gpu_max_mhz, None);
    assert!(effects.contains(&Effect::Released), "got {effects:?}");
    assert_eq!(status_changes(&effects), 1);
    let effects = ctl.on_command(Command::SetCpuW(20.0));
    assert_eq!(ctl.status().cpu_limit_w, Some(20.0));
    assert_eq!(status_changes(&effects), 1);
}

#[test]
fn fan_target_is_clamped_and_stored() {
    let runner = FakeRunner::new();
    let mut ctl = controller(&runner);

    let effects = ctl.on_command(Command::SetFanTarget(100.0));
    assert_eq!(ctl.status().fan_target_rpm, 1000.0);
    assert_eq!(status_changes(&effects), 1);

    ctl.on_command(Command::SetFanTarget(9999.0));
    assert_eq!(ctl.status().fan_target_rpm, 7000.0);

    ctl.on_command(Command::SetFanTarget(3000.0));
    assert_eq!(ctl.status().fan_target_rpm, 3000.0);
    assert_eq!(ctl.status().mode, Mode::Monitor);
    assert!(ryzenadj_calls(&runner).is_empty());
}

#[test]
fn checks_cpu_limit_every_10s_without_rewriting_a_match() {
    let runner = FakeRunner::new();
    let mut ctl = controller(&runner);
    ctl.on_command(Command::SetCpuW(20.0));
    let baseline = runner.calls().len();
    for t in [0.0, 5.0, 9.9] { assert!(ctl.on_sample(&sample_at(t)).is_empty()); }
    assert_eq!(runner.calls().len(), baseline);
    assert!(ctl.on_sample(&sample_at(10.1)).is_empty());
    assert_eq!(runner.calls().len(), baseline + 1);
    assert_eq!(ryzenadj_calls(&runner), vec![expected_args(20_000)]);
    assert!(ctl.on_sample(&sample_at(11.0)).is_empty());
    assert_eq!(runner.calls().len(), baseline + 1, "successful read advances cadence");
    queue_cpu_reset(&runner, 40.0);
    let effects = ctl.on_sample(&sample_at(20.2));
    assert!(has_reassert(&effects, "reassert"));
    assert_eq!(ryzenadj_calls(&runner), vec![expected_args(20_000), expected_args(20_000)]);
}

#[test]
fn a_sample_after_shutdown_began_issues_no_actuator_write() {
    let runner = FakeRunner::new();
    let mut ctl = controller(&runner);
    let shutdown = Rc::new(Cell::new(false));
    ctl.set_shutdown_flag(Rc::clone(&shutdown));

    ctl.on_command(Command::SetCpuW(20.0));
    assert_eq!(ryzenadj_calls(&runner).len(), 1);
    ctl.on_sample(&sample_at(0.0)); // reassert baseline
    shutdown.set(true);
    let effects = ctl.on_sample(&sample_at(10.1));

    assert!(
        effects.is_empty(),
        "sample was serviced anyway: {effects:?}"
    );
    assert_eq!(
        ryzenadj_calls(&runner).len(),
        1,
        "an actuator write landed after shutdown began: {:?}",
        ryzenadj_calls(&runner)
    );
}

#[test]
fn a_shutdown_raised_mid_sample_fences_the_auto_cpu_write() {
    let runner = FakeRunner::new();
    let shutdown = Rc::new(Cell::new(false));
    let mut gpu = FakeGpu::new();
    gpu.raised = Some(Rc::clone(&shutdown));
    let gpu_calls = Rc::clone(&gpu.calls);
    let mut ctl = Ctl::new(&runner, true, Some(gpu), Config::default());
    ctl.set_shutdown_flag(Rc::clone(&shutdown));

    // Caps by hand, then the schedule's first sample.
    ctl.on_command(Command::SetCpuW(20.0));
    ctl.on_command(Command::SetGpuMaxClock(2000));
    shutdown.set(false); // the manual set raised it
    ctl.on_sample(&sample_at(0.0));
    assert_eq!(ctl.status().cpu_limit_w, Some(20.0), "premise: manual cap in force");
    let gpu_sets_before = gpu_calls.borrow().len();

    // A resume looks after the limits first, and the GPU's lock raises the
    // flag before the loop would write its own CPU cap.
    ctl.on_command(Command::SetAuto(true));
    shutdown.set(false);
    ctl.on_sample(&Sample {
        resumed: true,
        ..busy_at(f(Num(REASSERT_PERIOD_S)))
    });

    assert!(
        gpu_calls.borrow().len() > gpu_sets_before,
        "premise: the reassert re-set the GPU on this sample"
    );
    assert!(shutdown.get(), "premise: that GPU set raised the flag mid-sample");
    assert_eq!(
        ctl.status().cpu_limit_w,
        Some(20.0),
        "the controller wrote a new CPU cap after shutdown was raised mid-sample"
    );
}

#[test]
fn a_manual_command_after_shutdown_began_issues_no_actuator_write() {
    let runner = FakeRunner::new();
    let mut ctl = controller(&runner);
    let shutdown = Rc::new(Cell::new(true));
    ctl.set_shutdown_flag(shutdown);

    ctl.on_command(Command::SetCpuW(20.0));

    assert!(ryzenadj_calls(&runner).is_empty());
    assert_eq!(ctl.status().cpu_limit_w, None);
}

#[test]
fn restore_all_still_runs_with_the_shutdown_fence_raised() {
    let runner = FakeRunner::new();
    let mut ctl = controller(&runner);
    ctl.on_command(Command::SetCpuW(20.0));
    ctl.set_shutdown_flag(Rc::new(Cell::new(true)));

    ctl.restore_all();

    assert_eq!(modprobe_reload_calls(&runner), 1, "stock was not restored");
}

#[test]
fn default_status_starts_at_the_real_fan_target() {
    assert_eq!(default_status().fan_target_rpm, 3000.0);
    assert_eq!(default_status().fan_target_rpm, f(Num(DEFAULT_FAN_TARGET_RPM)));
}

#[test]
fn failed_reassert_reports_reassert_failed() {
    let runner = FakeRunner::new();
    let mut ctl = controller(&runner);
    ctl.on_command(Command::SetCpuW(20.0));
    assert!(ctl.on_sample(&sample_at(0.0)).is_empty()); // baseline
    runner.push_result(output_with_code(1));
    let effects = ctl.on_sample(&sample_at(10.1));
    assert!(
        has_reassert(&effects, "reassert_failed"),
        "a failed attempt must not count as a phantom reassert, got {effects:?}"
    );
    assert_eq!(status_changes(&effects), 0, "status is unchanged");
    assert_eq!(ryzenadj_calls(&runner).len(), 1, "failed read must not cause a blind write");
    assert!(ctl.on_sample(&sample_at(10.2)).is_empty());
    let effects = ctl.on_sample(&sample_at(20.2));
    assert!(effects.is_empty(), "matching read needs no rewrite: {effects:?}");
    assert_eq!(ryzenadj_calls(&runner).len(), 1);
}

#[test]
fn no_reassert_without_active_limits() {
    let runner = FakeRunner::new();
    let mut ctl = controller(&runner);
    assert!(ctl.on_sample(&sample_at(0.0)).is_empty());
    assert!(ctl.on_sample(&sample_at(20.0)).is_empty());
    assert!(runner.calls().is_empty());
}

#[test]
fn stickiness_flags_after_three_consecutive_violations() {
    let runner = FakeRunner::new();
    let mut ctl = controller(&runner);
    ctl.on_command(Command::SetCpuW(20.0));
    assert!(ctl.on_sample(&sample_with_power(1.0, 26.0)).is_empty());
    assert!(ctl.on_sample(&sample_with_power(2.0, 26.0)).is_empty());
    assert!(!ctl.status().flags.contains(&StatusFlag::LimitNotSticking));
    queue_cpu_reset(&runner, 40.0);
    let effects = ctl.on_sample(&sample_with_power(3.0, 26.0));
    assert!(has_reassert(&effects, "stickiness"), "got {effects:?}");
    assert!(ctl.status().flags.contains(&StatusFlag::LimitNotSticking));
    assert!(has_flagged(&effects, "limit_not_sticking", true));
    assert_eq!(status_changes(&effects), 1);
    assert_eq!(ryzenadj_calls(&runner).len(), 2, "initial set + reassert");
    queue_cpu_reset(&runner, 40.0);
    let effects = ctl.on_sample(&sample_with_power(4.0, 19.0));
    assert!(!ctl.status().flags.contains(&StatusFlag::LimitNotSticking));
    assert!(has_flagged(&effects, "limit_not_sticking", false));
    assert_eq!(status_changes(&effects), 1);
    queue_cpu_reset(&runner, 40.0);
    let effects = ctl.on_sample(&sample_with_power(5.0, 19.0));
    assert!(
        !effects.iter().any(|e| matches!(e, Effect::Flagged { .. })),
        "got {effects:?}"
    );
}

#[test]
fn stickiness_ignores_invalid_zero_power() {
    let runner = FakeRunner::new();
    let mut ctl = controller(&runner);
    ctl.on_command(Command::SetCpuW(20.0));
    assert!(ctl.on_sample(&sample_with_power(1.0, 26.0)).is_empty());
    assert!(ctl.on_sample(&sample_with_power(2.0, 26.0)).is_empty());
    assert!(ctl.on_sample(&sample_with_power(3.0, 0.0)).is_empty());
    assert!(!ctl.status().flags.contains(&StatusFlag::LimitNotSticking));
    queue_cpu_reset(&runner, 40.0);
    let effects = ctl.on_sample(&sample_with_power(4.0, 26.0));
    assert!(has_reassert(&effects, "stickiness"), "got {effects:?}");
}

#[test]
fn resume_reasserts_and_flags_for_30s() {
    let runner = FakeRunner::new();
    let mut ctl = controller(&runner);
    ctl.on_command(Command::SetCpuW(20.0));
    ctl.on_sample(&sample_at(100.0)); // reassert baseline

    let resumed = Sample {
        t_mono: 200.0,
        resumed: true,
        ..Sample::default()
    };
    queue_cpu_reset(&runner, 40.0);
    let effects = ctl.on_sample(&resumed);
    assert!(has_reassert(&effects, "resume"), "got {effects:?}");
    assert!(ctl.status().flags.contains(&StatusFlag::Resumed));
    assert_eq!(status_changes(&effects), 1);
    assert_eq!(ryzenadj_calls(&runner).len(), 2, "initial set + resume");
    ctl.on_sample(&sample_at(229.0));
    assert!(ctl.status().flags.contains(&StatusFlag::Resumed));
    let effects = ctl.on_sample(&sample_at(231.0));
    assert!(!ctl.status().flags.contains(&StatusFlag::Resumed));
    assert_eq!(status_changes(&effects), 1);
}

#[test]
fn failed_resume_reassert_reports_resume_failed() {
    let runner = FakeRunner::new();
    let mut ctl = controller(&runner);
    ctl.on_command(Command::SetCpuW(20.0));
    runner.push_result(output_with_code(1));
    let resumed = Sample {
        t_mono: 200.0,
        resumed: true,
        ..Sample::default()
    };
    let effects = ctl.on_sample(&resumed);
    assert!(
        has_reassert(&effects, "resume_failed"),
        "a failed attempt must not count as a phantom resume reassert, got {effects:?}"
    );
    assert!(!has_reassert(&effects, "resume"), "got {effects:?}");
    assert!(ctl.status().flags.contains(&StatusFlag::Resumed));
}

#[test]
fn failed_stickiness_reassert_reports_stickiness_failed() {
    let runner = FakeRunner::new();
    let mut ctl = controller(&runner);
    ctl.on_command(Command::SetCpuW(20.0));

    ctl.on_sample(&sample_with_power(1.0, 26.0));
    ctl.on_sample(&sample_with_power(2.0, 26.0));
    runner.push_result(output_with_code(1));
    let effects = ctl.on_sample(&sample_with_power(3.0, 26.0));
    assert!(
        has_reassert(&effects, "stickiness_failed"),
        "a failed attempt must not count as a phantom stickiness reassert, got {effects:?}"
    );
    assert!(ctl.status().flags.contains(&StatusFlag::LimitNotSticking));
}

#[test]
fn resume_without_limits_only_flags() {
    let runner = FakeRunner::new();
    let mut ctl = controller(&runner);

    let resumed = Sample {
        t_mono: 50.0,
        resumed: true,
        ..Sample::default()
    };
    let effects = ctl.on_sample(&resumed);
    assert!(
        !effects
            .iter()
            .any(|e| matches!(e, Effect::Reasserted { .. })),
        "nothing to reassert, got {effects:?}"
    );
    assert!(ctl.status().flags.contains(&StatusFlag::Resumed));
    assert!(runner.calls().is_empty());
}

#[test]
fn quit_restores_all() {
    let runner = FakeRunner::new();
    let mut ctl = controller(&runner);
    ctl.on_command(Command::SetCpuW(20.0));

    let effects = ctl.on_command(Command::Quit);
    assert_eq!(effects, vec![Effect::Quit]);
    assert_eq!(ctl.profile, "balanced");
    assert_eq!(modprobe_reload_calls(&runner), 1);
}

#[test]
fn start_calibration_from_monitor_or_auto_but_not_manual() {
    let runner = FakeRunner::new();
    let mut ctl = controller(&runner);
    ctl.on_command(Command::SetCpuW(20.0));
    let effects = ctl.on_command(Command::StartCalibration);
    assert!(effects.is_empty(), "got {effects:?}");
    assert_eq!(ctl.status().mode, Mode::Manual);
    assert!(ctl.status().calib.is_none());
    assert!(!ctl.c.core.calibrating);
    ctl.on_command(Command::ReleaseAll);
    let effects = ctl.on_command(Command::StartCalibration);
    assert_eq!(status_changes(&effects), 1);
    assert_eq!(ctl.status().mode, Mode::Calibrating);
    let calib = ctl.status().calib.expect("wizard progress set");
    assert_eq!(calib.phase, "settle");
    assert_eq!(calib.total, 3);
    assert_eq!(ctl.status().gpu_max_mhz, None);

    ctl.on_command(Command::AbortCalibration);
    ctl.on_command(Command::SetAuto(true));
    let effects = ctl.on_command(Command::StartCalibration);
    assert_eq!(status_changes(&effects), 1);
    assert_eq!(ctl.status().mode, Mode::Calibrating);
    assert!(ctl.c.auto.is_some(), "Auto loop state is suspended in place");
}

#[test]
fn monitor_calibration_establishes_verified_floors_and_restores_that_pair_on_abort() {
    let runner = FakeRunner::new();
    let config = Config { cpu_floor_w: 8.0, ..Config::default() };
    let (mut ctl, gpu_calls) = auto_controller(&runner, config);
    ctl.on_command(Command::StartCalibration);

    let mut first = busy_at(0.0);
    first.gpu_sm_mhz = 1_000.0;
    ctl.on_sample(&first);
    assert_eq!(
        (ctl.status().cpu_limit_w, ctl.status().gpu_max_mhz),
        (Some(10.0), Some(1_000)),
        "Monitor has no applied pair, so calibration must establish configured floors through normal actuators"
    );

    let mut verified = busy_at(1.0);
    verified.gpu_sm_mhz = 1_000.0;
    ctl.on_sample(&verified);
    let context = ctl.build_calib_context(&verified);
    assert!(context.cpu_cap_verified);
    assert!(context.gpu_cap_verified);
    assert_eq!(context.cpu_cap_w, Some(10.0));
    assert_eq!(context.gpu_cap_mhz, Some(1_000));
    assert!(!context.use_current_caps, "Monitor origin selects configured floors");

    ctl.on_command(Command::AbortCalibration);
    assert_eq!(ctl.status().mode, Mode::Monitor);
    assert_eq!((ctl.status().cpu_limit_w, ctl.status().gpu_max_mhz), (Some(10.0), Some(1_000)));
    assert_eq!(
        gpu_calls.borrow().as_slice(),
        &[GpuCall::Lock(1_000), GpuCall::Lock(1_000)],
        "abort restores the established floor lock and does not release or leave a step active"
    );
    let cpu_writes = ryzenadj_calls(&runner);
    assert_eq!(cpu_writes, vec![expected_args(10_000), expected_args(10_000)]);
}

#[test]
fn calibration_gpu_verification_pairs_observation_with_completed_command() {
    let runner = FakeRunner::new();
    let (mut ctl, _gpu_calls) = auto_controller_default(&runner);
    ctl.clock = Box::new(|| 3.0);
    ctl.on_command(Command::StartCalibration);
    let first = Sample {
        acquired_at: Some(0.0),
        gpu_sm_mhz: 1_000.0,
        ..busy_at(0.0)
    };
    ctl.on_sample(&first);

    let early = Sample {
        acquired_at: Some(1.0),
        gpu_sm_mhz: 1_000.0,
        ..busy_at(1.0)
    };
    let early_context = ctl.build_calib_context(&early);
    assert!(
        !early_context.gpu_cap_verified,
        "a pre-completion observation cannot verify the lock"
    );

    let after = Sample {
        acquired_at: Some(4.0),
        gpu_sm_mhz: 1_000.0,
        ..busy_at(4.0)
    };
    let after_context = ctl.build_calib_context(&after);
    assert!(after_context.gpu_cap_verified);
    assert_eq!(after_context.gpu_cap_completed_at_s, Some(3.0));
    ctl.on_command(Command::AbortCalibration);
}

#[test]
fn calibration_context_exhaustively_uses_live_controller_and_sample_sources() {
    let runner = FakeRunner::new();
    let config = Config {
        cpu_floor_w: 16.0,
        gpu_floor_mhz: 1_100,
        cpu_max_w: 50.0,
        gpu_max_mhz: 2_900,
        cpu_hot_c: 91.0,
        gpu_hot_c: 89.0,
        ..Config::default()
    };
    let (mut ctl, _gpu) = auto_controller(&runner, config);
    ctl.on_command(Command::StartCalibration);
    let mut sample = busy_at(0.0);
    sample.gpu_sm_mhz = 1_100.0;
    let context = ctl.build_calib_context(&sample);
    let expected = Context {
        cpu_cap_w: None,
        cpu_cap_verified: false,
        cpu_cap_checked_at_s: None,
        cpu_cap_readback: None,
        cpu_cap_reset: None,
        cpu_cap_completed_at_s: None,
        gpu_cap_mhz: None,
        gpu_cap_verified: false,
        gpu_cap_completed_at_s: None,
        use_current_caps: false,
        cpu_floor_w: 16.0,
        gpu_floor_mhz: 1_100,
        cpu_max_w: 50.0,
        gpu_max_mhz: 2_900,
        cpu_group_c: Some(75.0),
        gpu_group_c: Some(74.0),
        fanctrl_active: true,
        ec_mismatch: false,
        argmax_controllable: true,
        cpu_hot_c: 91.0,
        gpu_hot_c: 89.0,
        strategy: Some("quiet16".to_string()),
        ma_interval: Some(60),
    };
    assert_eq!(context, expected);
}

#[test]
fn calibration_reconciliation_skips_fast_slopes_and_stale_views() {
    let runner = FakeRunner::new();
    let mut ctl = controller(&runner);
    ctl.on_command(Command::StartCalibration);
    for (t, ec) in [(0.0, 70.0), (1.0, 75.0), (2.0, 80.0)] {
        let sample = calibration_reconciliation_sample(t, ec, 60.0, 0.0);
        let context = ctl.build_calib_context(&sample);
        assert!(!context.ec_mismatch, "fast local slope must skip scoring");
    }
    for t in 3..6 {
        let sample = calibration_reconciliation_sample(f64::from(t), 80.0, 60.0, 3.0);
        let context = ctl.build_calib_context(&sample);
        assert!(!context.ec_mismatch, "stale view must skip scoring");
    }
}

#[test]
fn calibration_reconciliation_latches_after_three_scored_mismatches() {
    let runner = FakeRunner::new();
    let mut ctl = controller(&runner);
    ctl.on_command(Command::StartCalibration);
    for t in 0..3 {
        let sample = calibration_reconciliation_sample(f64::from(t), 80.0, 60.0, 0.0);
        let context = ctl.build_calib_context(&sample);
        assert_eq!(context.ec_mismatch, t == 2);
    }
}

#[test]
fn calibration_reconciliation_three_matches_clear_and_reseed() {
    let runner = FakeRunner::new();
    let mut ctl = controller(&runner);
    ctl.on_command(Command::StartCalibration);
    for t in 0..3 {
        ctl.build_calib_context(&calibration_reconciliation_sample(f64::from(t), 80.0, 60.0, 0.0));
    }
    assert!(ctl.calib_replica.ec_mismatch);
    let mut final_context = None;
    for t in 3..6 {
        let sample = calibration_reconciliation_sample(f64::from(t), 60.0, 60.0, 0.0);
        final_context = Some(ctl.build_calib_context(&sample));
    }
    let final_context = final_context.expect("context");
    assert!(!final_context.ec_mismatch);
    assert_eq!(ctl.calib_replica.ma, Some(60.0));
    assert_eq!(ctl.calib_replica.cpu, Some(60.0));
    assert_eq!(final_context.cpu_group_c, Some(60.0));
}

#[test]
fn failed_calibration_cpu_write_cannot_establish_an_applied_pair() {
    let runner = FakeRunner::new();
    runner.push_result(output_with_code(1));
    let (mut ctl, _gpu_calls) = auto_controller_default(&runner);
    ctl.on_command(Command::StartCalibration);
    let mut sample = busy_at(0.0);
    sample.gpu_sm_mhz = 1_000.0;
    ctl.on_sample(&sample);
    assert_eq!(ctl.status().cpu_limit_w, None);
    assert!(!ctl.c.bench.facts.cpu_verified);
    assert_eq!(ctl.c.bench.facts.cpu_completed_at.map(f), None);
    assert_eq!(ctl.status().gpu_max_mhz, Some(1_000));
    assert_eq!(ctl.status().calib.map(|progress| progress.phase), Some("settle".to_string()));
    ctl.on_command(Command::AbortCalibration);
}

#[test]
fn manual_commands_rejected_while_calibrating() {
    let runner = FakeRunner::new();
    let mut ctl = controller(&runner);
    ctl.on_command(Command::StartCalibration);
    let calls_before = runner.calls().len();

    for cmd in [
        Command::SetCpuW(20.0),
        Command::SetGpuMaxClock(1500),
        Command::ReleaseAll,
        Command::SetAuto(true),
    ] {
        let effects = ctl.on_command(cmd);
        assert!(effects.is_empty(), "{cmd:?} must be rejected: {effects:?}");
    }
    assert_eq!(runner.calls().len(), calls_before, "no actuation happened");
    assert_eq!(ctl.status().mode, Mode::Calibrating);
    ctl.on_command(Command::SetFanTarget(2500.0));
    assert_eq!(ctl.status().fan_target_rpm, 2500.0);
}

#[test]
fn calibration_starts_the_burner_on_entry_and_stops_it_on_skip() {
    let runner = FakeRunner::new();
    let mut ctl = controller(&runner);
    ctl.on_command(Command::StartCalibration);
    drive_shared_settle_entry(&mut ctl);
    assert!(
        ctl.burner.is_some(),
        "burner must start as soon as calibration begins"
    );
    assert!(
        !ryzenadj_calls(&runner).is_empty(),
        "calibration entry must land the held CPU command"
    );
    assert_eq!(
        ctl.status().cpu_limit_w,
        Some(15.0),
        "held at the CPU floor"
    );

    drive_calibration_to_skip(&mut ctl);
    assert!(ctl.burner.is_none(), "burner must stop once the step skips");
    assert_eq!(ctl.status().mode, Mode::Monitor);
    assert_eq!(ctl.status().cpu_limit_w, Some(15.0));
}

#[test]
fn shared_settle_does_not_emit_obsolete_lut_load_nags() {
    let runner = FakeRunner::new();
    let mut ctl = controller(&runner);
    ctl.on_command(Command::StartCalibration);
    let idle = Sample {
        gpu_util_pct: 5.0,
        gpu_sm_mhz: 300.0,
        gpu_w: 15.0,
        gpu_w_valid: true,
        gpu_mhz_valid: true,
        fan1_rpm: 1500.0,
        fan_valid: true,
        cpu_temp_c: 60.0,
        cpu_temp_valid: true,
        ..Sample::default()
    };
    for _ in 0..20 {
        let effects = ctl.on_sample(&idle);
        assert!(!effects.iter().any(|effect| matches!(effect,
            Effect::Noted { cause: "calib:needs_load" }
            | Effect::StatusChanged { cause: "calib:needs_load" })));
    }
}

#[test]
fn auto_maintenance_releases_after_repeated_failed_repairs_and_stops_owning_cap() {
    let runner = FakeRunner::new();
    let mut ctl = controller(&runner);
    ctl.on_command(Command::SetCpuW(15.0));
    ctl.on_command(Command::SetAuto(true));
    for attempt in 1..=3 {
        queue_cpu_reset(&runner, 40.0); // read before repair
        runner.push_result(output_with_code(0)); // repair write
        queue_cpu_reset(&runner, 40.0); // repair did not stick
        if attempt == 3 {
            runner.push_result(ryzenadj_info_table(54.0, 53.0, 54.0));
        }
        assert_eq!(ctl.reassert_actuators(&sample_at(f64::from(attempt * 10))), Some(false));
        assert!(ctl.status().flags.contains(&StatusFlag::LimitNotSticking));
    }
    assert!(ctl.status().cpu_limit_w.is_none());
    assert!(ctl.c.auto.as_ref().unwrap().cpu.facts.verdict.released);
    let calls = runner.calls().len();
    assert_eq!(ctl.reassert_actuators(&sample_at(40.0)), None);
    assert_eq!(runner.calls().len(), calls, "maintenance must not reacquire a released cap");
}

#[test]
fn calibration_refreshes_cpu_readback_and_preserves_a_reset_after_repair() {
    let runner = FakeRunner::new();
    let mut ctl = controller(&runner);
    ctl.on_command(Command::StartCalibration);
    ctl.apply_calib_effects(vec![RunnerEffect::SetCpuMaxWatts(15.0)], Some(&sample_at(0.0)));
    let before = runner.calls().len();
    ctl.build_calib_context(&sample_at(9.0));
    assert_eq!(runner.calls().len(), before);
    runner.push_result(ryzenadj_info_table(40.0, 53.0, 40.0));
    let ctx = ctl.build_calib_context(&sample_at(10.0));
    assert_eq!(ctx.cpu_cap_reset, Some(Some(40.0)), "{ctx:?}");
    assert!(ctx.cpu_cap_verified, "repair verified");
    assert_eq!(ctx.cpu_cap_readback, Some(Some(40.0)));
    assert_eq!(ctx.cpu_cap_checked_at_s, Some(10.0));
    let next = ctl.build_calib_context(&sample_at(11.0));
    assert!(next.cpu_cap_reset.is_none(), "disturbance is a one-tick event");
    ctl.on_command(Command::AbortCalibration);
}

#[test]
fn cap_maintenance_reads_before_writing_and_skips_a_matching_cpu_cap() {
    let runner = FakeRunner::new();
    let mut ctl = controller(&runner);
    ctl.on_command(Command::SetCpuW(15.0));
    let before = runner.calls().len();
    ctl.reassert_actuators(&sample_at(10.0));
    assert_eq!(&runner.calls()[before..], &[("ryzenadj".into(), vec!["--info".into()])]);
    runner.push_result(ryzenadj_info_table(40.0, 53.0, 40.0));
    let before = runner.calls().len();
    assert_eq!(ctl.reassert_actuators(&sample_at(20.0)), Some(true));
    let calls = runner.calls();
    assert_eq!(calls[before].1, vec!["--info"]);
    assert!(calls[before + 1].1.contains(&"--slow-limit=15000".into()));
    assert_eq!(calls[before + 2].1, vec!["--info"]);
}

#[test]
fn calibration_outcome_reports_saved_partial_success_and_save_errors() {
    for (both, fail_save) in [(false, false), (true, false), (true, true)] {
        let runner = FakeRunner::new();
        let mut ctl = controller(&runner);
        ctl.save_fails = fail_save;
        ctl.on_command(Command::StartCalibration);
        let sample = curve_sample(60.0, 60.0, 60.0, &[(40.0, 20), (80.0, 40)]);
        let key = "quiet16:60".to_string();
        let old = gains(0.3, 40.0);
        ctl.c.store.cpu_gains.insert(key.clone(), old);
        let cpu = gains(0.4, 35.0);
        let gpu = gains(24.0, 35.0);
        let mut state = PersistedState::default();
        state.cpu_gains.push((key.clone(), cpu));
        let mut effects = vec![RunnerEffect::FittedDevice {
            device: Device::Cpu,
            gains: cpu,
        }];
        if both {
            state.gpu_gains.push((key.clone(), gpu));
            effects.push(RunnerEffect::FittedDevice {
                device: Device::Gpu,
                gains: gpu,
            });
        } else {
            effects.push(RunnerEffect::Noted(
                "GPU fit rejected: fitted response 2.00C is below 3C".to_string(),
            ));
        }
        effects.push(RunnerEffect::SaveState(state));
        effects.push(RunnerEffect::Finished);
        ctl.apply_calib_effects(effects, Some(&sample));
        let outcome = ctl.status().calib_outcome.expect("outcome");
        assert_eq!(outcome.changes[0], (Device::Cpu, old, cpu));
        assert!(outcome.applied);
        assert_eq!(outcome.saved, !fail_save);
        assert_eq!(ctl.c.store.cpu_gains.get(&key), Some(cpu));
        if both {
            assert_eq!(outcome.changes.len(), 2);
        } else {
            assert_eq!(outcome.changes.len(), 1);
            let kept = outcome.retained_gpu.expect("gains in force");
            assert_eq!(format!("{:.4}", f(kept.kc)), "22.2218");
            assert_eq!(
                outcome.errors,
                vec!["GPU fit rejected: fitted response 2.00C is below 3C".to_string()]
            );
        }
        if fail_save {
            assert!(outcome
                .errors
                .iter()
                .any(|error| error.contains("Could not save calibration")));
        }
        let calls = runner.calls().len();
        ctl.on_command(Command::DismissCalibrationOutcome);
        assert!(ctl.status().calib_outcome.is_none());
        assert_eq!(runner.calls().len(), calls);
    }
}

#[test]
fn calibration_outcome_remains_visible_after_completion_and_abort() {
    let runner = FakeRunner::new();
    let mut ctl = controller(&runner);
    ctl.on_command(Command::StartCalibration);
    ctl.on_command(Command::AbortCalibration);
    assert!(format!("{:?}", ctl.status()).contains("calibration aborted"));
    ctl.on_sample(&Sample::default());
    assert!(format!("{:?}", ctl.status()).contains("calibration aborted"));
    ctl.on_command(Command::StartCalibration);
    assert!(!format!("{:?}", ctl.status()).contains("calibration aborted"));
    ctl.apply_calib_effects(
        vec![
            RunnerEffect::Noted("CPU fit rejected: fitted response 2.00C is below 3C".to_string()),
            RunnerEffect::Noted("GPU fit rejected: gain exceeds 4x default".to_string()),
            RunnerEffect::Finished,
        ],
        None,
    );
    let status = format!("{:?}", ctl.status());
    assert!(status.contains("fitted response 2.00C"), "{status}");
    assert!(status.contains("gain exceeds 4x default"), "{status}");
}

#[test]
fn abort_calibration_releases_and_returns_to_monitor() {
    let runner = FakeRunner::new();
    let mut ctl = controller(&runner);
    ctl.on_command(Command::StartCalibration);
    drive_shared_settle_entry(&mut ctl);
    assert!(ctl.burner.is_some(), "burner running during the step test");
    for _ in 0..10 {
        ctl.on_sample(&settle_sample());
    }

    let effects = ctl.on_command(Command::AbortCalibration);
    assert_eq!(status_changes(&effects), 1);
    assert_eq!(ctl.status().mode, Mode::Monitor);
    assert!(ctl.status().calib.is_none());
    assert_eq!(ctl.status().cpu_limit_w, Some(Config::default().cpu_floor_w));
    assert!(!ctl.c.core.calibrating);
    assert!(ctl.burner.is_none(), "abort must stop the burner");
    assert_eq!(ctl.profile.trim(), "balanced");
    assert_eq!(modprobe_reload_calls(&runner), 0);
    ctl.on_command(Command::SetCpuW(20.0));
    assert_eq!(ctl.status().mode, Mode::Manual);
}

#[test]
fn quit_during_calibration_aborts_then_restores() {
    let runner = FakeRunner::new();
    let mut ctl = controller(&runner);
    ctl.on_command(Command::StartCalibration);
    drive_shared_settle_entry(&mut ctl);
    for _ in 0..10 {
        ctl.on_sample(&settle_sample()); // burner active mid-settle
    }

    let effects = ctl.on_command(Command::Quit);
    assert_eq!(effects, vec![Effect::Quit]);
    assert!(ctl.burner.is_none(), "quit must stop the burner");
    assert!(!ctl.c.core.calibrating);
    assert_eq!(ctl.profile, "balanced");
    assert_eq!(modprobe_reload_calls(&runner), 1);
    let calls = runner.calls();
    assert_eq!(
        calls.last().map(|(prog, _)| prog.as_str()),
        Some("modprobe"),
        "smu reload must come last: {calls:?}"
    );
}

#[test]
fn calibration_skip_stamps_state_without_retired_fields() {
    let runner = FakeRunner::new();
    let mut ctl = controller(&runner);

    ctl.on_command(Command::StartCalibration);
    drive_shared_settle_entry(&mut ctl);
    drive_calibration_to_skip(&mut ctl);

    // The pair is restored rather than released to stock.
    assert_eq!(ctl.status().mode, Mode::Monitor);
    assert!(ctl.status().calib.is_none());
    assert!(ctl.burner.is_none());
    assert_eq!(ctl.status().cpu_limit_w, Some(Config::default().cpu_floor_w));
    ctl.c
        .store
        .calibrated_at
        .as_ref()
        .expect("calibrated_at set")
        .parse::<u64>()
        .expect("unix seconds");
}

#[test]
fn calibration_save_preserves_the_duty_rpm_table_and_warm_start_it_does_not_own() {
    let runner = FakeRunner::new();
    let mut ctl = controller(&runner);
    ctl.duty_rpm_table.refine(30, 2600.0);
    let table = ctl.duty_rpm_table.clone();
    ctl.insert_warm("quiet16:36:batt".to_string(), 77.0, 1800);

    ctl.on_command(Command::StartCalibration);
    drive_shared_settle_entry(&mut ctl);
    drive_calibration_to_skip(&mut ctl);
    assert_eq!(ctl.status().mode, Mode::Monitor, "calibration finished");

    assert_eq!(ctl.duty_rpm_table, table);
    assert_eq!(ctl.warm("quiet16:36:batt"), Some((77.0, 1800)));
}

#[test]
fn uncalibrated_auto_entry_uses_direct_per_device_loops() {
    let runner = FakeRunner::new();
    let mut ctl = controller(&runner); // uncalibrated

    let effects = ctl.on_command(Command::SetAuto(true));
    assert_eq!(
        ctl.status().mode,
        Mode::Auto,
        "direct watt/MHz loops need no calibration gate"
    );
    assert!(ctl.status().flags.contains(&StatusFlag::NotCalibrated));
    assert_eq!(status_changes(&effects), 1);
}

#[test]
fn auto_entry_publishes_safe_device_floors() {
    let runner = FakeRunner::new();
    let (mut ctl, _gpu_calls) = auto_controller_default(&runner);
    ctl.on_command(Command::SetAuto(true));
    assert_eq!(ctl.status().mode, Mode::Auto);

    let _ = ctl.on_sample(&busy_at(0.0));
    assert_eq!(ctl.status().tstar_state, Some(TStarState::Held));
    assert!(
        ctl.status()
            .cpu
            .is_some_and(|cpu| cpu.cap >= ctl.status().cpu_floor_w)
    );
    assert!(
        ctl.status()
            .gpu
            .is_some_and(|gpu| gpu.cap >= f64::from(ctl.status().gpu_floor_mhz))
    );
}

#[test]
fn auto_sample_publishes_independent_device_decisions() {
    let runner = FakeRunner::new();
    let (mut ctl, _gpu_calls) = auto_controller_default(&runner);
    ctl.on_command(Command::SetAuto(true));
    let effects = ctl.on_sample(&busy_at(0.0));
    assert!(
        effects
            .iter()
            .any(|effect| matches!(effect, Effect::CpuSet(_)))
    );
    assert!(
        effects
            .iter()
            .any(|effect| matches!(effect, Effect::GpuSet(_)))
    );
    let status = ctl.status();
    assert!(status.cpu.is_some() && status.gpu.is_some());
    assert_eq!(
        status.tstar_state,
        Some(TStarState::Held)
    );
}

#[test]
fn missing_active_keyed_gains_use_defaults() {
    let runner = FakeRunner::new();
    let config = Config {
        cpu_gains: Some(gains(0.22, 35.0)),
        gpu_gains: Some(gains(2.1, 35.0)),
        ..Config::default()
    };
    let (mut ctl, _gpu) = auto_controller(&runner, config);
    ctl.on_command(Command::SetAuto(true));
    ctl.on_sample(&busy_at(0.0));
    assert_eq!(
        ctl.status().cpu.expect("CPU").gains_source,
        GainsSource::Config
    );
    assert_eq!(
        ctl.status().gpu.expect("GPU").gains_source,
        GainsSource::Config
    );
}

#[test]
fn live_floor_change_bounds_the_next_device_decision() {
    let runner = FakeRunner::new();
    let (mut ctl, _gpu) = auto_controller_default(&runner);
    ctl.on_command(Command::SetAuto(true));
    ctl.on_sample(&busy_at(0.0));
    ctl.on_sample(&busy_at(1.0));
    let gpu_floor_mhz = ctl.status().gpu_floor_mhz;
    ctl.on_command(Command::SetFloors {
        cpu_w: 40.0,
        gpu_mhz: gpu_floor_mhz,
    });
    ctl.on_sample(&busy_at(5.0));
    let cpu = ctl.status().cpu.expect("CPU decision");
    assert!(
        cpu.cap >= 40.0,
        "CPU cap must respect the raised independent floor: {cpu:?}"
    );
}

#[test]
fn set_auto_false_releases_to_stock_and_resets_loop_state() {
    let runner = FakeRunner::new();
    let (mut ctl, _gpu_calls) = auto_controller_default(&runner);
    ctl.on_command(Command::SetAuto(true));
    ctl.on_sample(&busy_at(0.0));
    assert_eq!(ctl.status().mode, Mode::Auto);

    let effects = ctl.on_command(Command::SetAuto(false));
    assert_eq!(ctl.status().mode, Mode::Monitor);
    assert_eq!(ctl.status().cpu_limit_w, None);
    assert_eq!(ctl.status().gpu_max_mhz, None);
    assert!(ctl.c.auto.is_none());
    assert!(effects.contains(&Effect::Released));
}

#[test]
fn thermal_emergency_in_auto_releases_everything_and_stays_released() {
    let runner = FakeRunner::new();
    let (mut ctl, gpu_calls) = auto_controller_default(&runner);
    ctl.on_command(Command::SetAuto(true));
    ctl.on_sample(&busy_at(0.0));
    assert_eq!(ryzenadj_calls(&runner).len(), 1, "premise");
    assert_eq!(gpu_sets(&gpu_calls).len(), 1, "premise");
    let first = ctl.on_sample(&overheat_at(1.0));
    let second = ctl.on_sample(&overheat_at(2.0));
    assert!(!first.contains(&Effect::Released) && !second.contains(&Effect::Released));
    assert_eq!(ctl.status().mode, Mode::Auto);
    let effects = ctl.on_sample(&overheat_at(3.0));
    assert!(effects.contains(&Effect::Released), "got {effects:?}");
    assert!(has_flagged(&effects, "thermal_emergency", true));
    assert!(has_status_change_cause(
        &effects,
        "watchdog:thermal_emergency"
    ));
    assert_eq!(ctl.status().mode, Mode::Monitor);
    assert_eq!(ctl.status().cpu_limit_w, None);
    assert_eq!(ctl.status().gpu_max_mhz, None);
    assert!(ctl.status().flags.contains(&StatusFlag::ThermalEmergency));
    assert!(ctl.c.auto.is_none(), "AutoState must drop whole");
    assert!(
        gpu_calls
            .borrow()
            .iter()
            .any(|c| matches!(c, GpuCall::Release)),
        "GPU release missing: {:?}",
        gpu_calls.borrow()
    );
    assert_eq!(ctl.profile, "balanced");
    let (cpu_calls, gpu_cmds) = (ryzenadj_calls(&runner).len(), gpu_sets(&gpu_calls).len());
    for t in 4..24 {
        let s = if t % 2 == 0 {
            overheat_at(f64::from(t))
        } else {
            busy_at(f64::from(t))
        };
        assert!(ctl.on_sample(&s).is_empty(), "released state must hold");
    }
    assert_eq!(
        ryzenadj_calls(&runner).len(),
        cpu_calls,
        "zero new ryzenadj"
    );
    assert_eq!(gpu_sets(&gpu_calls).len(), gpu_cmds, "zero new GPU locks");
    assert_eq!(ctl.status().mode, Mode::Monitor);
    assert!(ctl.status().flags.contains(&StatusFlag::ThermalEmergency));
}

#[test]
fn emergency_acknowledge_first_press_rearms_second_acts() {
    let runner = FakeRunner::new();
    let (mut ctl, _gpu_calls) = auto_controller_default(&runner);
    ctl.on_command(Command::SetAuto(true));
    ctl.on_sample(&busy_at(0.0));
    for t in 1..=3 {
        ctl.on_sample(&overheat_at(f64::from(t)));
    }
    assert!(ctl.status().flags.contains(&StatusFlag::ThermalEmergency));
    let calls_before = runner.calls().len();
    let effects = ctl.on_command(Command::SetAuto(true));
    assert!(has_flagged(&effects, "thermal_emergency", false));
    assert!(has_status_change_cause(&effects, "watchdog:rearmed"));
    assert!(!ctl.status().flags.contains(&StatusFlag::ThermalEmergency));
    assert_eq!(ctl.status().mode, Mode::Monitor, "ack must not enter Auto");
    assert!(ctl.c.auto.is_none());
    assert_eq!(runner.calls().len(), calls_before, "ack must not actuate");
    ctl.on_command(Command::SetAuto(true));
    assert_eq!(ctl.status().mode, Mode::Auto);
    ctl.on_sample(&busy_at(10.0));
    ctl.on_sample(&overheat_at(11.0));
    ctl.on_sample(&overheat_at(12.0));
    let effects = ctl.on_sample(&overheat_at(13.0));
    assert!(has_flagged(&effects, "thermal_emergency", true));
    assert_eq!(ctl.status().mode, Mode::Monitor);
}

#[test]
fn emergency_in_manual_releases_and_manual_ack_swallows_first_command() {
    let runner = FakeRunner::new();
    let mut ctl = controller(&runner);
    ctl.on_command(Command::SetCpuW(20.0));

    ctl.on_sample(&overheat_at(1.0));
    ctl.on_sample(&overheat_at(2.0));
    let effects = ctl.on_sample(&overheat_at(3.0));
    assert!(effects.contains(&Effect::Released), "got {effects:?}");
    assert!(has_status_change_cause(
        &effects,
        "watchdog:thermal_emergency"
    ));
    assert_eq!(ctl.status().mode, Mode::Monitor);
    assert_eq!(ctl.status().cpu_limit_w, None);
    assert_eq!(ctl.profile, "balanced");
    let cpu_calls = ryzenadj_calls(&runner).len();
    let effects = ctl.on_command(Command::SetCpuW(20.0));
    assert!(has_status_change_cause(&effects, "watchdog:rearmed"));
    assert_eq!(ryzenadj_calls(&runner).len(), cpu_calls);
    assert_eq!(ctl.status().mode, Mode::Monitor);
    assert_eq!(ctl.status().cpu_limit_w, None);
    ctl.on_command(Command::SetCpuW(20.0));
    assert_eq!(ctl.status().mode, Mode::Manual);
    assert_eq!(ctl.status().cpu_limit_w, Some(20.0));
    assert_eq!(ryzenadj_calls(&runner).len(), cpu_calls + 1);
}

#[test]
fn non_actuating_commands_pass_through_without_acknowledging() {
    let runner = FakeRunner::new();
    let mut ctl = controller(&runner);
    ctl.on_command(Command::SetCpuW(20.0));
    for t in 1..=3 {
        ctl.on_sample(&overheat_at(f64::from(t)));
    }
    assert!(ctl.status().flags.contains(&StatusFlag::ThermalEmergency));
    ctl.on_command(Command::SetFanTarget(2500.0));
    assert_eq!(ctl.status().fan_target_rpm, 2500.0);
    assert!(ctl.status().flags.contains(&StatusFlag::ThermalEmergency));
    let effects = ctl.on_command(Command::ReleaseAll);
    assert!(effects.contains(&Effect::Released), "got {effects:?}");
    assert!(ctl.status().flags.contains(&StatusFlag::ThermalEmergency));
    let effects = ctl.on_command(Command::Quit);
    assert_eq!(effects, vec![Effect::Quit]);
}

#[test]
fn emergency_during_calibration_aborts_it() {
    let runner = FakeRunner::new();
    let (mut ctl, gpu_calls) = auto_controller_default(&runner);
    ctl.on_command(Command::StartCalibration);
    drive_shared_settle_entry(&mut ctl);
    for _ in 0..10 {
        ctl.on_sample(&settle_sample()); // burner active mid-settle
    }
    assert!(ctl.burner.is_some(), "premise: burner running mid-settle");

    let first = ctl.on_sample(&overheat_at(10.0));
    assert_eq!(ctl.status().mode, Mode::Calibrating, "first hot sample: {first:?}");
    let second = ctl.on_sample(&overheat_at(11.0));
    assert_eq!(ctl.status().mode, Mode::Calibrating, "second hot sample: {second:?}");
    let effects = ctl.on_sample(&overheat_at(12.0));
    let causes: Vec<_> = effects.iter().filter_map(|effect| match effect {
        Effect::StatusChanged { cause } | Effect::Noted { cause } => Some(*cause),
        _ => None,
    }).collect();
    assert_eq!(
        causes.first().copied(),
        Some("calib:skipped"),
        "the runner's restore-pair + Noted terminal outcome must precede watchdog release: {effects:?}"
    );
    assert!(effects.contains(&Effect::Released), "got {effects:?}");
    assert!(has_status_change_cause(
        &effects,
        "watchdog:thermal_emergency"
    ));
    let cpu_writes = ryzenadj_calls(&runner);
    assert!(
        cpu_writes.iter().all(|args| args == &expected_args(15_000)),
        "thermal terminal must only establish/restore the clamped CPU floor, never issue a step: {cpu_writes:?}"
    );
    assert_eq!(
        gpu_calls.borrow().as_slice(),
        &[GpuCall::Lock(1_000), GpuCall::Lock(1_000), GpuCall::Release],
        "held GPU floor restore must precede the watchdog's final stock release"
    );
    assert!(ctl.burner.is_none(), "emergency must stop the burner");
    assert!(!ctl.c.core.calibrating);
    assert!(ctl.status().calib.is_none());
    assert_eq!(ctl.status().mode, Mode::Monitor);
    assert_eq!(ctl.status().cpu_limit_w, None);
    assert!(ctl.status().flags.contains(&StatusFlag::ThermalEmergency));
    assert_eq!(ctl.profile, "balanced");
    assert_eq!(modprobe_reload_calls(&runner), 0);
}

#[test]
fn auto_calibration_freezes_device_loops_and_tstar_then_reenters_without_a_cap_step() {
    let runner = FakeRunner::new();
    let (mut ctl, gpu_calls) = auto_controller_default(&runner);
    ctl.on_command(Command::SetCpuW(40.0));
    ctl.on_command(Command::SetGpuMaxClock(1_800));
    ctl.on_command(Command::SetAuto(true));
    for t in 0..8 {
        ctl.on_sample(&curve_sample(f64::from(t), 75.0, 74.0, TEMP_CURVE));
    }
    let held_pair = (ctl.status().cpu_limit_w, ctl.status().gpu_max_mhz);
    ctl.replica.ma = Some(90.0);
    ctl.replica.cpu = Some(89.0);
    ctl.replica.gpu = Some(88.0);
    {
        let auto = ctl.c.auto.as_mut().expect("Auto state");
        auto.cpu_draw = [n(99.0); 5].into();
        auto.fan = [n(9_999.0); 5].into();
        auto.ec_slope = [n(90.0); 5].into();
        auto.steady.window = [n(9_999.0); 40].into();
        auto.steady.key = Some("stale".to_string());
        auto.refinement.window = [n(9_999.0); 40].into();
        auto.refinement.key = Some("stale".to_string());
    }
    let before = (
        ctl.cpu_thermal(),
        ctl.cpu_requested(),
        ctl.gpu_thermal(),
        ctl.gpu_requested(),
        ctl.source.state,
        ctl.status().t_star_c,
    );

    ctl.on_command(Command::StartCalibration);
    assert_eq!(ctl.status().mode, Mode::Calibrating);
    ctl.on_sample(&curve_sample(8.0, 75.0, 74.0, TEMP_CURVE));
    let during = (
        ctl.cpu_thermal(),
        ctl.cpu_requested(),
        ctl.gpu_thermal(),
        ctl.gpu_requested(),
        ctl.source.state,
        ctl.status().t_star_c,
    );
    assert_eq!(during, before, "calibration must not tick either loop or the target");

    ctl.on_command(Command::AbortCalibration);
    assert_eq!(ctl.status().mode, Mode::Auto);
    assert_eq!((ctl.status().cpu_limit_w, ctl.status().gpu_max_mhz), held_pair);
    let cpu_writes = ryzenadj_calls(&runner).len();
    let gpu_writes = gpu_sets(&gpu_calls).len();
    let effects = ctl.on_sample(&busy_at(9.0));
    assert!(
        !effects.iter().any(|effect| matches!(effect, Effect::CpuSet(_) | Effect::GpuSet(_))),
        "first re-entry sample must hold the restored pair: {effects:?}"
    );
    assert_eq!(ryzenadj_calls(&runner).len(), cpu_writes, "held reseed must not write CPU");
    assert_eq!(gpu_sets(&gpu_calls).len(), gpu_writes, "held reseed must not write GPU");
    assert_eq!((ctl.status().cpu_limit_w, ctl.status().gpu_max_mhz), held_pair);
    assert_eq!(ctl.replica.cpu, Some(75.0));
    assert_eq!(ctl.replica.gpu, Some(74.0));
    assert_eq!(ctl.replica.ma, Some(74.0));
    {
        let auto = ctl.c.auto.as_ref().expect("resumed Auto state");
        let plain = |w: &VecDeque<Num>| w.iter().map(|x| f(*x)).collect::<Vec<f64>>();
        assert_eq!(plain(&auto.cpu_draw), vec![25.0]);
        assert_eq!(plain(&auto.fan), vec![3_000.0]);
        assert_eq!(plain(&auto.ec_slope), vec![75.0]);
        assert!(auto.steady.window.is_empty());
        assert_eq!(auto.steady.key, None);
        assert!(auto.refinement.window.is_empty());
        assert_eq!(auto.refinement.key, None);
        assert!(auto.session.view_initialised);
    }

    // A calibration that gives up by itself resumes the same session, with
    // the same sample that writes nothing.
    ctl.on_command(Command::StartCalibration);
    ctl.on_sample(&curve_sample(10.0, 75.0, 74.0, TEMP_CURVE));
    let mut changed = curve_sample(11.0, 75.0, 74.0, TEMP_CURVE);
    changed.fanctrl.as_mut().expect("view").strategy = "performance".to_string();
    let terminal = ctl.on_sample(&changed);
    assert!(has_status_change_cause(&terminal, "calib:skipped"), "{terminal:?}");
    assert_eq!(ctl.status().mode, Mode::Auto);
    assert_eq!((ctl.status().cpu_limit_w, ctl.status().gpu_max_mhz), held_pair);
    let effects = ctl.on_sample(&curve_sample(12.0, 75.0, 74.0, TEMP_CURVE));
    assert!(
        !effects.iter().any(|effect| matches!(effect, Effect::CpuSet(_) | Effect::GpuSet(_))),
        "first re-entry sample after runner terminal must hold: {effects:?}"
    );
}

#[test]
fn ten_invalid_temp_samples_with_a_limit_trip_sensor_lost() {
    let runner = FakeRunner::new();
    let mut ctl = controller(&runner);
    ctl.on_command(Command::SetCpuW(20.0));
    for t in 1..=9 {
        assert!(ctl.on_sample(&sample_at(f64::from(t))).is_empty());
    }
    assert_eq!(ctl.status().cpu_limit_w, Some(20.0));
    let effects = ctl.on_sample(&sample_at(10.0));
    assert!(effects.contains(&Effect::Released), "got {effects:?}");
    assert!(has_flagged(&effects, "sensor_lost", true));
    assert!(has_status_change_cause(&effects, "watchdog:sensor_lost"));
    assert!(ctl.status().flags.contains(&StatusFlag::SensorLost));
    assert!(!ctl.status().flags.contains(&StatusFlag::ThermalEmergency));
    assert_eq!(ctl.status().mode, Mode::Monitor);
    assert_eq!(ctl.status().cpu_limit_w, None);
    assert_eq!(ctl.profile, "balanced");
    let effects = ctl.on_command(Command::SetCpuW(20.0));
    assert!(has_flagged(&effects, "sensor_lost", false));
    assert!(!ctl.status().flags.contains(&StatusFlag::SensorLost));
    assert_eq!(ctl.status().cpu_limit_w, None, "first press only acks");
    ctl.on_command(Command::SetCpuW(20.0));
    assert_eq!(ctl.status().cpu_limit_w, Some(20.0));
}

#[test]
fn watchdog_stays_armed_in_pure_monitor() {
    let runner = FakeRunner::new();
    let mut ctl = controller(&runner);
    for t in 0..20 {
        assert!(ctl.on_sample(&overheat_at(f64::from(t))).is_empty());
    }
    for t in 20..40 {
        assert!(ctl.on_sample(&sample_at(f64::from(t))).is_empty());
    }
    assert!(ctl.status().flags.is_empty());
    ctl.on_command(Command::SetCpuW(20.0));
    ctl.on_sample(&overheat_at(40.0));
    ctl.on_sample(&overheat_at(41.0));
    let effects = ctl.on_sample(&overheat_at(42.0));
    assert!(effects.contains(&Effect::Released), "got {effects:?}");
    assert!(ctl.status().flags.contains(&StatusFlag::ThermalEmergency));
}

#[test]
fn gpu_heat_trips_too() {
    let runner = FakeRunner::new();
    let mut ctl = controller(&runner);
    ctl.on_command(Command::SetCpuW(20.0));
    let gpu_hot_at = |t: f64| Sample {
        t_mono: t,
        cpu_temp_c: 60.0,
        cpu_temp_valid: true,
        gpu_temp_c: GPU_TRIP_C,
        gpu_temp_valid: true,
        ..Sample::default()
    };
    ctl.on_sample(&gpu_hot_at(1.0));
    ctl.on_sample(&gpu_hot_at(2.0));
    let effects = ctl.on_sample(&gpu_hot_at(3.0));
    assert!(effects.contains(&Effect::Released), "got {effects:?}");
    assert!(ctl.status().flags.contains(&StatusFlag::ThermalEmergency));
}

#[test]
fn resume_pokes_gpu_resumed_hook_in_manual() {
    let runner = FakeRunner::new();
    let (mut ctl, gpu_calls, resumed_count) = auto_controller_with_resume_counter(&runner);
    ctl.on_command(Command::SetGpuMaxClock(1500));
    assert_eq!(resumed_count.get(), 0, "premise");

    let effects = ctl.on_sample(&Sample {
        t_mono: 100.0,
        resumed: true,
        ..Sample::default()
    });
    assert_eq!(resumed_count.get(), 1);
    assert!(has_reassert(&effects, "resume"), "got {effects:?}");
    assert_eq!(gpu_sets(&gpu_calls), vec![1500, 1500], "set + reassert");
    ctl.on_sample(&sample_at(105.0));
    let effects = ctl.on_sample(&sample_at(110.2));
    assert!(has_reassert(&effects, "reassert"), "got {effects:?}");
    assert_eq!(resumed_count.get(), 1);
}

#[test]
fn resume_pokes_gpu_resumed_hook_in_auto() {
    let runner = FakeRunner::new();
    let (mut ctl, _gpu_calls, resumed_count) = auto_controller_with_resume_counter(&runner);
    ctl.on_command(Command::SetAuto(true));
    ctl.on_sample(&busy_at(0.0));
    assert_eq!(resumed_count.get(), 0, "premise");
    assert!(
        !ctl.c.auto
            .as_ref()
            .expect("auto state")
            .gpu_commands
            .is_empty(),
        "premise: the first successful GPU command is paired to later samples"
    );

    let effects = ctl.on_sample(&Sample {
        resumed: true,
        ..busy_at(1.0)
    });
    assert_eq!(resumed_count.get(), 1);
    assert!(has_reassert(&effects, "resume"), "got {effects:?}");
    assert_eq!(ctl.status().mode, Mode::Auto, "auto survives the resume");
    let auto = ctl.c.auto.as_ref().expect("auto state");
    assert_eq!(
        auto.gpu_commands.len(),
        2,
        "pre-suspend pairing is gone; both completed resume reasserts remain"
    );
    assert_eq!(auto.session.gpu_generation, 2);
}

#[test]
fn resume_without_gpu_actuator_still_reasserts() {
    let runner = FakeRunner::new();
    let mut ctl = controller(&runner);
    ctl.on_command(Command::SetCpuW(20.0));
    queue_cpu_reset(&runner, 40.0);
    let effects = ctl.on_sample(&Sample {
        t_mono: 100.0,
        resumed: true,
        ..Sample::default()
    });
    assert!(has_reassert(&effects, "resume"), "got {effects:?}");
}

#[test]
fn strict_stickiness_window_fires_on_two_violations_after_resume() {
    let runner = FakeRunner::new();
    let mut ctl = controller(&runner);
    ctl.on_command(Command::SetCpuW(20.0));
    ctl.on_sample(&Sample {
        t_mono: 100.0,
        resumed: true,
        ..Sample::default()
    });
    assert!(
        !ctl.status().flags.contains(&StatusFlag::LimitNotSticking),
        "premise"
    );
    ctl.on_sample(&sample_with_power(101.0, 26.0));
    assert!(!ctl.status().flags.contains(&StatusFlag::LimitNotSticking));
    queue_cpu_reset(&runner, 40.0);
    let effects = ctl.on_sample(&sample_with_power(102.0, 26.0));
    assert!(has_reassert(&effects, "stickiness"), "got {effects:?}");
    assert!(ctl.status().flags.contains(&StatusFlag::LimitNotSticking));
    ctl.on_sample(&sample_with_power(103.0, 19.0));
    assert!(!ctl.status().flags.contains(&StatusFlag::LimitNotSticking));
    ctl.on_sample(&sample_with_power(161.0, 26.0));
    queue_cpu_reset(&runner, 40.0);
    let effects = ctl.on_sample(&sample_with_power(162.0, 26.0));
    assert!(
        !has_reassert(&effects, "stickiness"),
        "two violations after the strict window must not fire, got {effects:?}"
    );
    assert!(!ctl.status().flags.contains(&StatusFlag::LimitNotSticking));
    queue_cpu_reset(&runner, 40.0);
    let effects = ctl.on_sample(&sample_with_power(163.0, 26.0));
    assert!(has_reassert(&effects, "stickiness"), "got {effects:?}");
    assert!(ctl.status().flags.contains(&StatusFlag::LimitNotSticking));
}

#[test]
fn set_floors_sanitizes_echoes_and_persists_on_change_only() {
    let runner = FakeRunner::new();
    let mut ctl = unequipped(&runner, Config::default());
    // The status starts with the configured floors.
    assert_eq!(ctl.status().cpu_floor_w, 15.0);
    assert_eq!(ctl.status().gpu_floor_mhz, 1000);

    let effects = ctl.on_command(Command::SetFloors {
        cpu_w: 20.0,
        gpu_mhz: 1105,
    });
    assert_eq!(status_changes(&effects), 1);
    assert_eq!(ctl.status().cpu_floor_w, 20.0);
    assert_eq!(ctl.status().gpu_floor_mhz, 1105);
    let saved = ctl.saved_config.take().expect("saved");
    assert_eq!(saved.cpu_floor_w, 20.0);
    assert_eq!(saved.gpu_floor_mhz, 1105);
    assert_eq!(
        saved.fan_target_rpm,
        Config::default().fan_target_rpm,
        "other config fields preserved"
    );
    // Floors are no actuation.
    assert_eq!(ctl.status().mode, Mode::Monitor);
    assert!(runner.calls().is_empty());

    // The same floors again: nothing is saved or shown.
    let effects = ctl.on_command(Command::SetFloors {
        cpu_w: 20.0,
        gpu_mhz: 1105,
    });
    assert_eq!(status_changes(&effects), 0, "got {effects:?}");
    assert!(ctl.saved_config.is_none(), "unchanged floors must not spam config saves");

    // Floors out of range come back within the hardware's bounds.
    ctl.on_command(Command::SetFloors {
        cpu_w: 99.0,
        gpu_mhz: 500,
    });
    assert_eq!(ctl.status().cpu_floor_w, 54.0);
    assert_eq!(ctl.status().gpu_floor_mhz, 1000);
}

#[test]
fn set_floors_rejected_while_calibrating() {
    let runner = FakeRunner::new();
    let mut ctl = controller(&runner);
    ctl.on_command(Command::StartCalibration);
    assert_eq!(ctl.status().mode, Mode::Calibrating, "premise");

    let effects = ctl.on_command(Command::SetFloors {
        cpu_w: 25.0,
        gpu_mhz: 1200,
    });
    assert!(effects.is_empty(), "got {effects:?}");
    assert_eq!(ctl.status().cpu_floor_w, 15.0, "floors unchanged");
    assert_eq!(ctl.status().gpu_floor_mhz, 1000);
    assert_eq!(ctl.config.cpu_floor_w, 15.0);
}

#[test]
fn set_floors_passes_the_emergency_gate_without_acknowledging() {
    let runner = FakeRunner::new();
    let mut ctl = controller(&runner);
    ctl.on_command(Command::SetCpuW(20.0));
    for t in 1..=3 {
        ctl.on_sample(&overheat_at(f64::from(t)));
    }
    assert!(
        ctl.status().flags.contains(&StatusFlag::ThermalEmergency),
        "premise: tripped"
    );
    let effects = ctl.on_command(Command::SetFloors {
        cpu_w: 25.0,
        gpu_mhz: 1200,
    });
    assert_eq!(ctl.status().cpu_floor_w, 25.0);
    assert_eq!(ctl.status().gpu_floor_mhz, 1200);
    assert!(
        ctl.status().flags.contains(&StatusFlag::ThermalEmergency),
        "floors must not consume the acknowledge"
    );
    assert!(
        !has_status_change_cause(&effects, "watchdog:rearmed"),
        "got {effects:?}"
    );
    ctl.on_command(Command::SetCpuW(20.0)); // ack only
    assert_eq!(ctl.status().cpu_limit_w, None);
    ctl.on_command(Command::SetCpuW(20.0)); // acts
    assert_eq!(ctl.status().cpu_limit_w, Some(20.0));
}

#[test]
fn out_of_range_config_floors_never_panic_auto() {
    let runner = FakeRunner::new();
    let config = Config {
        cpu_floor_w: 99.0,
        gpu_floor_mhz: 4000,
        ..Config::default()
    };
    let (mut ctl, _gpu_calls) = auto_controller(&runner, config);
    ctl.on_command(Command::SetAuto(true));
    for t in [0.0, 1.0, 2.0, 5.0] {
        ctl.on_sample(&busy_at(t));
    }
    assert_eq!(ctl.status().cpu_limit_w, Some(54.0));
    assert_eq!(ctl.status().gpu_max_mhz, Some(3090));
}

#[test]
fn manual_commands_are_rejected_while_calibration_suspends_auto() {
    let runner = FakeRunner::new();
    let (mut ctl, gpu_calls) = auto_controller_default(&runner);
    ctl.on_command(Command::SetAuto(true));
    ctl.on_sample(&busy_at(0.0));
    let cpu_calls_before = ryzenadj_calls(&runner).len();
    let gpu_calls_before = gpu_sets(&gpu_calls).len();

    for cmd in [Command::SetCpuW(40.0), Command::SetGpuMaxClock(3000)] {
        let effects = ctl.on_command(cmd);
        assert!(effects.is_empty(), "{cmd:?} must be rejected: {effects:?}");
    }
    let effects = ctl.on_command(Command::StartCalibration);
    assert_eq!(status_changes(&effects), 1, "got {effects:?}");
    assert_eq!(ctl.status().mode, Mode::Calibrating);
    assert!(ctl.status().calib.is_some());
    assert!(ctl.c.auto.is_some(), "Auto state remains suspended in place");
    assert_eq!(ryzenadj_calls(&runner).len(), cpu_calls_before);
    assert_eq!(gpu_sets(&gpu_calls).len(), gpu_calls_before);

    ctl.on_command(Command::AbortCalibration);
    ctl.on_command(Command::SetFanTarget(2500.0));
    assert_eq!(ctl.status().fan_target_rpm, 2500.0);
    assert_eq!(ctl.status().mode, Mode::Auto);
}

#[test]
fn fan_invalid_with_no_fanctrl_view_releases_to_stock() {
    let runner = FakeRunner::new();
    let (mut ctl, gpu_calls) = auto_controller_default(&runner);
    ctl.on_command(Command::SetAuto(true));

    let invalid_fan_at = |t: f64| Sample {
        fan_valid: false,
        ..busy_at(t)
    };
    let effects = ctl.on_sample(&invalid_fan_at(0.0));
    assert_eq!(ctl.status().tstar_state, Some(TStarState::Released));
    assert_eq!(ctl.status().cpu_limit_w, None);
    assert_eq!(ctl.status().gpu_max_mhz, None);
    assert!(
        ryzenadj_calls(&runner).is_empty(),
        "Released: no CPU write at all"
    );
    let _ = effects;
    ctl.on_sample(&invalid_fan_at(5.0));
    let effects = ctl.on_sample(&invalid_fan_at(10.1));
    assert!(!has_reassert(&effects, "reassert"), "got {effects:?}");
    assert!(ryzenadj_calls(&runner).is_empty());
    assert!(
        gpu_sets(&gpu_calls).is_empty(),
        "GPU device loop must not command anything while Released"
    );
}

#[test]
fn set_fan_target_persists_config_on_change_only() {
    let runner = FakeRunner::new();
    let mut ctl = unequipped(&runner, Config::default());

    ctl.on_command(Command::SetFanTarget(2500.0));
    assert_eq!(ctl.saved_config.take().expect("saved").fan_target_rpm, 2500.0);

    // The same target again: nothing is saved.
    ctl.on_command(Command::SetFanTarget(2500.0));
    assert!(ctl.saved_config.is_none(), "an unchanged target must not spam config saves");

    // A change saves again, and keeps the other fields.
    ctl.on_command(Command::SetFanTarget(2000.0));
    let saved = ctl.saved_config.take().expect("saved");
    assert_eq!(saved.fan_target_rpm, 2000.0);
    assert_eq!(saved.cpu_floor_w, Config::default().cpu_floor_w);
}

#[test]
fn config_fast_limit_reaches_ryzenadj() {
    let runner = FakeRunner::new();
    let config = Config {
        fast_limit_mw: 60_000,
        ..Config::default()
    };
    let mut ctl = Ctl::new(&runner, true, None, config);
    ctl.on_command(Command::SetCpuW(20.0));
    assert_eq!(
        ryzenadj_calls(&runner),
        vec![vec![
            "--stapm-limit=20000".to_string(),
            "--slow-limit=20000".to_string(),
            "--fast-limit=60000".to_string(),
        ]]
    );
}

#[test]
fn config_seeds_status_fan_target() {
    let runner = FakeRunner::new();
    let config = Config {
        fan_target_rpm: 2200.0,
        ..Config::default()
    };
    let ctl = unequipped(&runner, config);
    assert_eq!(ctl.status().fan_target_rpm, 2200.0);
}

#[test]
fn verdictstate_confirmed_mismatch_is_a_non_release_outcome_until_the_third() {
    let mut v = VerdictState::default();
    let mismatch = WriteVerdict::Mismatch {
        field: "slow",
        commanded: n(20.0),
        read: n(25.0),
    };
    assert_eq!(v.observe(mismatch, false), VerdictOutcome::Mismatch);
    assert!(v.in_episode());
    assert_eq!(v.observe(mismatch, false), VerdictOutcome::Mismatch);
    assert!(!v.released);
    assert_eq!(v.observe(mismatch, false), VerdictOutcome::Released);
    assert!(v.released);
    assert_eq!(v.mismatch_streak, 0, "strikes clear on release");
    assert!(v.in_episode(), "the flag stays held: in_episode still true");
}

#[test]
fn verdictstate_verified_after_a_release_recovers_and_clears_everything() {
    let mut v = VerdictState::default();
    let mismatch = WriteVerdict::Mismatch {
        field: "slow",
        commanded: n(20.0),
        read: n(25.0),
    };
    for _ in 0..3 {
        v.observe(mismatch, false);
    }
    assert!(v.released);
    let outcome = v.observe(WriteVerdict::Verified(n(20.0)), false);
    assert_eq!(outcome, VerdictOutcome::Recovered);
    assert!(!v.released);
    assert!(!v.in_episode());
}

#[test]
fn verdictstate_suppressed_mismatch_near_an_on_ac_edge_is_never_scored() {
    let mut v = VerdictState::default();
    let mismatch = WriteVerdict::Mismatch {
        field: "slow",
        commanded: n(20.0),
        read: n(25.0),
    };
    for _ in 0..10 {
        assert_eq!(v.observe(mismatch, true), VerdictOutcome::Quiet);
    }
    assert!(!v.in_episode());
}

#[test]
fn verdictstate_six_consecutive_unreadable_raises_blind_cleared_by_verified() {
    let mut v = VerdictState::default();
    for _ in 0..5 {
        assert_eq!(
            v.observe(WriteVerdict::Unreadable, false),
            VerdictOutcome::Quiet
        );
    }
    assert_eq!(
        v.observe(WriteVerdict::Unreadable, false),
        VerdictOutcome::Blind
    );
    assert!(v.blind);
    assert!(!v.in_episode());
    let outcome = v.observe(WriteVerdict::Verified(n(20.0)), false);
    assert_eq!(outcome, VerdictOutcome::Recovered);
    assert!(!v.blind);
}

#[test]
fn verdictstate_unreadable_and_unverifiable_are_non_events() {
    let mut v = VerdictState::default();
    assert_eq!(
        v.observe(WriteVerdict::Unverifiable, false),
        VerdictOutcome::Quiet
    );
    assert!(!v.in_episode());
    assert!(!v.blind);
    assert_eq!(v.mismatch_streak, 0);
    assert_eq!(v.unreadable_streak, 0);
}

#[test]
fn v4_warm_pair_seeds_the_cpu_loop_above_its_entry_floor() {
    let runner = FakeRunner::new();
    let (mut ctl, _gpu) = auto_controller_default(&runner);
    let duty = DutyRpmTable::default().duty_for_rpm(ctl.status().fan_target_rpm);
    ctl.insert_warm(warm_start_key("quiet16", duty, false), 40.0, 2_400);
    ctl.on_command(Command::SetAuto(true));
    for t in 0..5 { ctl.on_sample(&busy_at(f64::from(t))); }

    let auto = ctl.c.auto.as_ref().expect("Auto state");
    assert!(auto.cpu.facts.entry_seeded && auto.cpu.facts.shadow_seeded);
    assert_eq!(f(auto.cpu.device.thermal()), 40.0);
    assert!(
        f(auto.cpu.device.thermal()) >= ctl.config.cpu_floor_w,
        "the paired seed must still respect the live entry floor"
    );
}

#[test]
fn per_device_calibration_writes_and_restores_both_caps_through_normal_paths() {
    let runner = FakeRunner::new();
    let (mut ctl, gpu_calls) = auto_controller_default(&runner);
    ctl.apply_calib_effects(
        vec![
            RunnerEffect::SetCpuMaxWatts(23.0),
            RunnerEffect::SetGpuMaxClock(1_500),
        ],
        None,
    );
    assert_eq!(ctl.status().cpu_limit_w, Some(23.0));
    assert_eq!(ctl.status().gpu_max_mhz, Some(1_500));
    assert!(gpu_sets(&gpu_calls).contains(&1_500));

    ctl.apply_calib_effects(
        vec![
            RunnerEffect::SetCpuMaxWatts(ctl.config.cpu_floor_w),
            RunnerEffect::SetGpuMaxClock(ctl.config.gpu_floor_mhz),
        ],
        None,
    );
    assert_eq!(ctl.status().cpu_limit_w, Some(ctl.config.cpu_floor_w));
    assert_eq!(ctl.status().gpu_max_mhz, Some(ctl.config.gpu_floor_mhz));
}

#[test]
fn rejected_curve_raises_curve_invalid_and_falls_to_held() {
    let bad_curve: &[(f64, u8)] = &[(50.0, 40), (60.0, 30)];
    let runner = FakeRunner::new();
    let (mut ctl, _gpu) = auto_controller_default(&runner);
    ctl.on_command(Command::SetAuto(true));
    ctl.on_sample(&curve_sample(0.0, 75.0, 74.0, bad_curve));
    assert!(ctl.status().flags.contains(&StatusFlag::CurveInvalid));
    assert_eq!(ctl.status().tstar_state, Some(TStarState::Held));
    assert!(
        ctl.status().cpu.is_some(),
        "Held fallback keeps the CPU loop observable"
    );
}

#[test]
fn leaving_auto_clears_a_stuck_guard_flag() {
    let runner = FakeRunner::new();
    let (mut ctl, _gpu) = auto_controller_default(&runner);
    ctl.on_command(Command::SetAuto(true));
    ctl.on_sample(&Sample {
        nvme_temp_c: Some(85.0),
        ..busy_at(0.0)
    });
    assert!(ctl.status().flags.contains(&StatusFlag::NvmeHot), "premise");

    ctl.on_command(Command::ReleaseAll);
    assert!(!ctl.status().flags.contains(&StatusFlag::NvmeHot));
    assert!(ctl.status().tstar_state.is_none());
}

#[test]
fn nvme_hot_tick_raises_the_flag_and_leaves_device_caps_unchanged() {
    let cold_runner = FakeRunner::new();
    let (mut cold, _g1) = auto_controller_default(&cold_runner);
    cold.on_command(Command::SetAuto(true));
    let hot_runner = FakeRunner::new();
    let (mut hot, _g2) = auto_controller_default(&hot_runner);
    hot.on_command(Command::SetAuto(true));

    let mut cold_caps = (0.0, 0.0);
    let mut hot_caps = (0.0, 0.0);
    for i in 0..3 {
        let t = f64::from(i) * 5.0;
        let ce = cold.on_sample(&busy_at(t));
        let he = hot.on_sample(&Sample {
            nvme_temp_c: Some(85.0),
            ..busy_at(t)
        });
        assert!(!ce.is_empty() || cold.status().cpu.is_some());
        assert!(!he.is_empty() || hot.status().cpu.is_some());
        cold_caps = (cold.status().cpu.unwrap().cap, cold.status().gpu.unwrap().cap);
        hot_caps = (hot.status().cpu.unwrap().cap, hot.status().gpu.unwrap().cap);
    }
    assert!(!cold.status().flags.contains(&StatusFlag::NvmeHot));
    assert!(hot.status().flags.contains(&StatusFlag::NvmeHot));
    assert_eq!(
        cold_caps, hot_caps,
        "NVMe HOT must not move either device cap (reporting-only)"
    );
    assert_eq!(cold.status().tstar_state, hot.status().tstar_state);
}

#[test]
fn reconciliation_is_scored_on_the_1hz_sample_carrying_the_view_not_the_5s_tick() {
    let runner = FakeRunner::new();
    let (mut ctl, _gpu) = auto_controller_default(&runner);
    ctl.on_command(Command::SetAuto(true));

    for t in [0.0, 1.0, 2.0] {
        let mut s = curve_sample(t, 75.0, 74.0, TEMP_CURVE);
        s.ec = Some(ec_reading_c(&[
            ("ambient_f75303@4d", 40.0),
            ("cpu@4c", 90.0),
        ]));
        ctl.on_sample(&s);
    }
    assert!(
        ctl.status().flags.contains(&StatusFlag::EcMismatch),
        "EC MISMATCH must latch from the off-5s-tick samples alone"
    );
}

#[test]
fn auto_entry_without_a_warm_start_seeds_from_the_measured_draw_not_the_floors() {
    let runner = FakeRunner::new();
    let (mut ctl, _gpu) = auto_controller_default(&runner);
    ctl.on_command(Command::SetAuto(true));
    ctl.on_sample(&Sample {
        cpu_pkg_w: 14.0,
        gpu_w: 99.0,
        ..busy_at(0.0)
    });
    let first = ctl.status().cpu.expect("CPU decision");
    assert_eq!(first.shadow, first.thermal);
    for t in 1..5 {
        ctl.on_sample(&Sample {
            t_mono: f64::from(t),
            cpu_pkg_w: 14.0,
            gpu_w: 99.0,
            ..busy_at(f64::from(t))
        });
    }
    let seeded = ctl
        .status()
        .cpu
        .expect("CPU decision after five samples");
    assert_eq!(seeded.shadow, 14.0 + ctl.config.shadow_headroom_cpu_w);
}

#[test]
fn strategy_change_rekeys_without_reseeding_live_device_loops() {
    assert_rekey_preserves_live_candidates("cool16", 36, false);
}

#[test]
fn ac_change_rekeys_without_reseeding_live_device_loops() {
    assert_rekey_preserves_live_candidates("quiet16", 36, true);
}

#[test]
fn snapped_duty_change_rekeys_without_reseeding_live_device_loops() {
    assert_rekey_preserves_live_candidates("quiet16", 40, false);
}

#[test]
fn released_reentry_consumes_the_matching_paired_warm_start() {
    let runner = FakeRunner::new();
    let (mut ctl, _gpu) = auto_controller_default(&runner);
    let duty = ctl.duty_rpm_table.duty_for_rpm(ctl.status().fan_target_rpm);
    ctl.on_command(Command::SetAuto(true));
    for t in 0..5 { ctl.on_sample(&keyed_auto_sample(f64::from(t), "quiet16", duty, false)); }
    {
        let auto = ctl.c.auto.as_ref().expect("Auto");
        assert_ne!(f(auto.cpu.device.thermal()), 40.0, "initial entry has no matching seed");
        assert_ne!(f(auto.gpu.device.thermal()), 2_400.0, "initial entry has no matching seed");
    }
    let mut released = keyed_auto_sample(5.0, "quiet16", duty, false);
    released.fan_valid = false;
    released.fanctrl = None;
    ctl.on_sample(&released);
    assert_eq!(ctl.status().tstar_state, Some(TStarState::Released));
    {
        let auto = ctl.c.auto.as_ref().expect("Auto");
        assert_eq!(ctl.cpu_requested(), None);
        assert_eq!(ctl.gpu_requested(), None);
        assert!(!auto.cpu.facts.entry_seeded && !auto.gpu.facts.entry_seeded);
        assert!(ctl.status().cpu.is_none() && ctl.status().gpu.is_none());
    }
    ctl.insert_warm(warm_start_key("quiet16", duty, false), 40.0, 2_400);
    for t in 6..11 { ctl.on_sample(&keyed_auto_sample(f64::from(t), "quiet16", duty, false)); }
    let auto = ctl.c.auto.as_ref().expect("Auto");
    assert_eq!(f(auto.cpu.device.thermal()), 40.0);
    assert_eq!(f(auto.gpu.device.thermal()), 2_400.0);
}

#[test]
fn mismatched_achieved_duty_restarts_the_steady_window() {
    let runner = FakeRunner::new();
    let (mut ctl, _gpu) = auto_controller_default(&runner);
    ctl.on_command(Command::SetAuto(true));
    ctl.on_sample(&keyed_auto_sample(0.0, "quiet16", 36, false));
    let cpu_cap = ctl.status().cpu_limit_w.expect("CPU cap");
    let gpu_cap = f64::from(ctl.status().gpu_max_mhz.expect("GPU cap"));
    ctl.c.readout.gauges.t_star_c = Some(n(75.0));
    {
        let auto = ctl.c.auto.as_mut().expect("Auto");
        auto.cpu.facts.verdict = VerdictState::default();
        auto.gpu.facts.verdict = VerdictState::default();
        auto.session.cpu_hot = false;
        auto.fan.clear();
    }
    let (cpu, gpu) = (settled_decision(75.0, cpu_cap), settled_decision(74.0, gpu_cap));
    for t in 1..=30 {
        ctl.observe_steady(&keyed_auto_sample(f64::from(t), "quiet16", 36, false), cpu, gpu, 36);
    }
    assert_eq!(ctl.c.auto.as_ref().expect("Auto").steady.window.len(), 30);
    let table_before = ctl.duty_rpm_table.clone();
    let mut mismatch = keyed_auto_sample(31.0, "quiet16", 36, false);
    mismatch.fanctrl.as_mut().expect("view").speed_pct = 99;
    ctl.observe_steady(&mismatch, cpu, gpu, 36);
    assert!(ctl.c.auto.as_ref().expect("Auto").steady.window.is_empty());
    ctl.observe_steady(&keyed_auto_sample(32.0, "quiet16", 36, false), cpu, gpu, 36);
    assert_eq!(ctl.c.auto.as_ref().expect("Auto").steady.window.len(), 1);
    assert!(ctl.warm(&warm_start_key("quiet16", 36, false)).is_none());
    assert_eq!(ctl.duty_rpm_table, table_before, "partial windows cannot refine the table");
}

#[test]
fn cpu_mismatch_freezes_flags_reasserts_and_releases_to_stock_then_a_later_verified_recovers() {
    let runner = FakeRunner::new();
    let (mut ctl, _gpu) = auto_controller_default(&runner);
    ctl.on_command(Command::SetAuto(true));
    for _ in 0..3 {
        queue_confirmed_cpu_mismatch(&runner);
    }
    let mut effects_at = Vec::new();
    let mut status_at = Vec::new();
    for i in 0..=7_u32 {
        let effects = ctl.on_sample(&Sample {
            cpu_pkg_w: 25.0,
            cpu_temp_valid: true,
            cpu_temp_c: 60.0,
            ..busy_at(f64::from(i))
        });
        effects_at.push(effects);
        status_at.push(ctl.status());
    }
    let noted = |i: usize, cause: &str| {
        effects_at[i]
            .iter()
            .any(|e| matches!(e, Effect::Noted { cause: got } if *got == cause))
    };
    assert!(noted(2, "auto:cpu_mismatch"), "{:?}", effects_at[2]);
    assert!(status_at[2].flags.contains(&StatusFlag::LimitNotSticking));
    assert_eq!(status_at[2].cpu.as_ref().expect("CPU").hold, Hold::ActuatorMismatch);
    assert!(noted(4, "auto:cpu_released"), "{:?}", effects_at[4]);
    assert_eq!(status_at[4].cpu_limit_w, None);
    assert!(noted(6, "auto:cpu_verdict_recovered"), "{:?}", effects_at[6]);
    assert!(status_at[6].cpu_limit_w.is_some());
    assert_ne!(status_at[7].cpu.as_ref().expect("CPU").hold, Hold::ActuatorMismatch);
}

#[test]
fn gpu_and_nvme_hot_thresholds_come_from_the_live_config_not_the_compiled_defaults() {
    let runner = FakeRunner::new();
    let config = Config {
        gpu_hot_c: 86.0,
        nvme_hot_c: 55.0,
        ..Config::default()
    };
    let config = config.sanitized();
    assert_eq!((config.gpu_hot_c, config.nvme_hot_c), (86.0, 55.0));
    let (mut ctl, _gpu) = auto_controller(&runner, config);
    ctl.on_command(Command::SetAuto(true));
    let s = Sample {
        gpu_temp_valid: true,
        gpu_temp_c: 87.0, // below GPU_HOT_C_DEFAULT (88), above the configured 86
        nvme_temp_c: Some(60.0), // below NVME_HOT_C_DEFAULT (80), above the configured 55
        cpu_temp_valid: true,
        cpu_temp_c: 60.0,
        ..busy_at(5.0)
    };
    ctl.on_sample(&s);
    assert!(
        ctl.status().flags.contains(&StatusFlag::GpuHot),
        "87C must trip a configured 86C gpu_hot_c threshold even though it's \
         under the compiled-in 88C default: {:?}",
        ctl.status().flags
    );
    assert!(
        ctl.status().flags.contains(&StatusFlag::NvmeHot),
        "60C must trip a configured 55C nvme_hot_c threshold even though it's \
         well under the compiled-in 80C default: {:?}",
        ctl.status().flags
    );
}

#[test]
fn review_socketless_entry_seeds_groups_once() {
    let runner = FakeRunner::new();
    let (mut ctl, _) = auto_controller_default(&runner);
    ctl.on_command(Command::SetAuto(true));
    let mut sample = curve_sample(0.0, 60.0, 60.0, TEMP_CURVE);
    sample.fanctrl = None;
    sample.fanctrl_freshness = Freshness::Absent;
    ctl.on_sample(&sample);
    assert_eq!(ctl.status().t_star_c, Some(60.0));
    assert!(ctl.c.auto.as_ref().unwrap().session.source_initialised);
}

#[test]
fn review_released_clears_engagement_and_releases_only_on_transition() {
    let runner = FakeRunner::new();
    let (mut ctl, _) = auto_controller_default(&runner);
    ctl.on_command(Command::SetAuto(true));
    for t in 0..6 { ctl.on_sample(&busy_at(f64::from(t))); }
    ctl.c.board.add_flag(StatusFlag::ReadbackBlind);
    let invalid = Sample { fan_valid: false, ..busy_at(6.0) };
    assert!(ctl.on_sample(&invalid).contains(&Effect::Released));
    let auto = ctl.c.auto.as_ref().unwrap();
    assert!(!auto.cpu.facts.entry_seeded && !auto.gpu.facts.entry_seeded);
    assert!(auto.cpu_draw.is_empty());
    assert!(auto.gpu_commands.is_empty());
    assert!(!ctl.status().flags.contains(&StatusFlag::ReadbackBlind));
    assert!(!ctl.on_sample(&Sample { t_mono: 7.0, ..invalid }).contains(&Effect::Released));
    ctl.on_sample(&busy_at(8.0));
    assert!(ctl.c.auto.as_ref().unwrap().cpu.facts.entry_seeded);
}

#[test]
fn review_auto_exit_clears_v3_decisions() {
    let runner = FakeRunner::new();
    let (mut ctl, _) = auto_controller_default(&runner);
    ctl.on_command(Command::SetAuto(true));
    assert!(ctl.status().flags.contains(&StatusFlag::NotCalibrated));
    ctl.on_sample(&busy_at(0.0));
    assert!(ctl.status().cpu.is_some());
    ctl.on_command(Command::SetAuto(false));
    assert!(ctl.status().cpu.is_none() && ctl.status().gpu.is_none());
    assert!(ctl.status().tstar_state.is_none());
    assert!(ctl.status().telemetry_flags.is_empty());
    assert!(
        !ctl.status().flags.contains(&StatusFlag::NotCalibrated),
        "the active-key calibration diagnostic must not leak into Monitor"
    );
}

#[test]
fn unmarked_long_sample_gap_restarts_held_cadence_without_advancing_target() {
    let runner = FakeRunner::new();
    let (mut ctl, _) = auto_controller_default(&runner);
    ctl.on_command(Command::SetAuto(true));
    let held_sample = |t| {
        let mut sample = busy_at(t);
        sample.fan1_rpm = 2_000.0;
        sample.fan2_rpm = 1_950.0;
        sample
    };
    ctl.on_sample(&held_sample(0.0));
    ctl.on_sample(&held_sample(1.0));
    assert_eq!(ctl.status().tstar_state, Some(TStarState::Held));
    let before = ctl.status().t_star_c.expect("Held target");

    ctl.on_sample(&held_sample(7_201.0));

    assert_eq!(ctl.status().tstar_state, Some(TStarState::Held));
    assert_eq!(
        ctl.status().t_star_c,
        Some(before),
        "wall time is not valid Held PI control time"
    );
}

#[test]
fn review_cpu_hot_hysteresis_and_resume_clear_streak() {
    let runner = FakeRunner::new();
    let (mut ctl, _) = auto_controller_default(&runner);
    ctl.on_command(Command::SetAuto(true));
    for t in 0..3 {
        ctl.on_sample(&Sample {
            cpu_temp_valid: true,
            cpu_temp_c: 90.0,
            ..busy_at(f64::from(t))
        });
    }
    let previous = f(ctl.c.auto.as_mut().unwrap().cpu.ratchet.step(false, false, None));
    ctl.on_sample(&Sample {
        cpu_temp_valid: true,
        cpu_temp_c: 88.0,
        ..busy_at(3.0)
    });
    let next = f(ctl.c.auto.as_mut().unwrap().cpu.ratchet.step(false, false, None));
    assert_eq!(next, previous - f(Num(CPU_MAX_RATCHET_DOWN_RATE_W)));
    ctl.on_sample(&Sample {
        resumed: true,
        cpu_temp_valid: true,
        cpu_temp_c: 90.0,
        ..busy_at(100.0)
    });
    let auto = ctl.c.auto.as_ref().unwrap();
    assert_eq!(auto.session.cpu_hot_streak, 1);
    assert!(!auto.cpu.facts.verdict.in_episode());
}

#[test]
fn review_live_floors_bound_hot_ratchets() {
    let runner = FakeRunner::new();
    let (mut ctl, _) = auto_controller_default(&runner);
    ctl.on_command(Command::SetAuto(true));
    for t in 0..25 {
        ctl.on_sample(&Sample {
            cpu_temp_valid: true,
            cpu_temp_c: 90.0,
            gpu_temp_valid: true,
            gpu_temp_c: 89.0,
            ..busy_at(f64::from(t))
        });
    }
    ctl.on_command(Command::SetFloors {
        cpu_w: 40.0,
        gpu_mhz: 2500,
    });
    ctl.on_sample(&Sample {
        cpu_temp_valid: true,
        cpu_temp_c: 90.0,
        gpu_temp_valid: true,
        gpu_temp_c: 89.0,
        ..busy_at(25.0)
    });
    let auto = ctl.c.auto.as_mut().unwrap();
    assert!(f(auto.cpu.ratchet.step(false, false, None)) >= 40.0);
    assert!(f(auto.gpu.ratchet.step(false, false, None)) >= 2500.0);
}

#[test]
fn review_gpu_commands_use_completion_time_including_reassert() {
    let runner = FakeRunner::new();
    let (mut ctl, _) = auto_controller_default(&runner);
    ctl.clock = Box::new(|| 3.0);
    ctl.on_command(Command::SetAuto(true));
    let sample = Sample {
        acquired_at: Some(0.0),
        ..busy_at(10.0)
    };
    ctl.on_sample(&sample);
    let last = |ctl: &Ctl<'_>| {
        let auto = ctl.c.auto.as_ref().unwrap();
        f(auto.gpu_commands.back().unwrap().completed_at)
    };
    assert_eq!(last(&ctl), 13.0);
    ctl.reassert_actuators(&sample);
    assert_eq!(ctl.c.auto.as_ref().unwrap().gpu_commands.len(), 2);
    assert_eq!(last(&ctl), 13.0);
    let mut verifier = GpuVerifier { over: 0 };
    let commands = &ctl.c.auto.as_ref().unwrap().gpu_commands;
    assert_eq!(
        verifier.verify_paired(95.0, 3000.0, 12.0, commands),
        WriteVerdict::Unverifiable
    );
}

#[test]
fn review_failed_gpu_attempts_keep_two_second_cadence() {
    let runner = FakeRunner::new();
    let fake = FakeGpu::new();
    let calls = Rc::clone(&fake.calls);
    fake.failures.set(10);
    let (mut ctl, _) = auto_controller_default(&runner);
    ctl.gpu = Some(fake);
    ctl.on_command(Command::SetAuto(true));
    ctl.on_sample(&busy_at(0.0));
    assert_eq!(ctl.last_gpu_write(), Some(0.0));
    ctl.on_sample(&busy_at(1.0));
    assert_eq!(ctl.last_gpu_write(), Some(0.0));
    ctl.on_sample(&busy_at(2.0));
    assert_eq!(ctl.last_gpu_write(), Some(2.0));
    assert!(calls.borrow().is_empty());
    assert!(ctl.status().gpu_max_mhz.is_none());
}

#[test]
fn review_gpu_mismatch_rewrites_then_release_does_not_relock_same_sample() {
    let runner = FakeRunner::new();
    let (mut ctl, calls) = auto_controller_default(&runner);
    ctl.on_command(Command::SetAuto(true));
    ctl.on_sample(&busy_at(0.0));
    for t in 2..5 { ctl.on_sample(&Sample { gpu_sm_mhz: 4000.0, ..busy_at(f64::from(t)) }); }
    let count = calls.borrow().len();
    ctl.on_sample(&Sample { gpu_sm_mhz: 4000.0, ..busy_at(5.0) });
    assert!(calls.borrow().len() > count, "confirmed mismatch must reassert even an unchanged cap");
    ctl.on_sample(&Sample { gpu_sm_mhz: 4000.0, ..busy_at(6.0) });
    assert!(ctl.status().gpu_max_mhz.is_none(), "release must survive the rest of its sample");
}

#[test]
fn review_upward_curve_edit_restores_thermal_candidate_only() {
    let runner = FakeRunner::new();
    let (mut ctl, _) = auto_controller_default(&runner);
    ctl.on_command(Command::SetAuto(true));
    drive_curve(&mut ctl, 0.0, 25);
    assert_eq!(ctl.status().tstar_state, Some(TStarState::Curve));
    let auto = ctl.c.auto.as_mut().unwrap();
    auto.cpu.device.transfer_thermal(n(30.0), n(0.0));
    auto.cpu.device.transfer_shadow(n(35.0));
    let applied = ctl.status().cpu_limit_w;
    let higher: Vec<_> = TEMP_CURVE.iter().map(|(temp, duty)| (temp + 4.0, *duty)).collect();
    ctl.on_sample(&curve_sample(25.0, 75.0, 74.0, &higher));
    assert_eq!(ctl.cpu_thermal(), ctl.config.cpu_max_w);
    assert_eq!(ctl.status().cpu.unwrap().shadow, 35.0);
    assert!(ctl.status().cpu_limit_w.unwrap() <= applied.unwrap() + 10.0);
}

#[test]
fn review_raw_reconciliation_and_implausible_diagnostics_remain_distinct() {
    let runner = FakeRunner::new();
    let (mut ctl, _) = auto_controller_default(&runner);
    ctl.on_command(Command::SetAuto(true));
    for t in 0..5 {
        let mut s = curve_sample(f64::from(t), 120.0, 120.0, TEMP_CURVE);
        s.ec = Some(ec_reading_c(&[("cpu@4c", 70.0), ("ambient_f75303@4d", 40.0), ("charger_f75303@4d", 120.0)]));
        ctl.on_sample(&s);
    }
    assert!(!ctl.status().flags.contains(&StatusFlag::EcMismatch));
    let shown = ctl.c.status();
    assert!(shown.telemetry_flags.iter().any(|flag| matches!(flag,
        TelemetryFlag::EcImplausible { label } if label == "charger_f75303@4d")));
}

#[test]
fn review_group_lost_emits_device_diagnostic() {
    let runner = FakeRunner::new();
    let (mut ctl, _) = auto_controller_default(&runner);
    ctl.on_command(Command::SetAuto(true));
    ctl.on_sample(&busy_at(0.0));
    for t in 1..=61 {
        ctl.on_sample(&curve_sample(f64::from(t), 75.0, 74.0, TEMP_CURVE));
    }
    let shown = ctl.c.status();
    assert!(shown.telemetry_flags.iter().any(|flag| matches!(flag,
        TelemetryFlag::GroupLost { device: Device::Gpu })));
}

#[test]
fn review_not_calibrated_is_informational_without_fitted_gains() {
    let runner = FakeRunner::new();
    let (mut ctl, _) = auto_controller_default(&runner);
    ctl.on_command(Command::SetAuto(true));
    ctl.on_sample(&busy_at(0.0));
    assert_eq!(ctl.status().mode, Mode::Auto);
    assert!(ctl.status().flags.contains(&StatusFlag::NotCalibrated));
    assert_eq!(flag_severity(StatusFlag::NotCalibrated), Severity::Info);
}

#[test]
fn review_ac_suppressed_gpu_mismatch_does_not_latch_device_loop() {
    let runner = FakeRunner::new();
    let (mut ctl, _) = auto_controller_default(&runner);
    ctl.on_command(Command::SetAuto(true));
    ctl.on_sample(&busy_at(0.0));
    for t in 1..=3 {
        ctl.on_sample(&Sample { gpu_sm_mhz: 4000.0, on_ac: true, ..busy_at(f64::from(t)) });
    }
    assert_ne!(ctl.c.auto.as_ref().unwrap().gpu.facts.actuator, ActuatorState::Mismatch);
    assert!(!ctl.c.auto.as_ref().unwrap().gpu.facts.verdict.in_episode());
}

#[test]
fn review_biased_steady_fan_refines_before_pair_becomes_qualified() {
    let runner = FakeRunner::new();
    let (mut ctl, _) = auto_controller_default(&runner);
    ctl.on_command(Command::SetAuto(true));
    for t in 0..=40 { ctl.on_sample(&rpm_view_sample(f64::from(t), 2800.0, "quiet16", 36, false)); }
    assert!(ctl.warm_is_empty(), "40 out-of-tolerance samples cannot qualify a pair");
    assert!(ctl.duty_rpm_table.rpm_for_duty(36) < 3030.0, "a stable measured duty must refine an inaccurate table");
    for t in 41..=400 { ctl.on_sample(&rpm_view_sample(f64::from(t), 2800.0, "quiet16", 36, false)); }
    assert!(!ctl.warm_is_empty(), "40 subsequent in-tolerance samples qualify the pair");
}

#[test]
fn review_first_socket_view_seeds_replica_without_replacing_running_source() {
    let runner = FakeRunner::new();
    let (mut ctl, _) = auto_controller_default(&runner);
    ctl.on_command(Command::SetAuto(true));
    let mut sample = curve_sample(0.0, 60.0, 60.0, TEMP_CURVE);
    sample.fanctrl = None;
    sample.fanctrl_freshness = Freshness::Absent;
    ctl.on_sample(&sample);
    ctl.on_sample(&curve_sample(1.0, 74.0, 74.0, TEMP_CURVE));
    assert_eq!(ctl.status().ec_ma_c, Some(74.0));
    assert_eq!(ctl.status().t_star_c, Some(60.0), "first socket must not replace running TStarSource");
}

#[test]
fn review_resume_discards_mismatch_hold_and_quit_clears_decisions() {
    let runner = FakeRunner::new();
    let (mut ctl, _) = auto_controller_default(&runner);
    ctl.on_command(Command::SetAuto(true));
    ctl.on_sample(&busy_at(0.0));
    ctl.c.auto.as_mut().unwrap().cpu.facts.actuator = ActuatorState::Mismatch;
    ctl.on_sample(&busy_at(1.0));
    assert_eq!(ctl.status().cpu.unwrap().hold, Hold::ActuatorMismatch);
    ctl.on_sample(&Sample { resumed: true, ..busy_at(100.0) });
    assert_ne!(ctl.status().cpu.unwrap().hold, Hold::ActuatorMismatch);
    ctl.on_command(Command::Quit);
    assert!(ctl.status().cpu.is_none() && ctl.status().gpu.is_none());
}

#[test]
fn review_curve_reports_live_refined_rpm_reference() {
    let runner = FakeRunner::new();
    let (mut ctl, _) = auto_controller_default(&runner);
    ctl.on_command(Command::SetAuto(true));
    drive_curve(&mut ctl, 0.0, 25);
    let duty = ctl.duty_rpm_table.duty_for_rpm(ctl.status().fan_target_rpm);
    ctl.duty_rpm_table.refine(duty, 2900.0);
    ctl.on_sample(&curve_sample(25.0, 75.0, 74.0, TEMP_CURVE));
    assert_eq!(ctl.status().duty_cmd, Some(duty));
    assert_eq!(ctl.status().snapped_rpm, ctl.duty_rpm_table.rpm_for_duty(duty));
    assert_ne!(ctl.status().snapped_rpm, DutyRpmTable::default().rpm_for_duty(duty));
}

#[test]
fn review_live_floor_can_raise_a_previously_lower_configured_ceiling() {
    let runner = FakeRunner::new();
    let (mut ctl, _) = auto_controller(&runner, Config { cpu_max_w: 30.0, gpu_max_mhz: 1500, ..Config::default() });
    ctl.on_command(Command::SetAuto(true));
    ctl.on_sample(&busy_at(0.0));
    ctl.on_command(Command::SetFloors { cpu_w: 40.0, gpu_mhz: 2000 });
    ctl.on_sample(&busy_at(1.0));
    assert!(ctl.status().cpu.unwrap().cap >= ctl.config.cpu_floor_w);
    assert!(ctl.status().gpu.unwrap().cap >= f64::from(ctl.config.gpu_floor_mhz));
}

#[test]
fn review_resume_records_every_completed_reassert_without_scoring_its_sample() {
    let runner = FakeRunner::new();
    let (mut ctl, calls) = auto_controller_default(&runner);
    ctl.on_command(Command::SetAuto(true));
    ctl.on_sample(&busy_at(0.0));
    let before = calls.borrow().len();
    ctl.on_sample(&Sample { resumed: true, ..busy_at(100.0) });
    let writes = calls.borrow()[before..].iter().filter(|c| matches!(c, GpuCall::Lock(_))).count();
    let auto = ctl.c.auto.as_ref().unwrap();
    assert_eq!(auto.gpu_commands.len(), writes);
    assert_eq!(auto.gpu.facts.actuator, ActuatorState::Unverifiable);
}

#[test]
fn review_invalid_rapl_delta_requires_five_new_draw_samples() {
    for invalid in [0.0, f64::NAN, -1.0] {
        let runner = FakeRunner::new();
        let (mut ctl, _) = auto_controller_default(&runner);
        ctl.on_command(Command::SetAuto(true));
        for t in 0..5 { ctl.on_sample(&busy_at(f64::from(t))); }
        ctl.on_sample(&Sample { cpu_pkg_w: invalid, ..busy_at(5.0) });
        assert_eq!(ctl.status().cpu.unwrap().hold, Hold::DrawUnavailable);
        for t in 6..10 {
            ctl.on_sample(&busy_at(f64::from(t)));
            assert_eq!(ctl.status().cpu.unwrap().hold, Hold::DrawUnavailable);
        }
        ctl.on_sample(&busy_at(10.0));
        assert_ne!(ctl.status().cpu.unwrap().hold, Hold::DrawUnavailable);
    }
}

#[test]
fn review_gpu_first_clock_seeds_shadow_after_thermal_only_entry() {
    let runner = FakeRunner::new();
    let (mut ctl, _) = auto_controller_default(&runner);
    ctl.on_command(Command::SetAuto(true));
    ctl.on_sample(&Sample { gpu_mhz_valid: false, ..busy_at(0.0) });
    let gpu = ctl.status().gpu.unwrap();
    assert_eq!(gpu.shadow, gpu.thermal);
    ctl.on_sample(&busy_at(1.0));
    assert_eq!(ctl.status().gpu.unwrap().shadow, 1800.0 + ctl.config.shadow_headroom_gpu_mhz);
}

#[test]
fn review_upward_curve_restore_waits_for_mismatch_recovery() {
    let runner = FakeRunner::new();
    let (mut ctl, _) = auto_controller_default(&runner);
    ctl.on_command(Command::SetAuto(true));
    drive_curve(&mut ctl, 0.0, 25);
    let auto = ctl.c.auto.as_mut().unwrap();
    auto.cpu.device.transfer_thermal(n(30.0), n(0.0));
    auto.cpu.device.transfer_shadow(n(35.0));
    auto.cpu.facts.actuator = ActuatorState::Mismatch;
    auto.cpu.facts.last_write = Some(n(25.0));
    let higher: Vec<_> = TEMP_CURVE.iter().map(|(temp, duty)| (temp + 4.0, *duty)).collect();
    ctl.on_sample(&curve_sample(25.0, 75.0, 74.0, &higher));
    assert_eq!(ctl.cpu_thermal(), 30.0);
    ctl.c.auto.as_mut().unwrap().cpu.facts.actuator = ActuatorState::Verified;
    ctl.on_sample(&curve_sample(26.0, 75.0, 74.0, &higher));
    assert_eq!(ctl.cpu_thermal(), ctl.config.cpu_max_w);
}

#[test]
fn review_every_qualified_steady_tick_refines_and_updates_the_pair() {
    let runner = FakeRunner::new();
    let (mut ctl, _) = auto_controller_default(&runner);
    ctl.on_command(Command::SetAuto(true));
    for t in 0..=40 { ctl.on_sample(&rpm_view_sample(f64::from(t), 3000.0, "quiet16", 36, false)); }
    let first = ctl.duty_rpm_table.rpm_for_duty(36);
    assert_eq!(first, 3024.0);
    ctl.on_sample(&rpm_view_sample(41.0, 3000.0, "quiet16", 36, false));
    assert_eq!(ctl.duty_rpm_table.rpm_for_duty(36), 0.8 * first + 0.2 * 3000.0);
    let pair = ctl.warm(&warm_start_key("quiet16", 36, false)).expect("pair");
    assert_eq!(pair.0, ctl.status().cpu_limit_w.unwrap());
    assert_eq!(pair.1, ctl.status().gpu_max_mhz.unwrap());
}

#[test]
fn review_round2_low_cpu_warm_waits_for_five_valid_draws() {
    let runner = FakeRunner::new();
    let (mut ctl, _) = auto_controller_default(&runner);
    let duty = ctl.duty_rpm_table.duty_for_rpm(ctl.status().fan_target_rpm);
    ctl.insert_warm(warm_start_key("quiet16", duty, false), 15.0, 1000);
    ctl.on_command(Command::SetAuto(true));
    for t in 0..4 {
        ctl.on_sample(&Sample { cpu_pkg_w: 0.0, ..busy_at(f64::from(t)) });
        assert!(ctl.status().cpu.unwrap().thermal >= 50.0,
            "an unusable warm record must not lower thermal-only entry");
    }
    for t in 4..8 { ctl.on_sample(&busy_at(f64::from(t))); }
    ctl.on_sample(&busy_at(8.0));
    let cpu = ctl.status().cpu.unwrap();
    assert!(cpu.thermal >= 35.0 && cpu.shadow >= 35.0, "{cpu:?}");
    assert!(cpu.cap >= 35.0, "{cpu:?}");
    assert!(ctl.status().cpu_limit_w.is_some_and(|cap| cap >= 35.0));
}

#[test]
fn review_round2_low_gpu_warm_waits_for_first_clock() {
    let runner = FakeRunner::new();
    let (mut ctl, _) = auto_controller_default(&runner);
    let duty = ctl.duty_rpm_table.duty_for_rpm(ctl.status().fan_target_rpm);
    ctl.insert_warm(warm_start_key("quiet16", duty, false), 15.0, 1000);
    ctl.on_command(Command::SetAuto(true));
    for t in 0..4 {
        ctl.on_sample(&Sample { gpu_mhz_valid: false, ..busy_at(f64::from(t)) });
        assert!(ctl.status().gpu.unwrap().thermal >= 3000.0,
            "an unusable warm record must not lower thermal-only entry");
    }
    let before = ctl.status().gpu.unwrap().cap;
    ctl.on_sample(&busy_at(4.0));
    let gpu = ctl.status().gpu.unwrap();
    let entry_floor = 1800.0 + ctl.config.shadow_headroom_gpu_mhz;
    assert!(gpu.thermal >= entry_floor && gpu.shadow >= entry_floor, "{gpu:?}");
    assert!(gpu.cap >= entry_floor && (gpu.cap - before).abs() <= 105.0, "{gpu:?}");
}

#[test]
fn review_round2_failed_cpu_cadence_starts_at_completion() {
    let fake = ClockedWriteFailure::new();
    let runner = FakeRunner {
        blocked: Some(fake.clone()),
        ..FakeRunner::new()
    };
    let mut ctl = controller(&runner);
    let clock = Rc::clone(&fake.now);
    ctl.clock = Box::new(move || clock.get());
    ctl.on_command(Command::SetAuto(true));
    ctl.on_sample(&Sample {
        acquired_at: Some(0.0),
        ..busy_at(0.0)
    });
    assert_eq!(ctl.last_cpu_write(), Some(3.0));
    for t in [2.0_f64, 4.0] {
        fake.now.set(t.max(3.0));
        ctl.on_sample(&Sample {
            acquired_at: Some(t),
            ..busy_at(t)
        });
        assert_eq!(fake.attempts.get(), 1, "buffered sample must not retry");
    }
    fake.now.set(5.0);
    ctl.on_sample(&Sample {
        acquired_at: Some(5.0),
        ..busy_at(5.0)
    });
    assert_eq!(fake.attempts.get(), 2);
    assert_eq!(ctl.last_cpu_write(), Some(8.0));
    assert!(ctl.status().cpu_limit_w.is_none());

    // A cap from an earlier command may also be looked after.
    ctl.c.core.limits.cpu_limit_w = Some(n(40.0));
    fake.now.set(10.0);
    let reassert = Sample {
        acquired_at: Some(10.0),
        ..busy_at(10.0)
    };
    assert_eq!(ctl.reassert_actuators(&reassert), Some(false));
    ctl.c.core.watch.last_reassert = Some(n(10.0));
    assert_eq!(ctl.last_cpu_write(), Some(13.0));
    ctl.on_sample(&Sample {
        acquired_at: Some(12.0),
        ..busy_at(12.0)
    });
    assert_eq!(fake.attempts.get(), 3);
}

#[test]
fn review_round2_failed_gpu_cadence_starts_at_completion() {
    let fake = ClockedWriteFailure::new();
    let runner = FakeRunner::new();
    let (mut ctl, _) = auto_controller_default(&runner);
    let mut gpu = FakeGpu::new();
    gpu.blocked = Some(fake.clone());
    ctl.gpu = Some(gpu);
    let clock = Rc::clone(&fake.now);
    ctl.clock = Box::new(move || clock.get());
    ctl.on_command(Command::SetAuto(true));
    ctl.on_sample(&Sample {
        acquired_at: Some(0.0),
        ..busy_at(0.0)
    });
    assert_eq!(ctl.last_gpu_write(), Some(3.0));
    for t in [2.0_f64, 4.0] {
        fake.now.set(t.max(3.0));
        ctl.on_sample(&Sample {
            acquired_at: Some(t),
            ..busy_at(t)
        });
        assert_eq!(fake.attempts.get(), 1, "buffered sample must not retry");
    }
    fake.now.set(5.0);
    ctl.on_sample(&Sample {
        acquired_at: Some(5.0),
        ..busy_at(5.0)
    });
    assert_eq!(fake.attempts.get(), 2);
    assert_eq!(ctl.last_gpu_write(), Some(8.0));
    assert!(ctl.c.auto.as_ref().unwrap().gpu_commands.is_empty());
    assert!(ctl.status().gpu_max_mhz.is_none());

    ctl.c.core.limits.gpu_max_mhz = Some(2000);
    fake.now.set(10.0);
    let reassert = Sample {
        acquired_at: Some(10.0),
        ..busy_at(10.0)
    };
    assert_eq!(ctl.reassert_actuators(&reassert), Some(false));
    ctl.c.core.watch.last_reassert = Some(n(10.0));
    assert_eq!(ctl.last_gpu_write(), Some(13.0));
    ctl.on_sample(&Sample {
        acquired_at: Some(12.0),
        ..busy_at(12.0)
    });
    assert_eq!(fake.attempts.get(), 3);
    assert!(ctl.c.auto.as_ref().unwrap().gpu_commands.is_empty());
}

#[test]
fn test_diagnostics_reports_live_guard_and_verdict_state_without_status_changes() {
    let runner = FakeRunner::new();
    let (mut ctl, _) = auto_controller_default(&runner);
    assert!(ctl.c.auto.is_none());
    ctl.on_command(Command::SetAuto(true));
    let before = ctl.status();
    {
        let auto = ctl.c.auto.as_mut().expect("Auto state");
        assert_eq!(f(auto.cpu.ratchet.step(false, false, None)), ctl.config.cpu_max_w);
        assert_eq!(
            f(auto.gpu.ratchet.step(false, false, None)),
            f64::from(ctl.config.gpu_max_mhz)
        );
        assert_eq!(auto.cpu.facts.actuator, ActuatorState::Unverifiable);
        assert_eq!(auto.gpu.facts.actuator, ActuatorState::Unverifiable);
        assert_eq!(auto.cpu.facts.verdict.mismatch_streak, 0);
        assert_eq!(auto.gpu.facts.verdict.mismatch_streak, 0);
        assert!(!auto.cpu.facts.verdict.released && !auto.gpu.facts.verdict.released);
    }
    assert_eq!(ctl.status(), before, "diagnostic read changed public status");
}

#[test]
fn test_emitted_telemetry_flags_matches_decision_composition_without_mutation() {
    let runner = FakeRunner::new();
    let (mut ctl, _) = auto_controller_default(&runner);
    ctl.c.readout.telemetry_flags = vec![TelemetryFlag::Source(SourceFlag::SteepCurve)];
    ctl.c.board.flags = vec![StatusFlag::NotCalibrated];
    let before = ctl.status();
    let emitted = decision_telemetry_flags(&ctl.c.status());
    assert_eq!(emitted.len(), 2);
    assert!(matches!(emitted[0], TelemetryFlag::Source(SourceFlag::SteepCurve)));
    assert!(matches!(emitted[1], TelemetryFlag::Legacy(StatusFlag::NotCalibrated)));
    assert_eq!(ctl.status(), before, "flag composition changed public status");
}

#[test]
fn acknowledging_reports_the_flags_and_the_watchdog_and_nothing_else() {
    let runner = FakeRunner::new();
    let (mut ctl, _gpu_calls) = auto_controller_default(&runner);
    ctl.on_command(Command::SetAuto(true));
    ctl.on_sample(&busy_at(0.0));
    for t in 1..=3 {
        ctl.on_sample(&overheat_at(f64::from(t)));
    }
    assert_eq!(
        ctl.on_command(Command::SetCpuW(20.0)),
        vec![
            Effect::Flagged { flag: "thermal_emergency", active: false },
            Effect::StatusChanged { cause: "watchdog:rearmed" },
        ]
    );
    assert_eq!(ctl.status().mode, Mode::Monitor);
    assert_eq!(ctl.status().cpu_limit_w, None);
}

#[test]
fn nothing_is_left_to_report_between_two_calls() {
    let runner = FakeRunner::new();
    let (mut ctl, _gpu_calls) = auto_controller_default(&runner);
    assert!(ctl.c.board.pending.is_empty());
    ctl.on_command(Command::SetAuto(true));
    assert!(ctl.c.board.pending.is_empty());
    for t in 0..8 {
        ctl.on_sample(&busy_at(f64::from(t)));
        assert!(ctl.c.board.pending.is_empty());
    }
    for t in 8..12 {
        ctl.on_sample(&overheat_at(f64::from(t)));
        assert!(ctl.c.board.pending.is_empty());
    }
    ctl.on_command(Command::SetAuto(true));
    ctl.on_command(Command::ReleaseAll);
    assert!(ctl.c.board.pending.is_empty());
}

#[test]
fn a_hot_drive_only_reports_through_a_resume_and_an_emergency() {
    let cold_runner = FakeRunner::new();
    let (mut cold, cold_gpu) = auto_controller_default(&cold_runner);
    let hot_runner = FakeRunner::new();
    let (mut hot, hot_gpu) = auto_controller_default(&hot_runner);
    cold.on_command(Command::SetAuto(true));
    hot.on_command(Command::SetAuto(true));
    let mut raised = false;
    for i in 0..16 {
        let t = f64::from(i);
        let mut s = if i >= 12 { overheat_at(t) } else { busy_at(t) };
        s.resumed = i == 5;
        cold.on_sample(&s);
        s.nvme_temp_c = Some(85.0);
        hot.on_sample(&s);
        raised = raised || hot.status().flags.contains(&StatusFlag::NvmeHot);
        let (a, b) = (cold.status(), hot.status());
        assert_eq!(a.mode, b.mode);
        assert_eq!(a.cpu_limit_w, b.cpu_limit_w);
        assert_eq!(a.gpu_max_mhz, b.gpu_max_mhz);
        assert_eq!(a.tstar_state, b.tstar_state);
        assert_eq!(a.cpu.map(|r| r.cap), b.cpu.map(|r| r.cap));
        assert_eq!(a.gpu.map(|r| r.cap), b.gpu.map(|r| r.cap));
        let but_drive = |flags: &[StatusFlag]| -> Vec<StatusFlag> {
            flags.iter().copied().filter(|f| *f != StatusFlag::NvmeHot).collect()
        };
        assert_eq!(but_drive(&a.flags), but_drive(&b.flags));
    }
    assert!(raised);
    assert_eq!(cold.status().mode, Mode::Monitor);
    assert_eq!(ryzenadj_calls(&cold_runner), ryzenadj_calls(&hot_runner));
    assert_eq!(gpu_sets(&cold_gpu), gpu_sets(&hot_gpu));
}
