//! What the controller shows.

use crate::controller::board::Board;
use crate::controller::config::{equal_gains, same_gains};
use crate::controller::report::{Device, DeviceReport, TStarState, TelemetryFlag};
use crate::device_loop::{DeviceDecision, Gains};
use crate::num::{Num, ZERO};
use crate::status::{Mode, StatusFlag};
use vstd::prelude::*;

verus! {

/// How far a calibration is.
#[derive(Debug)]
pub struct CalibProgress {
    pub phase: String,
    /// Phases in all.
    pub total: u32,
    /// The rest, in words.
    pub detail: String,
}

/// A device's gains before and after a calibration.
#[derive(Clone, Copy, Debug)]
pub struct CalibGainChange {
    pub device: Device,
    pub before: Gains,
    pub after: Gains,
}

/// What a calibration came to.
#[derive(Debug)]
pub struct CalibOutcome {
    /// The gains in force as it began.
    pub retained_cpu: Option<Gains>,
    pub retained_gpu: Option<Gains>,
    pub changes: Vec<CalibGainChange>,
    pub notes: Vec<String>,
    pub errors: Vec<String>,
    /// Fitted gains are in use.
    pub applied: bool,
    /// They were written down.
    pub saved: bool,
}

/// The plain values that a closed-loop session shows.
#[derive(Clone, Copy, Debug)]
pub struct Gauges {
    pub t_star_c: Option<Num>,
    pub ec_ma_c: Option<Num>,
    pub duty_cmd: Option<u8>,
    pub snapped_rpm: Num,
    pub tstar_state: Option<TStarState>,
    pub cpu: Option<DeviceReport>,
    pub gpu: Option<DeviceReport>,
}

/// What a closed-loop session shows.
#[derive(Debug)]
pub struct Readout {
    pub gauges: Gauges,
    pub ec_argmax: Option<String>,
    pub strategy: Option<String>,
    pub telemetry_flags: Vec<TelemetryFlag>,
}

/// What the controller is doing.
#[derive(Debug)]
pub struct ControlStatus {
    pub mode: Mode,
    /// The CPU's commanded limit, W.
    pub cpu_limit_w: Option<Num>,
    /// The GPU's commanded maximum clock, MHz.
    pub gpu_max_mhz: Option<u32>,
    pub fan_target_rpm: Num,
    pub cpu_floor_w: Num,
    pub gpu_floor_mhz: u32,
    pub cpu_max_w: Num,
    /// Flags that are up.
    pub flags: Vec<StatusFlag>,
    /// There while a calibration runs.
    pub calib: Option<CalibProgress>,
    /// The last calibration's outcome, until it is dismissed.
    pub calib_outcome: Option<CalibOutcome>,
    /// The target temperature, °C.
    pub t_star_c: Option<Num>,
    /// The replica's moving average, °C.
    pub ec_ma_c: Option<Num>,
    /// The hottest sensor.
    pub ec_argmax: Option<String>,
    /// The fan daemon's duty that the target comes from, %.
    pub duty_cmd: Option<u8>,
    /// The fan speed at that duty, RPM; 0 without one.
    pub snapped_rpm: Num,
    /// The fan daemon's strategy.
    pub strategy: Option<String>,
    pub tstar_state: Option<TStarState>,
    /// The CPU loop's last decision.
    pub cpu: Option<DeviceReport>,
    /// The GPU loop's last decision.
    pub gpu: Option<DeviceReport>,
    /// Further diagnostics.
    pub telemetry_flags: Vec<TelemetryFlag>,
}

/// A [`CalibProgress`] as values.
pub struct ProgressView {
    pub phase: Seq<char>,
    pub total: u32,
    pub detail: Seq<char>,
}

/// A [`CalibOutcome`] as values.
#[verifier::ext_equal]
pub struct OutcomeView {
    pub retained_cpu: Option<Gains>,
    pub retained_gpu: Option<Gains>,
    pub changes: Seq<CalibGainChange>,
    pub notes: Seq<Seq<char>>,
    pub errors: Seq<Seq<char>>,
    pub applied: bool,
    pub saved: bool,
}

/// A [`TelemetryFlag`] as a value.
pub enum TelemetryView {
    Source(crate::controller::report::SourceFlag),
    GroupLost(Device),
    EcImplausible(Seq<char>),
    Legacy(StatusFlag),
}

/// A [`Readout`] as values.
#[verifier::ext_equal]
pub struct ReadoutView {
    pub gauges: Gauges,
    pub ec_argmax: Option<Seq<char>>,
    pub strategy: Option<Seq<char>>,
    pub telemetry: Seq<TelemetryView>,
}

/// The limits and bounds of a status.
#[derive(Clone, Copy, Debug)]
pub struct Limits {
    pub mode: Mode,
    pub cpu_limit_w: Option<Num>,
    pub gpu_max_mhz: Option<u32>,
    pub fan_target_rpm: Num,
    pub cpu_floor_w: Num,
    pub gpu_floor_mhz: u32,
    pub cpu_max_w: Num,
}

/// A [`ControlStatus`] as values.
#[verifier::ext_equal]
pub struct StatusView {
    pub limits: Limits,
    pub flags: Seq<StatusFlag>,
    pub calib: Option<ProgressView>,
    pub outcome: Option<OutcomeView>,
    pub readout: ReadoutView,
}

/// The texts of strings.
pub open spec fn texts(v: Seq<String>) -> Seq<Seq<char>> {
    Seq::new(v.len(), |i: int| v[i]@)
}

/// The text of a string that may not be there.
pub open spec fn text(s: Option<String>) -> Option<Seq<char>> {
    match s {
        Some(x) => Some(x@),
        None => None,
    }
}

impl View for TelemetryFlag {
    type V = TelemetryView;

    open spec fn view(&self) -> TelemetryView {
        match self {
            TelemetryFlag::Source(f) => TelemetryView::Source(*f),
            TelemetryFlag::GroupLost { device } => TelemetryView::GroupLost(*device),
            TelemetryFlag::EcImplausible { label } => TelemetryView::EcImplausible(label@),
            TelemetryFlag::Legacy(f) => TelemetryView::Legacy(*f),
        }
    }
}

/// Diagnostics as values.
pub open spec fn diagnostics(v: Seq<TelemetryFlag>) -> Seq<TelemetryView> {
    Seq::new(v.len(), |i: int| v[i]@)
}

impl View for CalibProgress {
    type V = ProgressView;

    open spec fn view(&self) -> ProgressView {
        ProgressView { phase: self.phase@, total: self.total, detail: self.detail@ }
    }
}

impl View for CalibOutcome {
    type V = OutcomeView;

    open spec fn view(&self) -> OutcomeView {
        OutcomeView {
            retained_cpu: self.retained_cpu,
            retained_gpu: self.retained_gpu,
            changes: self.changes@,
            notes: texts(self.notes@),
            errors: texts(self.errors@),
            applied: self.applied,
            saved: self.saved,
        }
    }
}

impl View for Readout {
    type V = ReadoutView;

    open spec fn view(&self) -> ReadoutView {
        ReadoutView {
            gauges: self.gauges,
            ec_argmax: text(self.ec_argmax),
            strategy: text(self.strategy),
            telemetry: diagnostics(self.telemetry_flags@),
        }
    }
}

/// A progress that may not be there, as values.
pub open spec fn progress(p: Option<CalibProgress>) -> Option<ProgressView> {
    match p {
        Some(x) => Some(x@),
        None => None,
    }
}

/// An outcome that may not be there, as values.
pub open spec fn outcome(o: Option<CalibOutcome>) -> Option<OutcomeView> {
    match o {
        Some(x) => Some(x@),
        None => None,
    }
}

impl View for ControlStatus {
    type V = StatusView;

    open spec fn view(&self) -> StatusView {
        StatusView {
            limits: Limits {
                mode: self.mode,
                cpu_limit_w: self.cpu_limit_w,
                gpu_max_mhz: self.gpu_max_mhz,
                fan_target_rpm: self.fan_target_rpm,
                cpu_floor_w: self.cpu_floor_w,
                gpu_floor_mhz: self.gpu_floor_mhz,
                cpu_max_w: self.cpu_max_w,
            },
            flags: self.flags@,
            calib: progress(self.calib),
            outcome: outcome(self.calib_outcome),
            readout: ReadoutView {
                gauges: Gauges {
                    t_star_c: self.t_star_c,
                    ec_ma_c: self.ec_ma_c,
                    duty_cmd: self.duty_cmd,
                    snapped_rpm: self.snapped_rpm,
                    tstar_state: self.tstar_state,
                    cpu: self.cpu,
                    gpu: self.gpu,
                },
                ec_argmax: text(self.ec_argmax),
                strategy: text(self.strategy),
                telemetry: diagnostics(self.telemetry_flags@),
            },
        }
    }
}

/// The numbers are equal, or both missing.
pub open spec fn same_num(a: Option<Num>, b: Option<Num>) -> bool {
    match (a, b) {
        (Some(x), Some(y)) => x.same(y),
        (None, None) => true,
        _ => false,
    }
}

fn equal_num(a: Option<Num>, b: Option<Num>) -> (r: bool)
    ensures
        r == same_num(a, b),
{
    match (a, b) {
        (Some(x), Some(y)) => x == y,
        (None, None) => true,
        _ => false,
    }
}

/// The decisions are equal.
#[verifier::opaque]
pub open spec fn same_decision(a: DeviceDecision, b: DeviceDecision) -> bool {
    &&& a.t_star.same(b.t_star)
    &&& same_num(a.group_c, b.group_c)
    &&& same_num(a.err_c, b.err_c)
    &&& a.thermal.same(b.thermal)
    &&& a.shadow.same(b.shadow)
    &&& a.cap.same(b.cap)
    &&& a.selected == b.selected
    &&& a.hold == b.hold
    &&& a.write_allowed == b.write_allowed
    &&& a.group_lost == b.group_lost
    &&& a.write_immediately == b.write_immediately
}

fn equal_decision(a: &DeviceDecision, b: &DeviceDecision) -> (r: bool)
    ensures
        r == same_decision(*a, *b),
{
    proof {
        reveal(same_decision);
    }
    a.t_star == b.t_star && equal_num(a.group_c, b.group_c) && equal_num(a.err_c, b.err_c)
        && a.thermal == b.thermal && a.shadow == b.shadow && a.cap == b.cap && a.selected
        == b.selected && a.hold == b.hold && a.write_allowed == b.write_allowed && a.group_lost
        == b.group_lost && a.write_immediately == b.write_immediately
}

/// The reports are equal, or both missing.
pub open spec fn same_report(a: Option<DeviceReport>, b: Option<DeviceReport>) -> bool {
    match (a, b) {
        (Some(x), Some(y)) => same_decision(x.decision, y.decision) && x.gains_source
            == y.gains_source,
        (None, None) => true,
        _ => false,
    }
}

fn equal_report(a: &Option<DeviceReport>, b: &Option<DeviceReport>) -> (r: bool)
    ensures
        r == same_report(*a, *b),
{
    match (a, b) {
        (Some(x), Some(y)) => equal_decision(&x.decision, &y.decision) && x.gains_source
            == y.gains_source,
        (None, None) => true,
        _ => false,
    }
}

impl Gauges {
    /// Every value equal.
    #[verifier::opaque]
    pub open spec fn agrees(self, o: Gauges) -> bool {
        &&& same_num(self.t_star_c, o.t_star_c)
        &&& same_num(self.ec_ma_c, o.ec_ma_c)
        &&& self.duty_cmd == o.duty_cmd
        &&& self.snapped_rpm.same(o.snapped_rpm)
        &&& self.tstar_state == o.tstar_state
        &&& same_report(self.cpu, o.cpu)
        &&& same_report(self.gpu, o.gpu)
    }

    fn agrees_with(&self, o: &Gauges) -> (r: bool)
        ensures
            r == self.agrees(*o),
    {
        proof {
            reveal(Gauges::agrees);
        }
        equal_num(self.t_star_c, o.t_star_c) && equal_num(self.ec_ma_c, o.ec_ma_c)
            && self.duty_cmd == o.duty_cmd && self.snapped_rpm == o.snapped_rpm
            && self.tstar_state == o.tstar_state && equal_report(&self.cpu, &o.cpu)
            && equal_report(&self.gpu, &o.gpu)
    }
}

impl Limits {
    /// Every value equal.
    #[verifier::opaque]
    pub open spec fn agrees(self, o: Limits) -> bool {
        &&& self.mode == o.mode
        &&& same_num(self.cpu_limit_w, o.cpu_limit_w)
        &&& self.gpu_max_mhz == o.gpu_max_mhz
        &&& self.fan_target_rpm.same(o.fan_target_rpm)
        &&& self.cpu_floor_w.same(o.cpu_floor_w)
        &&& self.gpu_floor_mhz == o.gpu_floor_mhz
        &&& self.cpu_max_w.same(o.cpu_max_w)
    }

    fn agrees_with(&self, o: &Limits) -> (r: bool)
        ensures
            r == self.agrees(*o),
    {
        proof {
            reveal(Limits::agrees);
        }
        self.mode == o.mode && equal_num(self.cpu_limit_w, o.cpu_limit_w) && self.gpu_max_mhz
            == o.gpu_max_mhz && self.fan_target_rpm == o.fan_target_rpm && self.cpu_floor_w
            == o.cpu_floor_w && self.gpu_floor_mhz == o.gpu_floor_mhz && self.cpu_max_w
            == o.cpu_max_w
    }
}

/// The changes are equal.
pub open spec fn same_change(a: CalibGainChange, b: CalibGainChange) -> bool {
    a.device == b.device && same_gains(Some(a.before), Some(b.before)) && same_gains(
        Some(a.after),
        Some(b.after),
    )
}

/// The lists of changes are equal.
pub open spec fn same_changes(a: Seq<CalibGainChange>, b: Seq<CalibGainChange>) -> bool {
    a.len() == b.len() && forall|i: int|
        #![trigger a[i], b[i]]
        0 <= i < a.len() ==> same_change(a[i], b[i])
}

fn equal_changes(a: &Vec<CalibGainChange>, b: &Vec<CalibGainChange>) -> (r: bool)
    ensures
        r == same_changes(a@, b@),
{
    if a.len() != b.len() {
        return false;
    }
    let mut i: usize = 0;
    while i < a.len()
        invariant
            i <= a@.len(),
            a@.len() == b@.len(),
            forall|j: int| #![trigger a@[j], b@[j]] 0 <= j < i ==> same_change(a@[j], b@[j]),
        decreases a@.len() - i,
    {
        let (x, y) = (a[i], b[i]);
        if x.device != y.device || !equal_gains(Some(x.before), Some(y.before)) || !equal_gains(
            Some(x.after),
            Some(y.after),
        ) {
            assert(!same_change(a@[i as int], b@[i as int]));
            return false;
        }
        i += 1;
    }
    true
}

fn equal_texts(a: &Vec<String>, b: &Vec<String>) -> (r: bool)
    ensures
        r == (texts(a@) == texts(b@)),
{
    if a.len() != b.len() {
        assert(texts(a@).len() != texts(b@).len());
        return false;
    }
    let mut i: usize = 0;
    while i < a.len()
        invariant
            i <= a@.len(),
            a@.len() == b@.len(),
            forall|j: int| #![trigger a@[j], b@[j]] 0 <= j < i ==> a@[j]@ == b@[j]@,
        decreases a@.len() - i,
    {
        if a[i] != b[i] {
            assert(texts(a@)[i as int] != texts(b@)[i as int]);
            return false;
        }
        i += 1;
    }
    assert(texts(a@) =~= texts(b@));
    true
}

fn equal_text(a: &Option<String>, b: &Option<String>) -> (r: bool)
    ensures
        r == (text(*a) == text(*b)),
{
    match (a, b) {
        (Some(x), Some(y)) => *x == *y,
        (None, None) => true,
        _ => false,
    }
}

fn equal_flag(a: &TelemetryFlag, b: &TelemetryFlag) -> (r: bool)
    ensures
        r == (a@ == b@),
{
    match (a, b) {
        (TelemetryFlag::Source(x), TelemetryFlag::Source(y)) => *x == *y,
        (
            TelemetryFlag::GroupLost { device: x },
            TelemetryFlag::GroupLost { device: y },
        ) => *x == *y,
        (
            TelemetryFlag::EcImplausible { label: x },
            TelemetryFlag::EcImplausible { label: y },
        ) => *x == *y,
        (TelemetryFlag::Legacy(x), TelemetryFlag::Legacy(y)) => *x == *y,
        _ => false,
    }
}

fn equal_diagnostics(a: &Vec<TelemetryFlag>, b: &Vec<TelemetryFlag>) -> (r: bool)
    ensures
        r == (diagnostics(a@) == diagnostics(b@)),
{
    if a.len() != b.len() {
        assert(diagnostics(a@).len() != diagnostics(b@).len());
        return false;
    }
    let mut i: usize = 0;
    while i < a.len()
        invariant
            i <= a@.len(),
            a@.len() == b@.len(),
            forall|j: int| #![trigger a@[j], b@[j]] 0 <= j < i ==> a@[j]@ == b@[j]@,
        decreases a@.len() - i,
    {
        if !equal_flag(&a[i], &b[i]) {
            assert(diagnostics(a@)[i as int] != diagnostics(b@)[i as int]);
            return false;
        }
        i += 1;
    }
    assert(diagnostics(a@) =~= diagnostics(b@));
    true
}

fn equal_flags(a: &Vec<StatusFlag>, b: &Vec<StatusFlag>) -> (r: bool)
    ensures
        r == (a@ == b@),
{
    if a.len() != b.len() {
        return false;
    }
    let mut i: usize = 0;
    while i < a.len()
        invariant
            i <= a@.len(),
            a@.len() == b@.len(),
            forall|j: int| #![trigger a@[j], b@[j]] 0 <= j < i ==> a@[j] == b@[j],
        decreases a@.len() - i,
    {
        if a[i] != b[i] {
            return false;
        }
        i += 1;
    }
    assert(a@ =~= b@);
    true
}

impl OutcomeView {
    /// Every value equal.
    pub open spec fn agrees(self, o: OutcomeView) -> bool {
        &&& same_gains(self.retained_cpu, o.retained_cpu)
        &&& same_gains(self.retained_gpu, o.retained_gpu)
        &&& same_changes(self.changes, o.changes)
        &&& self.notes == o.notes
        &&& self.errors == o.errors
        &&& self.applied == o.applied
        &&& self.saved == o.saved
    }
}

/// The outcomes are equal, or both missing.
#[verifier::opaque]
pub open spec fn same_outcome(a: Option<OutcomeView>, b: Option<OutcomeView>) -> bool {
    match (a, b) {
        (Some(x), Some(y)) => x.agrees(y),
        (None, None) => true,
        _ => false,
    }
}

fn equal_outcome(a: &Option<CalibOutcome>, b: &Option<CalibOutcome>) -> (r: bool)
    ensures
        r == same_outcome(outcome(*a), outcome(*b)),
{
    proof {
        reveal(same_outcome);
    }
    match (a, b) {
        (Some(x), Some(y)) => {
            equal_gains(x.retained_cpu, y.retained_cpu) && equal_gains(
                x.retained_gpu,
                y.retained_gpu,
            ) && equal_changes(&x.changes, &y.changes) && equal_texts(&x.notes, &y.notes)
                && equal_texts(&x.errors, &y.errors) && x.applied == y.applied && x.saved
                == y.saved
        },
        (None, None) => true,
        _ => false,
    }
}

fn equal_progress(a: &Option<CalibProgress>, b: &Option<CalibProgress>) -> (r: bool)
    ensures
        r == (progress(*a) == progress(*b)),
{
    match (a, b) {
        (Some(x), Some(y)) => x.phase == y.phase && x.total == y.total && x.detail == y.detail,
        (None, None) => true,
        _ => false,
    }
}

impl ReadoutView {
    /// Nothing to show.
    pub open spec fn blank() -> ReadoutView {
        ReadoutView {
            gauges: Gauges {
                t_star_c: None,
                ec_ma_c: None,
                duty_cmd: None,
                snapped_rpm: Num(ZERO),
                tstar_state: None,
                cpu: None,
                gpu: None,
            },
            ec_argmax: None,
            strategy: None,
            telemetry: Seq::empty(),
        }
    }

    /// Without the decisions and diagnostics of a session.
    pub open spec fn undecided(self) -> ReadoutView {
        ReadoutView {
            gauges: Gauges { tstar_state: None, cpu: None, gpu: None, ..self.gauges },
            telemetry: Seq::empty(),
            ..self
        }
    }
}

impl Readout {
    /// Nothing to show.
    pub fn blank() -> (r: Readout)
        ensures
            r@ == ReadoutView::blank(),
    {
        Readout {
            gauges: Gauges {
                t_star_c: None,
                ec_ma_c: None,
                duty_cmd: None,
                snapped_rpm: Num(ZERO),
                tstar_state: None,
                cpu: None,
                gpu: None,
            },
            ec_argmax: None,
            strategy: None,
            telemetry_flags: Vec::new(),
        }
    }

    /// Takes the decisions and diagnostics down.
    pub fn clear_decisions(&mut self)
        ensures
            final(self)@ == old(self)@.undecided(),
    {
        self.gauges = Gauges { tstar_state: None, cpu: None, gpu: None, ..self.gauges };
        self.telemetry_flags.clear();
    }
}

impl StatusView {
    /// The statuses are equal: a number that is none equals nothing.
    #[verifier::opaque]
    pub open spec fn agrees(self, o: StatusView) -> bool {
        &&& self.limits.agrees(o.limits)
        &&& self.flags == o.flags
        &&& self.calib == o.calib
        &&& same_outcome(self.outcome, o.outcome)
        &&& self.readout.gauges.agrees(o.readout.gauges)
        &&& self.readout.ec_argmax == o.readout.ec_argmax
        &&& self.readout.strategy == o.readout.strategy
        &&& self.readout.telemetry == o.readout.telemetry
    }
}

impl ControlStatus {
    fn limits(&self) -> (r: Limits)
        ensures
            r == self@.limits,
    {
        Limits {
            mode: self.mode,
            cpu_limit_w: self.cpu_limit_w,
            gpu_max_mhz: self.gpu_max_mhz,
            fan_target_rpm: self.fan_target_rpm,
            cpu_floor_w: self.cpu_floor_w,
            gpu_floor_mhz: self.gpu_floor_mhz,
            cpu_max_w: self.cpu_max_w,
        }
    }

    fn gauges(&self) -> (r: Gauges)
        ensures
            r == self@.readout.gauges,
    {
        Gauges {
            t_star_c: self.t_star_c,
            ec_ma_c: self.ec_ma_c,
            duty_cmd: self.duty_cmd,
            snapped_rpm: self.snapped_rpm,
            tstar_state: self.tstar_state,
            cpu: self.cpu,
            gpu: self.gpu,
        }
    }

    /// Whether the statuses are equal.
    pub fn agrees_with(&self, o: &ControlStatus) -> (r: bool)
        ensures
            r == self@.agrees(o@),
    {
        proof {
            reveal(StatusView::agrees);
        }
        self.limits().agrees_with(&o.limits()) && equal_flags(&self.flags, &o.flags)
            && equal_progress(&self.calib, &o.calib) && equal_outcome(
            &self.calib_outcome,
            &o.calib_outcome,
        ) && self.gauges().agrees_with(&o.gauges()) && equal_text(&self.ec_argmax, &o.ec_argmax)
            && equal_text(&self.strategy, &o.strategy) && equal_diagnostics(
            &self.telemetry_flags,
            &o.telemetry_flags,
        )
    }
}

fn copy_text(s: &Option<String>) -> (r: Option<String>)
    ensures
        text(r) == text(*s),
{
    match s {
        Some(x) => Some(x.clone()),
        None => None,
    }
}

fn copy_texts(v: &Vec<String>) -> (r: Vec<String>)
    ensures
        texts(r@) == texts(v@),
{
    let mut out: Vec<String> = Vec::new();
    let mut i: usize = 0;
    while i < v.len()
        invariant
            i <= v@.len(),
            out@.len() == i,
            forall|j: int| #![trigger out@[j], v@[j]] 0 <= j < i ==> out@[j]@ == v@[j]@,
        decreases v@.len() - i,
    {
        out.push(v[i].clone());
        i += 1;
    }
    assert(texts(out@) =~= texts(v@));
    out
}

pub(crate) fn copy_diagnostics(v: &Vec<TelemetryFlag>) -> (r: Vec<TelemetryFlag>)
    ensures
        diagnostics(r@) == diagnostics(v@),
{
    let mut out: Vec<TelemetryFlag> = Vec::new();
    let mut i: usize = 0;
    while i < v.len()
        invariant
            i <= v@.len(),
            out@.len() == i,
            forall|j: int| #![trigger out@[j], v@[j]] 0 <= j < i ==> out@[j]@ == v@[j]@,
        decreases v@.len() - i,
    {
        let flag = match &v[i] {
            TelemetryFlag::Source(f) => TelemetryFlag::Source(*f),
            TelemetryFlag::GroupLost { device } => TelemetryFlag::GroupLost { device: *device },
            TelemetryFlag::EcImplausible { label } => TelemetryFlag::EcImplausible {
                label: label.clone(),
            },
            TelemetryFlag::Legacy(f) => TelemetryFlag::Legacy(*f),
        };
        out.push(flag);
        i += 1;
    }
    assert(diagnostics(out@) =~= diagnostics(v@));
    out
}

fn copy_changes(v: &Vec<CalibGainChange>) -> (r: Vec<CalibGainChange>)
    ensures
        r@ == v@,
{
    let mut out: Vec<CalibGainChange> = Vec::new();
    let mut i: usize = 0;
    while i < v.len()
        invariant
            i <= v@.len(),
            out@ == v@.take(i as int),
        decreases v@.len() - i,
    {
        out.push(v[i]);
        assert(v@.take(i + 1) =~= v@.take(i as int).push(v@[i as int]));
        i += 1;
    }
    assert(v@.take(v@.len() as int) =~= v@);
    out
}

fn copy_flags(v: &Vec<StatusFlag>) -> (r: Vec<StatusFlag>)
    ensures
        r@ == v@,
{
    let mut out: Vec<StatusFlag> = Vec::new();
    let mut i: usize = 0;
    while i < v.len()
        invariant
            i <= v@.len(),
            out@ == v@.take(i as int),
        decreases v@.len() - i,
    {
        out.push(v[i]);
        assert(v@.take(i + 1) =~= v@.take(i as int).push(v@[i as int]));
        i += 1;
    }
    assert(v@.take(v@.len() as int) =~= v@);
    out
}

fn copy_progress(p: &Option<CalibProgress>) -> (r: Option<CalibProgress>)
    ensures
        progress(r) == progress(*p),
{
    match p {
        Some(x) => Some(
            CalibProgress { phase: x.phase.clone(), total: x.total, detail: x.detail.clone() },
        ),
        None => None,
    }
}

fn copy_outcome(o: &Option<CalibOutcome>) -> (r: Option<CalibOutcome>)
    ensures
        outcome(r) == outcome(*o),
{
    match o {
        Some(x) => Some(
            CalibOutcome {
                retained_cpu: x.retained_cpu,
                retained_gpu: x.retained_gpu,
                changes: copy_changes(&x.changes),
                notes: copy_texts(&x.notes),
                errors: copy_texts(&x.errors),
                applied: x.applied,
                saved: x.saved,
            },
        ),
        None => None,
    }
}

/// A status from its parts.
pub fn compose(
    limits: Limits,
    board: &Board,
    calib: &Option<CalibProgress>,
    calib_outcome: &Option<CalibOutcome>,
    readout: &Readout,
) -> (r: ControlStatus)
    ensures
        r@ == (StatusView {
            limits,
            flags: board@.flags,
            calib: progress(*calib),
            outcome: outcome(*calib_outcome),
            readout: readout@,
        }),
{
    ControlStatus {
        mode: limits.mode,
        cpu_limit_w: limits.cpu_limit_w,
        gpu_max_mhz: limits.gpu_max_mhz,
        fan_target_rpm: limits.fan_target_rpm,
        cpu_floor_w: limits.cpu_floor_w,
        gpu_floor_mhz: limits.gpu_floor_mhz,
        cpu_max_w: limits.cpu_max_w,
        flags: copy_flags(&board.flags),
        calib: copy_progress(calib),
        calib_outcome: copy_outcome(calib_outcome),
        t_star_c: readout.gauges.t_star_c,
        ec_ma_c: readout.gauges.ec_ma_c,
        ec_argmax: copy_text(&readout.ec_argmax),
        duty_cmd: readout.gauges.duty_cmd,
        snapped_rpm: readout.gauges.snapped_rpm,
        strategy: copy_text(&readout.strategy),
        tstar_state: readout.gauges.tstar_state,
        cpu: readout.gauges.cpu,
        gpu: readout.gauges.gpu,
        telemetry_flags: copy_diagnostics(&readout.telemetry_flags),
    }
}

/// The diagnostics of a decision record: those of the session, then the plain
/// flags in their order.
pub open spec fn decision_flags(s: StatusView) -> Seq<TelemetryView> {
    s.readout.telemetry + Seq::new(
        s.flags.len(),
        |i: int| TelemetryView::Legacy(s.flags[i]),
    )
}

/// The diagnostics of a decision record.
pub fn decision_telemetry_flags(status: &ControlStatus) -> (r: Vec<TelemetryFlag>)
    ensures
        diagnostics(r@) == decision_flags(status@),
{
    let mut out = copy_diagnostics(&status.telemetry_flags);
    let ghost n = out@.len();
    assert(diagnostics(out@).len() == n);
    let mut i: usize = 0;
    while i < status.flags.len()
        invariant
            i <= status.flags@.len(),
            n == status.telemetry_flags@.len(),
            out@.len() == n + i,
            forall|j: int|
                0 <= j < n ==> (#[trigger] out@[j])@ == diagnostics(status.telemetry_flags@)[j],
            forall|j: int|
                n <= j < n + i ==> (#[trigger] out@[j])@ == TelemetryView::Legacy(
                    status.flags@[j - n],
                ),
        decreases status.flags@.len() - i,
    {
        out.push(TelemetryFlag::Legacy(status.flags[i]));
        i += 1;
    }
    assert(diagnostics(out@) =~= decision_flags(status@));
    out
}

} // verus!
