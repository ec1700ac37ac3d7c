//! How a closed-loop session takes a sample in, up to the request to the
//! target's source.

use crate::controller::auto::{
    AutoState, AutoView, Session, LONE_LEAD_C, NO_RUNNER_UP, ON_AC_EDGE_SUPPRESS_S,
    RECONCILIATION_BAND_C, RECONCILIATION_SKIP_GAP_S, RECONCILIATION_SKIP_SLOPE_C_PER_S,
};
use crate::controller::config::Config;
use crate::controller::lane::{GainsSource, LaneView};
use crate::controller::windows::{slope, slope_of, EC_SLOPE_WINDOW_S};
use crate::device_loop::{default_gains, imc_gains, DeviceUnit, Gains, Hold, LoopState, Mhz, W};
use crate::num::{Num, ZERO};
use crate::table::{entry, Table};
use crate::text::{append_decimal, decimal};
use crate::types::{EcGroup, EcReading, EcSensor, FanctrlView, Freshness, Sample};
use std::collections::VecDeque;
use vstd::prelude::*;

verus! {

/// What the replica of the fan daemon's average starts over from.
#[derive(Clone, Copy, Debug)]
pub struct ReplicaSeed {
    pub ma_c: Option<Num>,
    pub cpu_group_c: Option<Num>,
    pub gpu_group_c: Option<Num>,
}

/// What is to be done to the replica before it takes a sample in, in this
/// order.
#[derive(Clone, Copy, Debug, PartialEq, Eq, Structural)]
pub struct ReplicaOrders {
    /// Start over, because the machine resumed.
    pub resume_reset: bool,
    /// Average over this many samples.
    pub interval: Option<u32>,
    /// Start over from the first fresh view.
    pub entry_reset: bool,
}

/// What the replica is told of a view.
#[derive(Clone, Copy, Debug)]
pub enum ReconciliationObservation {
    /// Nothing: there is no new view, or no fair comparison.
    Skipped,
    Scored {
        /// The maxima agree.
        max_matches: bool,
        /// The averages agree, if there is a local one.
        ma_matches: Option<bool>,
        /// The view's average, °C.
        socket_ma: Num,
    },
}

/// How much is known of a sensor.
#[derive(Clone, Copy, Debug, PartialEq, Eq, Structural)]
pub enum SensorClass {
    Controllable,
    KnownUncontrollable,
    Unknown,
}

/// What the target's source is asked in one sample, besides what the sample
/// and the configuration say.
#[derive(Clone, Copy, Debug)]
pub struct SourceRequest {
    /// The source is to be made first.
    pub begins: bool,
    /// A recorded target may seed it: the view is fresh.
    pub may_qualify: bool,
    /// A recorded target may not lie above, °C.
    pub seed_max_c: Num,
    pub dt_s: Num,
    pub fresh_view: bool,
    pub replica_reconciled: bool,
    pub requested_rpm: u32,
    pub fan_rpm: Option<Num>,
    pub cpu_hold: Hold,
    pub gpu_hold: Hold,
    pub cpu_group_c: Option<Num>,
    pub gpu_group_c: Option<Num>,
    /// How far the hottest sensor leads, °C.
    pub argmax_lead_c: Num,
}

/// The key of a strategy and a moving-average interval.
pub open spec fn gain_key(strategy: Seq<char>, ma_interval: u32) -> Seq<char> {
    strategy + ":"@ + decimal(ma_interval as nat)
}

/// `strategy:interval`.
pub fn gains_key(strategy: &String, ma_interval: u32) -> (r: String)
    ensures
        r@ == gain_key(strategy@, ma_interval),
{
    let mut key = strategy.clone();
    key.append(":");
    append_decimal(&mut key, ma_interval as u64);
    key
}

/// A device's gains under a view: configured, else fitted, else the plant's.
pub open spec fn resolved_gains<U: DeviceUnit>(
    configured: Option<Gains>,
    fitted: Option<Gains>,
    ma_interval: u32,
) -> (Gains, GainsSource) {
    match (configured, fitted) {
        (Some(g), _) => (g, GainsSource::Config),
        (None, Some(g)) => (g, GainsSource::Fitted),
        (None, None) => (imc_gains(U::plant(), ma_interval), GainsSource::Default),
    }
}

/// A device's gains under a view.
pub fn resolve_gains<U: DeviceUnit>(
    configured: Option<Gains>,
    fitted: Option<Gains>,
    ma_interval: u32,
) -> (r: (Gains, GainsSource))
    ensures
        r.0 == resolved_gains::<U>(configured, fitted, ma_interval).0,
        r.1 == resolved_gains::<U>(configured, fitted, ma_interval).1,
{
    match (configured, fitted) {
        (Some(gains), _) => (gains, GainsSource::Config),
        (None, Some(gains)) => (gains, GainsSource::Fitted),
        (None, None) => (default_gains::<U>(ma_interval), GainsSource::Default),
    }
}

/// Time since the sample before; nothing if the clock did not move forward.
#[verifier::opaque]
pub open spec fn step_of(last: Option<Num>, t_mono: Num) -> Num {
    match last {
        Some(l) => if t_mono.minus(l).finite() && Num(ZERO).lt(t_mono.minus(l)) {
            t_mono.minus(l)
        } else {
            Num(ZERO)
        },
        None => Num(ZERO),
    }
}

fn time_step(last: Option<Num>, t_mono: Num) -> (r: Num)
    ensures
        r == step_of(last, t_mono),
{
    proof {
        reveal(step_of);
    }
    match last {
        Some(l) => {
            let delta = t_mono - l;
            if delta.is_finite() && delta > Num(ZERO) {
                delta
            } else {
                Num(ZERO)
            }
        },
        None => Num(ZERO),
    }
}

/// A sample's seed for the replica.
pub open spec fn seed_of(s: Sample) -> ReplicaSeed {
    ReplicaSeed {
        ma_c: match s.fanctrl {
            Some(v) => Some(v.ma_temperature),
            None => None,
        },
        cpu_group_c: match s.ec {
            Some(ec) => ec.cpu_group_c,
            None => None,
        },
        gpu_group_c: match s.ec {
            Some(ec) => ec.gpu_group_c,
            None => None,
        },
    }
}

/// A sample's seed for the replica.
pub fn replica_seed(s: &Sample) -> (r: ReplicaSeed)
    ensures
        r == seed_of(*s),
{
    let ma_c = match &s.fanctrl {
        Some(view) => Some(view.ma_temperature),
        None => None,
    };
    match &s.ec {
        Some(ec) => ReplicaSeed { ma_c, cpu_group_c: ec.cpu_group_c, gpu_group_c: ec.gpu_group_c },
        None => ReplicaSeed { ma_c, cpu_group_c: None, gpu_group_c: None },
    }
}

/// A window of the controller's maximum after a reading: the oldest goes once
/// it is full, whether or not there is a new maximum to take in.
#[verifier::opaque]
pub open spec fn traced(w: Seq<Num>, raw_max: Option<Num>) -> Seq<Num> {
    let room = if w.len() >= EC_SLOPE_WINDOW_S {
        w.drop_first()
    } else {
        w
    };
    match raw_max {
        Some(x) => room.push(x),
        None => room,
    }
}

pub(crate) fn trace(w: &mut VecDeque<Num>, raw_max: Option<Num>)
    ensures
        final(w)@ == traced(old(w)@, raw_max),
{
    proof {
        reveal(traced);
    }
    if w.len() >= EC_SLOPE_WINDOW_S {
        let _ = w.pop_front();
    }
    if let Some(x) = raw_max {
        w.push_back(x);
    }
}

/// The numbers lie within the band of each other.
pub open spec fn close(a: Num, b: Num) -> bool {
    a.minus(b).size().le(Num(RECONCILIATION_BAND_C))
}

fn is_close(a: Num, b: Num) -> (r: bool)
    ensures
        r == close(a, b),
{
    (a - b).abs() <= Num(RECONCILIATION_BAND_C)
}

/// A new, fresh view and a reading to hold against each other.
pub open spec fn comparable(s: Sample) -> bool {
    s.fanctrl is Some && s.ec is Some && s.fanctrl_freshness == Freshness::Fresh
        && s.fanctrl_view_changed
}

/// What the replica is told of a sample's view: only a new, fresh one is
/// held against the local readings, and only while these do not rise fast and
/// the view is not old.
#[verifier::opaque]
pub open spec fn observation_of(s: Sample, rise: Num, gap_s: Num, ma: Option<Num>) -> ReconciliationObservation {
    if !comparable(s) || Num(RECONCILIATION_SKIP_SLOPE_C_PER_S).le(rise) || Num(
        RECONCILIATION_SKIP_GAP_S,
    ).le(gap_s) {
        ReconciliationObservation::Skipped
    } else {
        let view = s.fanctrl->0;
        let ec = s.ec->0;
        ReconciliationObservation::Scored {
            max_matches: ec.reconciliation_max_c matches Some(m) && close(m, view.temperature),
            ma_matches: match ma {
                Some(m) => Some(close(m, view.ma_temperature)),
                None => None,
            },
            socket_ma: view.ma_temperature,
        }
    }
}

/// What the replica is told of a sample's view.
pub fn reconcile(s: &Sample, rise: Num, gap_s: Num, ma: Option<Num>) -> (r: ReconciliationObservation)
    ensures
        r == observation_of(*s, rise, gap_s, ma),
{
    proof {
        reveal(observation_of);
    }
    match (&s.fanctrl, &s.ec) {
        (Some(view), Some(ec)) if s.fanctrl_freshness == Freshness::Fresh
            && s.fanctrl_view_changed => {
            if rise >= Num(RECONCILIATION_SKIP_SLOPE_C_PER_S) || gap_s >= Num(
                RECONCILIATION_SKIP_GAP_S,
            ) {
                ReconciliationObservation::Skipped
            } else {
                let max_matches = match ec.reconciliation_max_c {
                    Some(raw_max) => is_close(raw_max, view.temperature),
                    None => false,
                };
                let ma_matches = match ma {
                    Some(m) => Some(is_close(m, view.ma_temperature)),
                    None => None,
                };
                ReconciliationObservation::Scored {
                    max_matches,
                    ma_matches,
                    socket_ma: view.ma_temperature,
                }
            }
        },
        _ => ReconciliationObservation::Skipped,
    }
}

/// How much is known of a sensor of a group.
pub fn sensor_class(group: EcGroup) -> (r: SensorClass)
    ensures
        r == (match group {
            EcGroup::Cpu | EcGroup::Gpu => SensorClass::Controllable,
            EcGroup::Uncontrollable => SensorClass::KnownUncontrollable,
            EcGroup::Unknown => SensorClass::Unknown,
        }),
{
    match group {
        EcGroup::Cpu | EcGroup::Gpu => SensorClass::Controllable,
        EcGroup::Uncontrollable => SensorClass::KnownUncontrollable,
        EcGroup::Unknown => SensorClass::Unknown,
    }
}

/// The temperature of the first sensor with a label, from the `i`-th on.
pub open spec fn labelled(all: Seq<EcSensor>, label: Seq<char>, i: int) -> Option<Num>
    decreases all.len() - i,
{
    if i < 0 || i >= all.len() {
        None
    } else if all[i].label@ == label {
        Some(all[i].c)
    } else {
        labelled(all, label, i + 1)
    }
}

/// The hottest of the sensors without a label.
pub open spec fn runner_up(all: Seq<EcSensor>, label: Seq<char>) -> Num
    decreases all.len(),
{
    if all.len() == 0 {
        Num(NO_RUNNER_UP)
    } else if all.last().label@ == label {
        runner_up(all.drop_last(), label)
    } else {
        runner_up(all.drop_last(), label).greater(all.last().c)
    }
}

/// How far the hottest sensor leads; a fixed lead if there is no other.
#[verifier::opaque]
pub open spec fn lead_of(ec: EcReading) -> Num {
    let top = match labelled(ec.all@, ec.argmax@, 0) {
        Some(c) => c,
        None => ec.max_c,
    };
    let next = runner_up(ec.all@, ec.argmax@);
    if next.finite() {
        top.minus(next).greater(Num(ZERO))
    } else {
        Num(LONE_LEAD_C)
    }
}

/// How far the hottest sensor leads.
pub fn argmax_lead(ec: &EcReading) -> (r: Num)
    ensures
        r == lead_of(*ec),
{
    proof {
        reveal(lead_of);
    }
    let mut top: Option<Num> = None;
    let mut next = Num(NO_RUNNER_UP);
    let mut i: usize = 0;
    while i < ec.all.len()
        invariant
            i <= ec.all@.len(),
            match top {
                Some(c) => labelled(ec.all@, ec.argmax@, 0) == Some(c),
                None => labelled(ec.all@, ec.argmax@, 0) == labelled(ec.all@, ec.argmax@, i as int),
            },
            next == runner_up(ec.all@.take(i as int), ec.argmax@),
        decreases ec.all@.len() - i,
    {
        proof {
            let so_far = ec.all@.take(i + 1);
            assert(so_far.drop_last() =~= ec.all@.take(i as int));
            assert(so_far.last() == ec.all@[i as int]);
        }
        let sensor = &ec.all[i];
        if sensor.label == ec.argmax {
            if top.is_none() {
                top = Some(sensor.c);
            }
        } else {
            next = next.max(sensor.c);
        }
        i += 1;
    }
    assert(ec.all@.take(ec.all@.len() as int) =~= ec.all@);
    let top = match top {
        Some(c) => c,
        None => ec.max_c,
    };
    if next.is_finite() {
        (top - next).max(Num(ZERO))
    } else {
        Num(LONE_LEAD_C)
    }
}

impl AutoView {
    /// At the time of a sample.
    #[verifier::opaque]
    pub open spec fn timed(self, t_mono: Num) -> AutoView {
        AutoView {
            session: Session {
                last_sample: Some(t_mono),
                dt_s: step_of(self.session.last_sample, t_mono),
                ..self.session
            },
            ..self
        }
    }

    /// After a resume: draws and writes from before it count no more.
    #[verifier::opaque]
    pub open spec fn woken(self, resumed: bool) -> AutoView {
        if resumed {
            AutoView {
                cpu: self.cpu.unwritten(),
                gpu: self.gpu.unwritten(),
                cpu_draw: Seq::empty(),
                ..self
            }
        } else {
            self
        }
    }

    /// The gains are looked up in this sample.
    pub open spec fn retunes(self, s: Sample) -> bool {
        (s.fanctrl_view_changed || !self.session.view_initialised) && s.fanctrl is Some
    }

    /// With the gains of the view's strategy and interval.
    #[verifier::opaque]
    pub open spec fn retuned(self, s: Sample, c: Config, cpu: Map<Seq<char>, Gains>, gpu: Map<Seq<char>, Gains>) -> AutoView {
        if self.retunes(s) {
            let v = s.fanctrl->0;
            let key = gain_key(v.strategy@, v.ma_interval);
            AutoView {
                cpu: self.cpu.tuned(resolved_gains::<W>(c.cpu_gains, entry(cpu, key), v.ma_interval)),
                gpu: self.gpu.tuned(resolved_gains::<Mhz>(c.gpu_gains, entry(gpu, key), v.ma_interval)),
                ..self
            }
        } else {
            self
        }
    }

    /// With the power source noted; a change makes read-backs prove nothing
    /// for a while.
    #[verifier::opaque]
    pub open spec fn powered(self, on_ac: bool, t_mono: Num) -> AutoView {
        AutoView {
            session: Session {
                suppress_until: if self.session.last_on_ac == Some(!on_ac) {
                    Some(t_mono.plus(Num(ON_AC_EDGE_SUPPRESS_S)))
                } else {
                    self.session.suppress_until
                },
                last_on_ac: Some(on_ac),
                ..self.session
            },
            ..self
        }
    }

    /// This sample's view is the first fresh one.
    pub open spec fn first_view(self, s: Sample) -> bool {
        !self.session.view_initialised && s.fanctrl is Some && s.fanctrl_freshness
            == Freshness::Fresh
    }

    /// With the view and the controller's maximum taken in.
    #[verifier::opaque]
    pub open spec fn sighted(self, s: Sample) -> AutoView {
        AutoView {
            session: Session {
                view_initialised: self.session.view_initialised || self.first_view(s),
                ..self.session
            },
            ec_slope: match s.ec {
                Some(ec) => traced(self.ec_slope, ec.reconciliation_max_c),
                None => self.ec_slope,
            },
            ..self
        }
    }

    /// With a sample taken in.
    pub open spec fn taken_in(self, s: Sample, c: Config, cpu: Map<Seq<char>, Gains>, gpu: Map<Seq<char>, Gains>) -> AutoView {
        self.timed(s.t_mono).woken(s.resumed).retuned(s, c, cpu, gpu).powered(
            s.on_ac,
            s.t_mono,
        ).sighted(s)
    }

    /// What is to be done to the replica first.
    pub open spec fn replica_orders(self, s: Sample) -> ReplicaOrders {
        ReplicaOrders {
            resume_reset: s.resumed,
            interval: if self.retunes(s) {
                Some(s.fanctrl->0.ma_interval)
            } else {
                None
            },
            entry_reset: self.first_view(s),
        }
    }

    /// What the target's source is asked.
    #[verifier::opaque]
    pub open spec fn source_request(
        self,
        s: Sample,
        c: Config,
        fan_target_rpm: Num,
        trusted: bool,
        cpu_group: Option<Num>,
        gpu_group: Option<Num>,
    ) -> SourceRequest {
        let fresh_view = s.fanctrl is Some && s.fanctrl_freshness == Freshness::Fresh;
        SourceRequest {
            begins: !self.session.source_initialised,
            may_qualify: fresh_view,
            seed_max_c: c.cpu_hot_c.greater(c.gpu_hot_c),
            dt_s: self.session.dt_s,
            fresh_view,
            replica_reconciled: trusted,
            requested_rpm: fan_target_rpm.rounded().whole(),
            fan_rpm: if s.fan_valid {
                Some(s.max_fan_rpm)
            } else {
                None
            },
            cpu_hold: self.cpu.facts.prior_hold,
            gpu_hold: self.gpu.facts.prior_hold,
            cpu_group_c: cpu_group,
            gpu_group_c: gpu_group,
            argmax_lead_c: match s.ec {
                Some(ec) => lead_of(ec),
                None => Num(ZERO),
            },
        }
    }

    /// With the target's source made.
    pub open spec fn sourced(self) -> AutoView {
        AutoView { session: Session { source_initialised: true, ..self.session }, ..self }
    }
}

impl AutoState {
    fn retune(&mut self, view: &FanctrlView, config: &Config, cpu: &Table<Gains>, gpu: &Table<Gains>)
        requires
            cpu.wf(),
            gpu.wf(),
        ensures
            ({
                let key = gain_key(view.strategy@, view.ma_interval);
                final(self)@ == AutoView {
                    cpu: old(self)@.cpu.tuned(
                        resolved_gains::<W>(config.cpu_gains, entry(cpu@, key), view.ma_interval),
                    ),
                    gpu: old(self)@.gpu.tuned(
                        resolved_gains::<Mhz>(config.gpu_gains, entry(gpu@, key), view.ma_interval),
                    ),
                    ..old(self)@
                }
            }),
            old(self)@.wf() ==> final(self)@.wf(),
    {
        let key = gains_key(&view.strategy, view.ma_interval);
        let (cpu_gains, cpu_source) = resolve_gains::<W>(
            config.cpu_gains,
            cpu.get(&key),
            view.ma_interval,
        );
        let (gpu_gains, gpu_source) = resolve_gains::<Mhz>(
            config.gpu_gains,
            gpu.get(&key),
            view.ma_interval,
        );
        self.cpu.tune(cpu_gains, cpu_source);
        self.gpu.tune(gpu_gains, gpu_source);
    }

    fn keep_time(&mut self, t_mono: Num, resumed: bool)
        ensures
            final(self)@ == old(self)@.timed(t_mono).woken(resumed),
            final(self)@.session.view_initialised == old(self)@.session.view_initialised,
            old(self)@.wf() ==> final(self)@.wf(),
    {
        proof {
            reveal(AutoView::timed);
            reveal(AutoView::woken);
        }
        self.session.dt_s = time_step(self.session.last_sample, t_mono);
        self.session.last_sample = Some(t_mono);
        if resumed {
            self.cpu_draw.clear();
            self.cpu.forget_write();
            self.gpu.forget_write();
        }
    }

    fn note_power(&mut self, on_ac: bool, t_mono: Num)
        ensures
            final(self)@ == old(self)@.powered(on_ac, t_mono),
            final(self)@.session.view_initialised == old(self)@.session.view_initialised,
            old(self)@.wf() ==> final(self)@.wf(),
    {
        proof {
            reveal(AutoView::powered);
        }
        if let Some(last) = self.session.last_on_ac {
            if last != on_ac {
                self.session.suppress_until = Some(t_mono + Num(ON_AC_EDGE_SUPPRESS_S));
            }
        }
        self.session.last_on_ac = Some(on_ac);
    }

    fn retune_for(
        &mut self,
        s: &Sample,
        config: &Config,
        cpu_gains: &Table<Gains>,
        gpu_gains: &Table<Gains>,
    ) -> (r: Option<u32>)
        requires
            cpu_gains.wf(),
            gpu_gains.wf(),
        ensures
            final(self)@ == old(self)@.retuned(*s, *config, cpu_gains@, gpu_gains@),
            r == (if old(self)@.retunes(*s) {
                Some(s.fanctrl->0.ma_interval)
            } else {
                None
            }),
            final(self)@.session.view_initialised == old(self)@.session.view_initialised,
            old(self)@.wf() ==> final(self)@.wf(),
    {
        proof {
            reveal(AutoView::retuned);
        }
        if s.fanctrl_view_changed || !self.session.view_initialised {
            if let Some(view) = &s.fanctrl {
                self.retune(view, config, cpu_gains, gpu_gains);
                return Some(view.ma_interval);
            }
        }
        None
    }

    fn sight(&mut self, s: &Sample) -> (r: bool)
        ensures
            final(self)@ == old(self)@.sighted(*s),
            r == old(self)@.first_view(*s),
            old(self)@.wf() ==> final(self)@.wf(),
    {
        proof {
            reveal(AutoView::sighted);
        }
        let first = !self.session.view_initialised && s.fanctrl.is_some() && s.fanctrl_freshness
            == Freshness::Fresh;
        if first {
            self.session.view_initialised = true;
        }
        if let Some(ec) = &s.ec {
            trace(&mut self.ec_slope, ec.reconciliation_max_c);
        }
        first
    }

    /// Takes a sample in, up to the point where the replica does; returns
    /// what is to be done to the replica first.
    pub fn take_in(
        &mut self,
        s: &Sample,
        config: &Config,
        cpu_gains: &Table<Gains>,
        gpu_gains: &Table<Gains>,
    ) -> (r: ReplicaOrders)
        requires
            cpu_gains.wf(),
            gpu_gains.wf(),
        ensures
            final(self)@ == old(self)@.taken_in(*s, *config, cpu_gains@, gpu_gains@),
            r == old(self)@.replica_orders(*s),
            old(self)@.wf() ==> final(self)@.wf(),
    {
        self.keep_time(s.t_mono, s.resumed);
        let interval = self.retune_for(s, config, cpu_gains, gpu_gains);
        self.note_power(s.on_ac, s.t_mono);
        let entry_reset = self.sight(s);
        ReplicaOrders { resume_reset: s.resumed, interval, entry_reset }
    }

    /// What the replica is told of a sample that has been taken in.
    pub fn observation(&self, s: &Sample, gap_s: Num, ma: Option<Num>) -> (r: ReconciliationObservation)
        ensures
            r == observation_of(*s, slope(self@.ec_slope), gap_s, ma),
    {
        reconcile(s, slope_of(&self.ec_slope), gap_s, ma)
    }

    /// What the target's source is asked; it is made with the first request.
    pub fn request(
        &mut self,
        s: &Sample,
        config: &Config,
        fan_target_rpm: Num,
        trusted: bool,
        cpu_group: Option<Num>,
        gpu_group: Option<Num>,
    ) -> (r: SourceRequest)
        ensures
            final(self)@ == old(self)@.sourced(),
            r == old(self)@.source_request(
                *s,
                *config,
                fan_target_rpm,
                trusted,
                cpu_group,
                gpu_group,
            ),
            old(self)@.wf() ==> final(self)@.wf(),
    {
        proof {
            reveal(AutoView::source_request);
        }
        let fresh_view = s.fanctrl.is_some() && s.fanctrl_freshness == Freshness::Fresh;
        let begins = !self.session.source_initialised;
        self.session.source_initialised = true;
        SourceRequest {
            begins,
            may_qualify: fresh_view,
            seed_max_c: config.cpu_hot_c.max(config.gpu_hot_c),
            dt_s: self.session.dt_s,
            fresh_view,
            replica_reconciled: trusted,
            requested_rpm: fan_target_rpm.round().to_u32(),
            fan_rpm: if s.fan_valid {
                Some(s.max_fan_rpm)
            } else {
                None
            },
            cpu_hold: self.cpu.facts.prior_hold,
            gpu_hold: self.gpu.facts.prior_hold,
            cpu_group_c: cpu_group,
            gpu_group_c: gpu_group,
            argmax_lead_c: match &s.ec {
                Some(ec) => argmax_lead(ec),
                None => Num(ZERO),
            },
        }
    }
}

/// A view is held against the local readings at most once: a sample without a
/// new view, or with one that is not fresh, tells the replica nothing.
pub proof fn lemma_only_new_views_are_scored(s: Sample, rise: Num, gap_s: Num, ma: Option<Num>)
    requires
        !s.fanctrl_view_changed || s.fanctrl_freshness != Freshness::Fresh,
    ensures
        observation_of(s, rise, gap_s, ma) is Skipped,
{
    reveal(observation_of);
}

/// New gains change nothing but the gains: neither cap nor candidates step.
pub proof fn lemma_retuning_is_bumpless(
    a: AutoView,
    s: Sample,
    c: Config,
    cpu: Map<Seq<char>, Gains>,
    gpu: Map<Seq<char>, Gains>,
)
    ensures
        ({
            let b = a.retuned(s, c, cpu, gpu);
            &&& b.cpu.state == LoopState { gains: b.cpu.state.gains, ..a.cpu.state }
            &&& b.gpu.state == LoopState { gains: b.gpu.state.gains, ..a.gpu.state }
            &&& b.cpu.levels == a.cpu.levels && b.gpu.levels == a.gpu.levels
            &&& b.session == a.session
        }),
{
    reveal(AutoView::retuned);
    reveal(LaneView::tuned);
}

} // verus!
