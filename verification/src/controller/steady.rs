//! Passive learning from settled operation.

use crate::budget::{warm_key, WarmStart};
use crate::controller::auto::{AutoState, AutoView, WarmStartEntry};
use crate::controller::drive::Decisions;
use crate::controller::windows::{
    full_row, in_row, lemma_settled_needs_a_full_row, slid, slide, smooth, smoothed, watched_over,
    Observed, SteadyView, FAN_SMOOTH_N, STEADY_WINDOW_N, STEADY_WINDOW_STDEV_MAX_RPM,
};
use crate::device_loop::Hold;
use crate::num::{unit, Num, ONE};
use crate::precision::apart;
use crate::types::{FanctrlView, Freshness, Sample};
use crate::values::{lemma_compare, lemma_gap_side};
use vstd::prelude::*;

verus! {

/// What the steady windows look at, besides the sample.
#[derive(Clone, Copy, Debug)]
pub struct SteadyFacts {
    pub decisions: Decisions,
    /// The target temperature, °C.
    pub t_star: Option<Num>,
    /// The duty that the fan target asks for, %.
    pub target_duty: u8,
    /// The fan speed at that duty, RPM.
    pub target_rpm: Num,
    pub cpu_limit_w: Option<Num>,
    pub gpu_max_mhz: Option<u32>,
}

/// What there is to learn.
#[derive(Clone, Copy, Debug)]
pub struct Lesson {
    /// The fan speed at the target duty, RPM.
    pub refine: Option<Num>,
    /// The pair of caps that held it.
    pub warm: Option<WarmStartEntry>,
}

/// Within a degree of the target.
pub open spec fn on_target(c: Num, target: Num) -> bool {
    c.minus(target).size().le(Num(ONE))
}

impl SteadyFacts {
    /// Both groups are there and on target.
    pub open spec fn groups_settled(self) -> bool {
        match (self.t_star, self.decisions.cpu.group_c, self.decisions.gpu.group_c) {
            (Some(t), Some(c), Some(g)) => on_target(c, t) && on_target(g, t),
            _ => false,
        }
    }

    /// The caps in force, if both are.
    pub open spec fn pair(self) -> Option<WarmStartEntry> {
        match (self.cpu_limit_w, self.gpu_max_mhz) {
            (Some(w), Some(mhz)) => Some(WarmStartEntry { cpu_cap_w: w, gpu_lock_mhz: mhz }),
            _ => None,
        }
    }

    fn are_groups_settled(&self) -> (r: bool)
        ensures
            r == self.groups_settled(),
    {
        match (self.t_star, self.decisions.cpu.group_c, self.decisions.gpu.group_c) {
            (Some(target), Some(cpu_c), Some(gpu_c)) => {
                (cpu_c - target).abs() <= Num(ONE) && (gpu_c - target).abs() <= Num(ONE)
            },
            _ => false,
        }
    }

    fn applied_pair(&self) -> (r: Option<WarmStartEntry>)
        ensures
            r == self.pair(),
    {
        match (self.cpu_limit_w, self.gpu_max_mhz) {
            (Some(cpu_cap_w), Some(gpu_lock_mhz)) => Some(
                WarmStartEntry { cpu_cap_w, gpu_lock_mhz },
            ),
            _ => None,
        }
    }
}

/// The fan's speed, if it is a reading.
pub open spec fn fan_reading(s: Sample) -> Option<Num> {
    if s.fan_valid && s.max_fan_rpm.finite() {
        Some(s.max_fan_rpm)
    } else {
        None
    }
}

/// The fan's speeds after a sample.
#[verifier::opaque]
pub open spec fn fan_after(w: Seq<Num>, s: Sample) -> Seq<Num> {
    match fan_reading(s) {
        Some(rpm) => slid(w, rpm, FAN_SMOOTH_N as nat),
        None => Seq::empty(),
    }
}

impl AutoView {
    /// A sample counts as settled at the target duty: the daemon holds
    /// exactly that duty, both groups are on target, nothing is hot, and both
    /// caps are in force and believed.
    #[verifier::opaque]
    pub open spec fn qualifies(self, s: Sample, v: FanctrlView, f: SteadyFacts) -> bool {
        &&& v.active
        &&& s.fanctrl_freshness == Freshness::Fresh
        &&& v.speed_pct == f.target_duty
        &&& f.groups_settled()
        &&& !f.decisions.guard.gpu_hot
        &&& !self.session.cpu_hot
        &&& fan_reading(s) is Some
        &&& f.pair() is Some
        &&& f.decisions.cpu.hold != Hold::ActuatorMismatch
        &&& f.decisions.gpu.hold != Hold::ActuatorMismatch
        &&& !self.cpu.facts.verdict.episode()
        &&& !self.gpu.facts.verdict.episode()
    }

    /// The smoothed fan speed with a sample.
    pub open spec fn fan_with(self, s: Sample) -> Num {
        smoothed(fan_after(self.fan, s))
    }

    /// The fan runs as fast as the target duty says.
    pub open spec fn on_speed(self, s: Sample, f: SteadyFacts) -> bool {
        self.fan_with(s).minus(f.target_rpm).size().le(Num(STEADY_WINDOW_STDEV_MAX_RPM))
    }

    /// With the windows moved on.
    #[verifier::opaque]
    pub open spec fn learned(self, s: Sample, f: SteadyFacts) -> AutoView {
        match s.fanctrl {
            None => AutoView {
                fan: Seq::empty(),
                steady: SteadyView::empty(),
                refinement: SteadyView::empty(),
                ..self
            },
            Some(v) => {
                let key = warm_key(v.strategy@, f.target_duty, s.on_ac);
                let q = self.qualifies(s, v, f);
                let rpm = self.fan_with(s);
                AutoView {
                    fan: fan_after(self.fan, s),
                    refinement: self.refinement.judged(key, q, rpm),
                    steady: self.steady.judged(key, q && self.on_speed(s, f), rpm),
                    ..self
                }
            },
        }
    }

    /// What there is to learn from a sample.
    #[verifier::opaque]
    pub open spec fn lesson(self, s: Sample, f: SteadyFacts) -> Lesson {
        match s.fanctrl {
            None => Lesson { refine: None, warm: None },
            Some(v) => {
                let key = warm_key(v.strategy@, f.target_duty, s.on_ac);
                let q = self.qualifies(s, v, f);
                let rpm = self.fan_with(s);
                Lesson {
                    refine: self.refinement.settled(key, q, rpm),
                    warm: if self.steady.settled(key, q && self.on_speed(s, f), rpm) is Some {
                        f.pair()
                    } else {
                        None
                    },
                }
            },
        }
    }
}

impl AutoState {
    fn is_qualified(&self, s: &Sample, view: &FanctrlView, f: &SteadyFacts) -> (r: bool)
        ensures
            r == self@.qualifies(*s, *view, *f),
    {
        proof {
            reveal(AutoView::qualifies);
        }
        view.active && s.fanctrl_freshness == Freshness::Fresh && view.speed_pct == f.target_duty
            && f.are_groups_settled() && !f.decisions.guard.gpu_hot && !self.session.cpu_hot
            && s.fan_valid && s.max_fan_rpm.is_finite() && f.applied_pair().is_some()
            && f.decisions.cpu.hold != Hold::ActuatorMismatch && f.decisions.gpu.hold
            != Hold::ActuatorMismatch && !self.cpu.facts.verdict.in_episode()
            && !self.gpu.facts.verdict.in_episode()
    }

    fn smooth_fan(&mut self, s: &Sample) -> (r: Num)
        ensures
            final(self)@ == (AutoView { fan: fan_after(old(self)@.fan, *s), ..old(self)@ }),
            r == old(self)@.fan_with(*s),
    {
        proof {
            reveal(fan_after);
        }
        if s.fan_valid && s.max_fan_rpm.is_finite() {
            slide(&mut self.fan, s.max_fan_rpm, FAN_SMOOTH_N);
        } else {
            self.fan.clear();
        }
        smooth(&self.fan)
    }

    /// Moves the steady windows on, and says what there is to learn.
    pub fn observe_steady(&mut self, s: &Sample, f: &SteadyFacts) -> (r: Lesson)
        ensures
            final(self)@ == old(self)@.learned(*s, *f),
            r == old(self)@.lesson(*s, *f),
            old(self)@.wf() ==> final(self)@.wf(),
    {
        proof {
            reveal(AutoView::learned);
            reveal(AutoView::lesson);
        }
        match &s.fanctrl {
            None => {
                self.fan.clear();
                self.steady.clear();
                self.refinement.clear();
                Lesson { refine: None, warm: None }
            },
            Some(view) => {
                let key = WarmStart::key(view.strategy.as_str(), f.target_duty, s.on_ac);
                let qualifies = self.is_qualified(s, view, f);
                let rpm = self.smooth_fan(s);
                let refine = self.refinement.judge(&key, qualifies, rpm);
                let on_speed = (rpm - f.target_rpm).abs() <= Num(STEADY_WINDOW_STDEV_MAX_RPM);
                let settled = self.steady.judge(&key, qualifies && on_speed, rpm);
                let warm = if settled.is_some() {
                    f.applied_pair()
                } else {
                    None
                };
                Lesson { refine, warm }
            },
        }
    }
}

/// Nothing is learned from a sample that does not qualify; in particular not
/// while the daemon runs another duty than the target's, while anything is
/// hot, or while a read-back disagrees.
pub proof fn lemma_only_settled_samples_teach(a: AutoView, s: Sample, f: SteadyFacts)
    requires
        s.fanctrl matches Some(v) ==> v.speed_pct != f.target_duty || f.decisions.guard.gpu_hot
            || a.session.cpu_hot || a.cpu.facts.verdict.episode() || a.gpu.facts.verdict.episode()
            || s.fanctrl_freshness != Freshness::Fresh || !f.groups_settled(),
    ensures
        a.lesson(s, f).refine is None,
        a.lesson(s, f).warm is None,
        a.learned(s, f).refinement.window.len() == 0,
        a.learned(s, f).steady.window.len() == 0,
{
    reveal(AutoView::lesson);
    reveal(AutoView::learned);
    reveal(AutoView::qualifies);
    reveal(SteadyView::settled);
    reveal(SteadyView::judged);
}

impl AutoView {
    /// What a sample brings to the refinement's window, or to that of the
    /// caps, which also wants the fan on speed.
    pub open spec fn seen(self, s: Sample, f: SteadyFacts, on_speed: bool) -> Observed {
        match s.fanctrl {
            None => Observed::Gap,
            Some(v) => Observed::Reading {
                key: warm_key(v.strategy@, f.target_duty, s.on_ac),
                qualifies: self.qualifies(s, v, f) && (on_speed ==> self.on_speed(s, f)),
                rpm: self.fan_with(s),
            },
        }
    }
}

/// A lesson takes a full window: both windows hold what the samples so far
/// have brought, and whatever is learned from one, this sample and those before
/// it that fill the window have all qualified under one key.
pub proof fn lemma_lessons_take_a_full_row(
    a: AutoView,
    past: Seq<Observed>,
    sped: Seq<Observed>,
    s: Sample,
    f: SteadyFacts,
)
    requires
        a.refinement == watched_over(past),
        a.steady == watched_over(sped),
    ensures
        a.learned(s, f).refinement == watched_over(past.push(a.seen(s, f, false))),
        a.learned(s, f).steady == watched_over(sped.push(a.seen(s, f, true))),
        a.lesson(s, f).refine is Some ==> full_row(past.push(a.seen(s, f, false))),
        a.lesson(s, f).warm is Some ==> full_row(sped.push(a.seen(s, f, true))),
{
    reveal(AutoView::learned);
    reveal(AutoView::lesson);
    let now = past.push(a.seen(s, f, false));
    let then = sped.push(a.seen(s, f, true));
    assert(now.drop_last() =~= past);
    assert(then.drop_last() =~= sped);
    if let Some(v) = s.fanctrl {
        let key = warm_key(v.strategy@, f.target_duty, s.on_ac);
        let q = a.qualifies(s, v, f);
        let rpm = a.fan_with(s);
        if a.lesson(s, f).refine is Some {
            lemma_settled_needs_a_full_row(past, key, q, rpm);
            assert(in_row(now, key));
        }
        if a.lesson(s, f).warm is Some {
            lemma_settled_needs_a_full_row(sped, key, q && a.on_speed(s, f), rpm);
            assert(in_row(then, key));
        }
    }
}

/// Two temperatures lie within a degree of each other, on either side, but for
/// the last bit.
pub open spec fn within_a_degree(c: Num, target: Num) -> bool {
    &&& c.finite()
    &&& target.finite()
    &&& apart(c.value(), target.value()) < Num(AFTER_ONE).value()
}

/// What a sample must show to be learned from, told from the readings: the
/// daemon is fresh, active and at the target duty, the fan is read, nothing is
/// hot, both caps are in force, and no read-back is in trouble.
pub open spec fn shows_rest(a: AutoView, s: Sample, f: SteadyFacts) -> bool {
    &&& s.fanctrl is Some && s.fanctrl->0.active && s.fanctrl->0.speed_pct == f.target_duty
    &&& s.fanctrl_freshness == Freshness::Fresh
    &&& s.fan_valid && s.max_fan_rpm.finite()
    &&& !f.decisions.guard.gpu_hot && !a.session.cpu_hot
    &&& f.cpu_limit_w is Some && f.gpu_max_mhz is Some
    &&& f.decisions.cpu.hold != Hold::ActuatorMismatch
    &&& f.decisions.gpu.hold != Hold::ActuatorMismatch
    &&& a.cpu.facts.verdict.mismatch_streak == 0 && !a.cpu.facts.verdict.released
    &&& a.gpu.facts.verdict.mismatch_streak == 0 && !a.gpu.facts.verdict.released
    &&& f.t_star is Some && f.decisions.cpu.group_c is Some && f.decisions.gpu.group_c is Some
}

/// Whatever is learned, and any window that is not empty afterwards, comes
/// from a sample at rest whose groups both lie within a degree of the target,
/// neither above nor below it by more.
pub proof fn lemma_lessons_come_from_rest_on_target(a: AutoView, s: Sample, f: SteadyFacts)
    requires
        a.lesson(s, f).refine is Some || a.lesson(s, f).warm is Some || a.learned(
            s,
            f,
        ).refinement.window.len() > 0 || a.learned(s, f).steady.window.len() > 0,
        f.t_star is Some ==> f.t_star->0.finite(),
        f.decisions.cpu.group_c is Some ==> f.decisions.cpu.group_c->0.finite(),
        f.decisions.gpu.group_c is Some ==> f.decisions.gpu.group_c->0.finite(),
    ensures
        shows_rest(a, s, f),
        within_a_degree(f.decisions.cpu.group_c->0, f.t_star->0),
        within_a_degree(f.decisions.gpu.group_c->0, f.t_star->0),
{
    reveal(AutoView::lesson);
    reveal(AutoView::learned);
    reveal(AutoView::qualifies);
    reveal(SteadyView::settled);
    reveal(SteadyView::judged);
    let after = Num(AFTER_ONE);
    lemma_after_one();
    let t = f.t_star->0;
    lemma_gap_side(f.decisions.cpu.group_c->0, t, after);
    lemma_gap_side(f.decisions.gpu.group_c->0, t, after);
    reveal(Num::le);
}

/// A sample at rest whose groups both lie within a degree of the target goes
/// into the refinement's window under its key, and into that of the caps if
/// the fan runs within the limit of the target's speed.
pub proof fn lemma_rest_on_target_is_observed(a: AutoView, s: Sample, f: SteadyFacts)
    requires
        shows_rest(a, s, f),
        f.t_star->0.finite(),
        f.decisions.cpu.group_c->0.finite(),
        f.decisions.gpu.group_c->0.finite(),
        apart(f.decisions.cpu.group_c->0.value(), f.t_star->0.value()) <= unit(),
        apart(f.decisions.gpu.group_c->0.value(), f.t_star->0.value()) <= unit(),
        f.target_rpm.finite(),
        a.fan_with(s).finite(),
        apart(a.fan_with(s).value(), f.target_rpm.value()) <= Num(
            STEADY_WINDOW_STDEV_MAX_RPM,
        ).value(),
        a.refinement.key == Some(warm_key(s.fanctrl->0.strategy@, f.target_duty, s.on_ac)),
        a.steady.key == a.refinement.key,
        a.refinement.window.len() <= STEADY_WINDOW_N,
        a.steady.window.len() <= STEADY_WINDOW_N,
    ensures
        a.learned(s, f).refinement.window.len() > 0,
        a.learned(s, f).refinement.window.last() == a.fan_with(s),
        a.learned(s, f).steady.window.len() > 0,
        a.learned(s, f).steady.window.last() == a.fan_with(s),
{
    reveal(AutoView::learned);
    reveal(AutoView::qualifies);
    reveal(SteadyView::judged);
    reveal(slid);
    crate::order::lemma_one();
    let t = f.t_star->0;
    lemma_gap_side(f.decisions.cpu.group_c->0, t, Num(ONE));
    lemma_gap_side(f.decisions.gpu.group_c->0, t, Num(ONE));
    lemma_compare(Num(crate::num::ZERO), Num(STEADY_WINDOW_STDEV_MAX_RPM));
    crate::values::lemma_zero();
    reveal(Num::lt);
    lemma_gap_side(a.fan_with(s), f.target_rpm, Num(STEADY_WINDOW_STDEV_MAX_RPM));
}

/// A fan that runs off the target's speed by more than the limit, by at least a
/// number `z` after it, records no caps.
pub proof fn lemma_off_speed_records_no_caps(a: AutoView, s: Sample, f: SteadyFacts, z: Num)
    requires
        a.fan_with(s).finite(),
        f.target_rpm.finite(),
        z.finite(),
        Num(STEADY_WINDOW_STDEV_MAX_RPM).value() < z.value(),
        z.value() <= apart(a.fan_with(s).value(), f.target_rpm.value()),
    ensures
        a.lesson(s, f).warm is None,
        a.learned(s, f).steady.window.len() == 0,
{
    reveal(AutoView::lesson);
    reveal(AutoView::learned);
    reveal(SteadyView::settled);
    reveal(SteadyView::judged);
    crate::values::lemma_zero();
    lemma_compare(Num(crate::num::ZERO), Num(STEADY_WINDOW_STDEV_MAX_RPM));
    reveal(Num::lt);
    reveal(Num::le);
    lemma_compare(Num(STEADY_WINDOW_STDEV_MAX_RPM), z);
    lemma_gap_side(a.fan_with(s), f.target_rpm, z);
}

/// The caps that are recorded are the ones in force, and the duty that is
/// refined is the target's.
pub proof fn lemma_recorded_caps_are_in_force(a: AutoView, s: Sample, f: SteadyFacts)
    requires
        a.lesson(s, f).warm is Some,
    ensures
        f.cpu_limit_w == Some(a.lesson(s, f).warm->0.cpu_cap_w),
        f.gpu_max_mhz == Some(a.lesson(s, f).warm->0.gpu_lock_mhz),
{
    reveal(AutoView::lesson);
    reveal(AutoView::qualifies);
    reveal(SteadyView::settled);
}

/// The number after 1.
pub const AFTER_ONE: u64 = 0x3ff0_0000_0000_0001;

proof fn lemma_after_one()
    ensures
        Num(AFTER_ONE).finite(),
        Num(AFTER_ONE).value() > unit(),
        Num(ONE).lt(Num(AFTER_ONE)),
{
    crate::order::lemma_one();
    reveal(Num::lt);
    lemma_compare(Num(ONE), Num(AFTER_ONE));
}

} // verus!
