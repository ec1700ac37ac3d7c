//! One sample of a calibration.

use crate::controller::bench::{Bench, BenchFacts, BenchView};
use crate::controller::between::lemma_trial_done_reports;
use crate::controller::calibration::{step_wf, tally, CalibStep};
use crate::controller::config::{in_milliwatts, milliwatts, Config};
use crate::controller::effect::{Cause, Effect};
use crate::controller::intake::{observation_of, reconcile, seed_of, replica_seed, trace, traced};
use crate::controller::machine::{Controller, Model, RunView};
use crate::controller::panel::{progress, text, CalibProgress};
use crate::controller::plain::{CapCheck, Next, Order, Pass, EC_HOT_C, REASSERT_PERIOD_S};
use crate::controller::upkeep::is_verified;
use crate::controller::verdict::WriteVerdict;
use crate::controller::windows::{slope, slope_of};
use crate::num::Num;
use crate::types::{FanctrlView, Freshness, Sample};
use vstd::prelude::*;

verus! {

/// What the replica says after it was told of a view.
#[derive(Clone, Copy, Debug)]
pub struct ScoreReply {
    /// Its average agrees with the fan daemon's.
    pub trusted: bool,
    /// It disagrees for good.
    pub ec_mismatch: bool,
    /// The CPU group's average, °C.
    pub cpu_group_c: Option<Num>,
    /// The GPU group's average, °C.
    pub gpu_group_c: Option<Num>,
    /// Its own average, °C.
    pub ma_c: Option<Num>,
}

/// What a calibration's runner is shown with a sample.
#[derive(Debug)]
pub struct CalibContext {
    pub cpu_cap_w: Option<Num>,
    pub cpu_cap_verified: bool,
    pub cpu_cap_checked_at_s: Option<Num>,
    pub cpu_cap_readback: Option<WriteVerdict>,
    /// The cap was found reset in this sample.
    pub cpu_cap_reset: Option<CapCheck>,
    pub cpu_cap_completed_at_s: Option<Num>,
    pub gpu_cap_mhz: Option<u32>,
    pub gpu_cap_verified: bool,
    pub gpu_cap_completed_at_s: Option<Num>,
    /// The calibration starts from the caps in force.
    pub use_current_caps: bool,
    pub cpu_floor_w: Num,
    pub gpu_floor_mhz: u32,
    pub cpu_max_w: Num,
    pub gpu_max_mhz: u32,
    pub cpu_group_c: Option<Num>,
    pub gpu_group_c: Option<Num>,
    pub ec_mismatch: bool,
    pub fanctrl_active: bool,
    pub argmax_controllable: bool,
    pub cpu_hot_c: Num,
    pub gpu_hot_c: Num,
    pub strategy: Option<String>,
    pub ma_interval: Option<u32>,
}

/// Something is too hot to repair a cap first.
pub open spec fn too_hot(s: Sample, c: Config) -> bool {
    (s.cpu_temp_valid && c.cpu_hot_c.le(s.cpu_temp_c)) || (s.gpu_temp_valid && c.gpu_hot_c.le(
        s.gpu_temp_c,
    )) || (s.ec_valid && s.ec is Some && Num(EC_HOT_C).le(s.ec->0.max_c))
}

fn is_too_hot(s: &Sample, c: &Config) -> (r: bool)
    ensures
        r == too_hot(*s, *c),
{
    let ec_hot = match &s.ec {
        Some(ec) => s.ec_valid && ec.max_c >= Num(EC_HOT_C),
        None => false,
    };
    (s.cpu_temp_valid && s.cpu_temp_c >= c.cpu_hot_c) || (s.gpu_temp_valid && s.gpu_temp_c
        >= c.gpu_hot_c) || ec_hot
}

/// The view tells a strategy and an interval.
pub open spec fn tells(v: FanctrlView) -> bool {
    v.strategy@.len() > 0 && v.ma_interval > 0
}

/// The controller's maximum in a sample.
pub open spec fn raw_max(s: Sample) -> Option<Num> {
    match s.ec {
        Some(ec) => ec.reconciliation_max_c,
        None => None,
    }
}

impl BenchView {
    /// The view's strategy and interval are frozen with this sample.
    pub open spec fn freezes(self, s: Sample) -> bool {
        self.frozen_strategy is None && s.fanctrl is Some && tells(s.fanctrl->0)
    }

    /// With the view taken in.
    #[verifier::opaque]
    pub open spec fn viewed(self, s: Sample) -> BenchView {
        let b = if self.freezes(s) {
            BenchView {
                facts: BenchFacts {
                    frozen_interval: Some(s.fanctrl->0.ma_interval),
                    ..self.facts
                },
                frozen_strategy: Some(s.fanctrl->0.strategy@),
                ..self
            }
        } else {
            self
        };
        BenchView { ec_slope: traced(self.ec_slope, raw_max(s)), ..b }
    }

    /// With the CPU's cap looked at.
    pub open spec fn checked(self, check: CapCheck, done: Num) -> BenchView {
        BenchView {
            facts: BenchFacts {
                cpu_checked_at: Some(done),
                cpu_readback: Some(check.observed),
                cpu_verified: check.outcome() is Verified,
                ..self.facts
            },
            ..self
        }
    }

    /// With the GPU's lock judged.
    pub open spec fn proven(self, verified: bool) -> BenchView {
        BenchView { facts: BenchFacts { gpu_verified: verified, ..self.facts }, ..self }
    }

    /// The CPU's cap is to be looked at.
    pub open spec fn cap_due(self, t_mono: Num, finishing: bool) -> bool {
        finishing || match self.facts.cpu_checked_at {
            None => true,
            Some(at) => Num(REASSERT_PERIOD_S).le(t_mono.minus(at)),
        }
    }
}

impl Bench {
    fn is_cap_due(&self, t_mono: Num, finishing: bool) -> (r: bool)
        ensures
            r == self@.cap_due(t_mono, finishing),
    {
        finishing || match self.facts.cpu_checked_at {
            None => true,
            Some(at) => t_mono - at >= Num(REASSERT_PERIOD_S),
        }
    }

    fn see_view(&mut self, s: &Sample) -> (r: bool)
        ensures
            final(self)@ == old(self)@.viewed(*s),
            r == old(self)@.freezes(*s),
            final(self)@.gpu_commands == old(self)@.gpu_commands,
    {
        proof {
            reveal(BenchView::viewed);
        }
        let mut freezes = false;
        if self.frozen_strategy.is_none() {
            if let Some(view) = &s.fanctrl {
                if view.strategy.as_str().unicode_len() > 0 && view.ma_interval > 0 {
                    self.frozen_strategy = Some(view.strategy.clone());
                    self.facts.frozen_interval = Some(view.ma_interval);
                    freezes = true;
                }
            }
        }
        let raw = match &s.ec {
            Some(ec) => ec.reconciliation_max_c,
            None => None,
        };
        trace(&mut self.ec_slope, raw);
        freezes
    }
}

impl Model {
    /// With the view taken in; the replica is shown the sample next.
    #[verifier::opaque]
    pub open spec fn trial_viewed(self, s: Sample) -> (Model, Next) {
        (
            Model {
                bench: self.bench.viewed(s),
                orders: if self.bench.freezes(s) {
                    self.orders.push(
                        Order::SetCalibReplicaInterval(s.fanctrl->0.ma_interval),
                    ).push(Order::ResetCalibReplica(seed_of(s)))
                } else {
                    self.orders
                },
                ..self
            },
            Next::TickCalibReplica,
        )
    }

    /// With a cap found reset noted, or none.
    pub open spec fn with_reset(self, reset: Option<CapCheck>) -> Model {
        Model {
            run: RunView { pass: Pass { cap_reset: reset, ..self.run.pass }, ..self.run },
            ..self
        }
    }

    /// The CPU's cap to look at in this sample, mW.
    pub open spec fn cap_to_check(self, s: Sample, finishing: bool, fenced: bool) -> Option<u32> {
        match self.core.limits.cpu_limit_w {
            Some(w) if self.core.calibrating && !fenced && self.bench.cap_due(
                s.t_mono,
                finishing,
            ) && self.rig.cpu => Some(milliwatts(w)),
            _ => None,
        }
    }

    /// A calibration's sample begins: the CPU's cap is looked at on schedule,
    /// and repaired only while nothing is hot.
    #[verifier::opaque]
    pub open spec fn trial_begun(self, s: Sample, finishing: bool, fenced: bool) -> (Model, Next) {
        let m = self.opened().with_reset(None);
        match self.cap_to_check(s, finishing, fenced) {
            Some(mw) => (m, Next::CheckCap { mw, may_repair: !too_hot(s, self.config) }),
            None => m.trial_viewed(s),
        }
    }

    /// With the CPU's cap looked at.
    #[verifier::opaque]
    pub open spec fn trial_checked(self, s: Sample, check: CapCheck, done: Num) -> (Model, Next) {
        Model { bench: self.bench.checked(check, done), ..self }.with_reset(
            if check.observed is Mismatch {
                Some(check)
            } else {
                None
            },
        ).trial_viewed(s)
    }

    /// With what the replica says.
    pub open spec fn pass_with(self, score: ScoreReply) -> Model {
        Model {
            run: RunView {
                pass: Pass {
                    cpu_group_c: score.cpu_group_c,
                    gpu_group_c: score.gpu_group_c,
                    ec_mismatch: score.ec_mismatch,
                    ec_ma_c: score.ma_c,
                    ..self.run.pass
                },
                ..self.run
            },
            ..self
        }
    }

    /// After the replica was told of the view.
    #[verifier::opaque]
    pub open spec fn trial_scored(self, s: Sample, score: ScoreReply) -> (Model, Next) {
        let m = self.pass_with(score);
        if s.gpu_mhz_valid && !s.resumed && self.bench.facts.verifier_mhz is Some {
            (m, Next::VerifyCalibGpu)
        } else {
            (Model { bench: self.bench.proven(false), ..m }, Next::SampleRunner)
        }
    }

    /// The record of a calibration sample.
    pub open spec fn trial_record(self, s: Sample) -> Effect {
        Effect::Calibration {
            gpu_util_pct: s.gpu_util_pct,
            view_fresh: s.fanctrl_freshness == Freshness::Fresh,
            view_changed: s.fanctrl_view_changed,
            reconciliation_ma_c: self.run.pass.ec_ma_c,
            socket_ma_c: match s.fanctrl {
                Some(v) => Some(v.ma_temperature),
                None => None,
            },
        }
    }

    /// With the runner's steps taken in and its progress shown.
    #[verifier::opaque]
    pub open spec fn progressed(
        self,
        steps: Seq<CalibStep>,
        shown: Option<crate::controller::panel::ProgressView>,
        view: Option<FanctrlView>,
    ) -> Model {
        let m = self.calibrated(steps, view);
        Model {
            calib: if m.core.calibrating {
                shown
            } else {
                None
            },
            run: RunView { cause: tally(steps).cause, ..m.run },
            ..m
        }
    }

    /// After the runner was shown the sample.
    #[verifier::opaque]
    pub open spec fn trial_done(
        self,
        s: Sample,
        steps: Seq<CalibStep>,
        shown: Option<crate::controller::panel::ProgressView>,
        recorded: bool,
    ) -> (Model, Next) {
        let m = if recorded {
            self.with_effect(self.trial_record(s))
        } else {
            self
        };
        (
            m.progressed(steps, shown, s.fanctrl).drained().closed(Cause::CalibProgress),
            Next::Done,
        )
    }
}

impl Controller {
    fn view_trial(&mut self, s: &Sample) -> (r: Next)
        requires
            old(self).wf(),
        ensures
            final(self)@ == old(self)@.trial_viewed(*s).0,
            r == old(self)@.trial_viewed(*s).1,
            final(self).wf(),
    {
        proof {
            reveal(Model::trial_viewed);
        }
        let freezes = self.bench.see_view(s);
        if freezes {
            if let Some(view) = &s.fanctrl {
                self.orders.push(Order::SetCalibReplicaInterval(view.ma_interval));
                self.orders.push(Order::ResetCalibReplica(replica_seed(s)));
            }
        }
        Next::TickCalibReplica
    }

    pub(crate) fn begin_trial(&mut self, s: &Sample, finishing: bool, fenced: bool) -> (r: Next)
        requires
            old(self).wf(),
        ensures
            final(self)@ == old(self)@.trial_begun(*s, finishing, fenced).0,
            r == old(self)@.trial_begun(*s, finishing, fenced).1,
            final(self).wf(),
    {
        proof {
            reveal(Model::trial_begun);
            reveal(Model::opened);
        }
        self.open_run();
        self.run.pass.cap_reset = None;
        if let Some(w) = self.core.limits.cpu_limit_w {
            if self.core.calibrating && !fenced && self.bench.is_cap_due(s.t_mono, finishing)
                && self.rig.cpu {
                return Next::CheckCap {
                    mw: in_milliwatts(w),
                    may_repair: !is_too_hot(s, &self.config),
                };
            }
        }
        self.view_trial(s)
    }

    /// Takes in what looking at the CPU's cap showed, and when that was done.
    pub fn after_cap_check(&mut self, s: &Sample, check: CapCheck, done: Num) -> (r: Next)
        requires
            old(self).wf(),
        ensures
            final(self)@ == old(self)@.trial_checked(*s, check, done).0,
            r == old(self)@.trial_checked(*s, check, done).1,
            final(self).wf(),
    {
        proof {
            reveal(Model::trial_checked);
        }
        self.bench.facts =
        BenchFacts {
            cpu_checked_at: Some(done),
            cpu_readback: Some(check.observed),
            cpu_verified: is_verified(check.verdict()),
            ..self.bench.facts
        };
        let reset = match check.observed {
            WriteVerdict::Mismatch { .. } => Some(check),
            _ => None,
        };
        self.run.pass.cap_reset = reset;
        self.view_trial(s)
    }

    /// Takes in the replica's average and the age of the view, s.
    pub fn after_calib_replica(&self, s: &Sample, ma: Option<Num>, gap_s: Num) -> (r: Next)
        ensures
            r == Next::ScoreCalibView(observation_of(*s, slope(self@.bench.ec_slope), gap_s, ma)),
    {
        Next::ScoreCalibView(reconcile(s, slope_of(&self.bench.ec_slope), gap_s, ma))
    }

    /// Takes in what the replica says.
    pub fn after_calib_score(&mut self, s: &Sample, score: ScoreReply) -> (r: Next)
        requires
            old(self).wf(),
        ensures
            final(self)@ == old(self)@.trial_scored(*s, score).0,
            r == old(self)@.trial_scored(*s, score).1,
            final(self).wf(),
    {
        proof {
            reveal(Model::trial_scored);
        }
        self.take_score(score);
        if s.gpu_mhz_valid && !s.resumed && self.bench.facts.verifier_mhz.is_some() {
            Next::VerifyCalibGpu
        } else {
            self.bench.facts.gpu_verified = false;
            Next::SampleRunner
        }
    }

    pub(crate) fn take_score(&mut self, score: ScoreReply)
        ensures
            final(self)@ == old(self)@.pass_with(score),
            old(self).wf() ==> final(self).wf(),
    {
        self.run.pass =
        Pass {
            cpu_group_c: score.cpu_group_c,
            gpu_group_c: score.gpu_group_c,
            ec_mismatch: score.ec_mismatch,
            ec_ma_c: score.ma_c,
            ..self.run.pass
        };
    }

    /// Takes in what holding the GPU's clock against the commands showed.
    pub fn after_calib_gpu(&mut self, verdict: WriteVerdict) -> (r: Next)
        requires
            old(self).wf(),
        ensures
            final(self)@ == (Model {
                bench: old(self)@.bench.proven(verdict is Verified),
                ..old(self)@
            }),
            r == Next::SampleRunner,
            final(self).wf(),
    {
        self.bench.facts.gpu_verified = is_verified(verdict);
        Next::SampleRunner
    }

    /// What the runner is shown with a sample.
    pub fn calib_context(&self, s: &Sample) -> (r: CalibContext)
        ensures
            r.cpu_cap_w == self@.core.limits.cpu_limit_w,
            r.cpu_cap_verified == self@.bench.facts.cpu_verified,
            r.cpu_cap_checked_at_s == self@.bench.facts.cpu_checked_at,
            r.cpu_cap_readback == self@.bench.facts.cpu_readback,
            r.cpu_cap_reset == self@.run.pass.cap_reset,
            r.cpu_cap_completed_at_s == self@.bench.facts.cpu_completed_at,
            r.gpu_cap_mhz == self@.core.limits.gpu_max_mhz,
            r.gpu_cap_verified == self@.bench.facts.gpu_verified,
            r.gpu_cap_completed_at_s == self@.bench.facts.gpu_completed_at,
            r.use_current_caps == self@.core.from_auto,
            r.cpu_floor_w == self@.config.cpu_floor_w,
            r.gpu_floor_mhz == self@.config.gpu_floor_mhz,
            r.cpu_max_w == self@.config.cpu_max_w,
            r.gpu_max_mhz == self@.config.gpu_max_mhz,
            r.cpu_group_c == self@.run.pass.cpu_group_c,
            r.gpu_group_c == self@.run.pass.gpu_group_c,
            r.ec_mismatch == self@.run.pass.ec_mismatch,
            r.fanctrl_active == (s.fanctrl_freshness == Freshness::Fresh && s.fanctrl is Some
                && s.fanctrl->0.active),
            r.argmax_controllable == (s.ec is Some && s.ec->0.argmax_group.controllable()),
            r.cpu_hot_c == self@.config.cpu_hot_c,
            r.gpu_hot_c == self@.config.gpu_hot_c,
            text(r.strategy) == (match s.fanctrl {
                Some(v) => Some(v.strategy@),
                None => None,
            }),
            r.ma_interval == (match s.fanctrl {
                Some(v) => Some(v.ma_interval),
                None => None,
            }),
    {
        let facts = self.bench.facts;
        let pass = self.run.pass;
        let (active, strategy, ma_interval) = match &s.fanctrl {
            Some(view) => (view.active, Some(view.strategy.clone()), Some(view.ma_interval)),
            None => (false, None, None),
        };
        CalibContext {
            cpu_cap_w: self.core.limits.cpu_limit_w,
            cpu_cap_verified: facts.cpu_verified,
            cpu_cap_checked_at_s: facts.cpu_checked_at,
            cpu_cap_readback: facts.cpu_readback,
            cpu_cap_reset: pass.cap_reset,
            cpu_cap_completed_at_s: facts.cpu_completed_at,
            gpu_cap_mhz: self.core.limits.gpu_max_mhz,
            gpu_cap_verified: facts.gpu_verified,
            gpu_cap_completed_at_s: facts.gpu_completed_at,
            use_current_caps: self.core.from_auto,
            cpu_floor_w: self.config.cpu_floor_w,
            gpu_floor_mhz: self.config.gpu_floor_mhz,
            cpu_max_w: self.config.cpu_max_w,
            gpu_max_mhz: self.config.gpu_max_mhz,
            cpu_group_c: pass.cpu_group_c,
            gpu_group_c: pass.gpu_group_c,
            ec_mismatch: pass.ec_mismatch,
            fanctrl_active: s.fanctrl_freshness == Freshness::Fresh && active,
            argmax_controllable: match &s.ec {
                Some(ec) => ec.argmax_group.is_controllable(),
                None => false,
            },
            cpu_hot_c: self.config.cpu_hot_c,
            gpu_hot_c: self.config.gpu_hot_c,
            strategy,
            ma_interval,
        }
    }

    pub(crate) fn progress_with(
        &mut self,
        steps: &Vec<CalibStep>,
        shown: Option<CalibProgress>,
        view: &Option<FanctrlView>,
    )
        requires
            old(self).wf(),
            forall|i: int| 0 <= i < steps@.len() ==> step_wf(#[trigger] steps@[i]),
        ensures
            final(self)@ == old(self)@.progressed(steps@, progress(shown), *view),
            final(self).wf(),
    {
        proof {
            reveal(Model::progressed);
        }
        let cause = self.apply_calib_effects(steps, view);
        self.run.cause = cause;
        if self.core.calibrating {
            self.calib = shown;
        } else {
            self.calib = None;
        }
    }

    /// Takes in what the runner wanted done after it was shown the sample,
    /// how far it is, and whether it has something to record.
    pub fn after_runner(
        &mut self,
        s: &Sample,
        steps: &Vec<CalibStep>,
        shown: Option<CalibProgress>,
        recorded: bool,
    ) -> (r: Next)
        requires
            old(self).wf(),
            forall|i: int| 0 <= i < steps@.len() ==> step_wf(#[trigger] steps@[i]),
        ensures
            final(self)@ == old(self)@.trial_done(*s, steps@, progress(shown), recorded).0,
            r == Next::Done,
            final(self).wf(),
            final(self)@.idle(),
    {
        proof {
            lemma_trial_done_reports(old(self)@, *s, steps@, progress(shown), recorded);
            reveal(Model::trial_done);
        }
        if recorded {
            let socket_ma_c = match &s.fanctrl {
                Some(view) => Some(view.ma_temperature),
                None => None,
            };
            self.run.effects.push(
                Effect::Calibration {
                    gpu_util_pct: s.gpu_util_pct,
                    view_fresh: s.fanctrl_freshness == Freshness::Fresh,
                    view_changed: s.fanctrl_view_changed,
                    reconciliation_ma_c: self.run.pass.ec_ma_c,
                    socket_ma_c,
                },
            );
        }
        self.progress_with(steps, shown, &s.fanctrl);
        self.drain();
        self.close_run(Cause::CalibProgress);
        Next::Done
    }
}

} // verus!
