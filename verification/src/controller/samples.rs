//! One sample, from the watchdog to its effects.
//!
//! A sample is handled in turns: each turn ends with what has to be done
//! outside before the next can begin, and the next takes the result in.

use crate::budget::{warm_key, WarmStart};
use crate::controller::auto::WarmStartEntry;
use crate::controller::between::{
    lemma_abort_reports, lemma_asking_reports, lemma_looked_after_reports, lemma_sourced_reports,
    lemma_telling_reports, lemma_watched_reports,
};
use crate::controller::calibration::{step_wf, CalibStep};
use crate::controller::drive::{Decisions, DriveFacts};
use crate::controller::effect::{Cause, Effect};
use crate::controller::intake::{observation_of, replica_seed, seed_of, ReplicaOrders, ReplicaSeed};
use crate::controller::machine::{Controller, Model, RunView, Store, StoreView};
use crate::controller::panel::{progress, CalibProgress, ProgressView};
use crate::controller::plain::{
    Abort, Core, Next, Order, Pass, Trip, Watch, Why, RESUMED_FLAG_S, RESUMED_STRICT_S,
};
use crate::controller::publish::TreadReply;
use crate::controller::report::{SourceReply, TStarState};
use crate::controller::session::reentry_seed;
use crate::controller::trial::ScoreReply;
use crate::controller::upkeep::ReassertReply;
use crate::controller::windows::slope;
use crate::num::Num;
use crate::status::{Mode, StatusFlag};
use crate::table::entry;
use crate::types::{Freshness, Sample};
use vstd::prelude::*;

verus! {

/// The flag of a trip.
pub open spec fn trip_flag(trip: Trip) -> StatusFlag {
    match trip {
        Trip::Thermal => StatusFlag::ThermalEmergency,
        Trip::SensorLost => StatusFlag::SensorLost,
    }
}

/// The cause of a trip.
pub open spec fn trip_cause(trip: Trip) -> Cause {
    match trip {
        Trip::Thermal => Cause::ThermalEmergency,
        Trip::SensorLost => Cause::SensorLost,
    }
}

/// The orders for the replica of a session.
pub open spec fn replica_ordered(orders: Seq<Order>, r: ReplicaOrders, seed: ReplicaSeed) -> Seq<Order> {
    let a = if r.resume_reset {
        orders.push(Order::ResetReplica(seed))
    } else {
        orders
    };
    let b = match r.interval {
        Some(n) => a.push(Order::SetReplicaInterval(n)),
        None => a,
    };
    if r.entry_reset {
        b.push(Order::ResetReplica(seed))
    } else {
        b
    }
}

/// The pair of caps recorded for a sample's view.
pub open spec fn recorded_pair(store: StoreView, s: Sample, duty: u8) -> Option<WarmStartEntry> {
    match s.fanctrl {
        Some(v) => entry(store.warm, warm_key(v.strategy@, duty, s.on_ac)),
        None => None,
    }
}

fn find_pair(store: &Store, s: &Sample, duty: u8) -> (r: Option<WarmStartEntry>)
    requires
        store.wf(),
    ensures
        r == recorded_pair(store@, *s, duty),
{
    match &s.fanctrl {
        Some(view) => {
            let key = WarmStart::key(view.strategy.as_str(), duty, s.on_ac);
            store.warm.get(&key)
        },
        None => None,
    }
}

impl Model {
    /// Everything released, and the emergency shown.
    #[verifier::opaque]
    pub open spec fn evacuated(self, trip: Trip) -> (Model, Next) {
        let m = self.without_session().released();
        let flagged = Model { board: m.board.raised(trip_flag(trip)), ..m };
        (
            flagged.with_effect(Effect::Released).drained().with_effect(
                Effect::StatusChanged { cause: trip_cause(trip) },
            ),
            Next::Done,
        )
    }

    /// An emergency: a running calibration is aborted first.
    pub open spec fn emergency(self, trip: Trip) -> (Model, Next) {
        if self.core.calibrating {
            (self, Next::AbortRunner(Abort::Emergency(trip)))
        } else {
            self.evacuated(trip)
        }
    }

    /// With the trip of an idle machine remarked on, or not.
    pub open spec fn warned(self, w: bool) -> Model {
        Model {
            core: Core { watch: Watch { idle_trip_warned: w, ..self.core.watch }, ..self.core },
            ..self
        }
    }

    /// The first sample after a calibration that suspended a session.
    #[verifier::opaque]
    pub open spec fn rejoined(self, s: Sample) -> Model {
        let fresh = s.fanctrl is Some && s.fanctrl_freshness == Freshness::Fresh;
        let seed = ReplicaSeed {
            ma_c: if fresh {
                Some(s.fanctrl->0.ma_temperature)
            } else {
                None
            },
            ..seed_of(s)
        };
        let set = if fresh {
            self.orders.push(Order::SetReplicaInterval(s.fanctrl->0.ma_interval))
        } else {
            self.orders
        };
        match self.auto {
            Some(a) => Model {
                core: Core { reentry_hold: false, ..self.core },
                auto: Some(a.reseeded(s, self.config)),
                orders: set.push(Order::ResetReplica(seed)),
                ..self
            },
            None => Model { core: Core { reentry_hold: false, ..self.core }, ..self },
        }
    }

    /// The closed loop takes the sample in; without it, the measured draw is
    /// next.
    #[verifier::opaque]
    pub open spec fn looped(self, s: Sample, fenced: bool) -> (Model, Next) {
        match self.auto {
            Some(a) if self.core.limits.mode == Mode::Auto => (
                Model {
                    auto: Some(
                        a.taken_in(s, self.config, self.store.cpu_gains, self.store.gpu_gains),
                    ),
                    orders: replica_ordered(self.orders, a.replica_orders(s), seed_of(s)),
                    ..self
                },
                Next::TickReplica,
            ),
            _ => self.measured(s, fenced),
        }
    }

    /// After a resume: limits are watched more strictly for a while, the
    /// resume is shown for a while, and a session's evidence starts over.
    #[verifier::opaque]
    pub open spec fn resumed(self, t_mono: Num) -> Model {
        let poked = if self.rig.gpu {
            self.orders.push(Order::PokeGpu)
        } else {
            self.orders
        };
        Model {
            core: Core {
                watch: Watch {
                    strict_until: Some(t_mono.plus(Num(RESUMED_STRICT_S))),
                    resumed_until: Some(t_mono.plus(Num(RESUMED_FLAG_S))),
                    ..self.core.watch
                },
                ..self.core
            },
            board: self.board.raised(StatusFlag::Resumed),
            auto: match self.auto {
                Some(a) => Some(a.roused(self.config)),
                None => None,
            },
            orders: if self.auto is Some {
                poked.push(Order::DropVerifier)
            } else {
                poked
            },
            ..self
        }
    }

    /// With the resume no longer shown.
    #[verifier::opaque]
    pub open spec fn resume_over(self) -> Model {
        Model {
            core: Core { watch: Watch { resumed_until: None, ..self.core.watch }, ..self.core },
            board: self.board.lowered(StatusFlag::Resumed),
            ..self
        }.because(Cause::Resume)
    }

    /// The resume comes first: the firmware may have forgotten the limits.
    #[verifier::opaque]
    pub open spec fn waking(self, s: Sample, fenced: bool) -> (Model, Next) {
        if s.resumed {
            let m = self.resumed(s.t_mono);
            let (cpu_mw, gpu_mhz) = m.plan(fenced);
            if cpu_mw is Some || gpu_mhz is Some {
                (m, Next::Reassert { why: Why::Resume, cpu_mw, gpu_mhz })
            } else {
                m.because(Cause::Resume).looped(s, fenced)
            }
        } else if self.core.watch.resumed_until matches Some(until) && until.le(s.t_mono) {
            self.resume_over().looped(s, fenced)
        } else {
            self.looped(s, fenced)
        }
    }

    /// By mode: a calibration's runner owns the actuators; a session that has
    /// just been given back holds still; everything else goes on.
    #[verifier::opaque]
    pub open spec fn routed(self, s: Sample, finishing: bool, fenced: bool) -> (Model, Next) {
        if self.core.limits.mode == Mode::Calibrating {
            self.trial_begun(s, finishing, fenced)
        } else if self.core.limits.mode == Mode::Auto && self.core.reentry_hold {
            (self.rejoined(s), Next::Done)
        } else {
            self.opened().waking(s, fenced)
        }
    }

    /// After the watchdog has seen the sample: a trip acts only if there is
    /// something to release.
    #[verifier::opaque]
    pub open spec fn watched(
        self,
        s: Sample,
        trip: Option<Trip>,
        quiet: bool,
        finishing: bool,
        fenced: bool,
    ) -> (Model, Next) {
        match trip {
            None => if self.core.watch.idle_trip_warned && quiet {
                self.warned(false).routed(s, finishing, fenced)
            } else {
                self.routed(s, finishing, fenced)
            },
            Some(t) => if t == Trip::Thermal && self.core.limits.mode == Mode::Calibrating {
                (self.opened(), Next::AbortRunner(Abort::Overheated))
            } else if self.core.commanded() {
                self.emergency(t)
            } else {
                self.warned(true).ordering(Order::RearmWatchdog).routed(s, finishing, fenced)
            },
        }
    }

    /// After limits were looked after.
    #[verifier::opaque]
    pub open spec fn looked_after(self, s: Sample, why: Why, reply: ReassertReply, fenced: bool) -> (
        Model,
        Next,
    ) {
        let m = self.tended(reply, s.t_mono).reported(why, Model::upheld(reply), s.t_mono);
        match why {
            Why::Resume => m.because(Cause::Resume).looped(s, fenced),
            Why::Stickiness => m.unstuck().scheduled(s.t_mono, fenced),
            Why::Schedule => m.finished(),
        }
    }

    /// After a runner was aborted because it was too hot.
    #[verifier::opaque]
    pub open spec fn cooled(self, s: Sample, steps: Seq<CalibStep>, shown: Option<ProgressView>) -> (
        Model,
        Next,
    ) {
        self.progressed(steps, shown, s.fanctrl).closed(Cause::CalibSkipped).emergency(
            Trip::Thermal,
        )
    }

    /// After a runner was aborted in an emergency.
    #[verifier::opaque]
    pub open spec fn aborted_in(self, trip: Trip, steps: Seq<CalibStep>) -> (Model, Next) {
        self.calibrated(steps, None).calibration_ended().evacuated(trip)
    }

    /// What both lanes see, besides the sample.
    pub open spec fn drive_facts(self, s: Sample, duty: u8) -> DriveFacts {
        DriveFacts {
            cpu_group_c: self.run.pass.cpu_group_c,
            gpu_group_c: self.run.pass.gpu_group_c,
            warm: recorded_pair(self.store, s, duty),
            cpu_limit_w: self.core.limits.cpu_limit_w,
            gpu_max_mhz: self.core.limits.gpu_max_mhz,
        }
    }

    /// With both caps decided.
    #[verifier::opaque]
    pub open spec fn decided(self, s: Sample, reply: SourceReply, duty: u8, rpm: Num) -> Model {
        let a = self.auto->0;
        let f = self.drive_facts(s, duty);
        Model {
            auto: Some(a.driven(s, reply, self.config, f)),
            run: RunView {
                pass: Pass {
                    decisions: Some(a.decisions(s, reply, self.config, f)),
                    target_duty: duty,
                    target_rpm: rpm,
                    ..self.run.pass
                },
                ..self.run
            },
            ..self
        }
    }

    /// After the target's source has answered.
    #[verifier::opaque]
    pub open spec fn sourced(
        self,
        s: Sample,
        reply: SourceReply,
        curve: TreadReply,
        duty: u8,
        rpm: Num,
        fenced: bool,
    ) -> (Model, Next) {
        if self.auto is Some {
            let changed = self.readout.gauges.tstar_state != Some(reply.state);
            let d = self.decided(s, reply, duty, rpm);
            let m = d.published(s, d.run.pass.decisions->0, reply, curve);
            if reply.state == TStarState::Released {
                let idle = m.idled();
                (if changed {
                    idle.let_go()
                } else {
                    idle
                }).measured(s, fenced)
            } else {
                m.writing(s, fenced)
            }
        } else {
            self.measured(s, fenced)
        }
    }

    /// The request to the target's source.
    #[verifier::opaque]
    pub open spec fn asking(self, s: Sample, score: ScoreReply, fenced: bool) -> (Model, Next) {
        let m = self.pass_with(score);
        match self.auto {
            Some(a) => (
                Model { auto: Some(a.sourced()), ..m },
                Next::AskSource(
                    a.source_request(
                        s,
                        self.config,
                        self.core.limits.fan_target_rpm,
                        score.trusted,
                        score.cpu_group_c,
                        score.gpu_group_c,
                    ),
                ),
            ),
            None => m.measured(s, fenced),
        }
    }

    /// What the replica is told.
    pub open spec fn telling(self, s: Sample, ma: Option<Num>, gap_s: Num, fenced: bool) -> (Model, Next) {
        match self.auto {
            Some(a) => (
                self,
                Next::ScoreView(observation_of(s, slope(a.ec_slope), gap_s, ma)),
            ),
            None => self.measured(s, fenced),
        }
    }

    /// A sample begins; none is handled once the machine shuts down.
    pub open spec fn begun(self, fenced: bool) -> (Model, Next) {
        (
            Model { run: RunView { effects: Seq::empty(), ..self.run }, ..self },
            if fenced {
                Next::Done
            } else {
                Next::ObserveWatchdog
            },
        )
    }
}

impl Controller {
    /// Begins with a sample.
    pub fn on_sample(&mut self, fenced: bool) -> (r: Next)
        requires
            old(self).wf(),
        ensures
            final(self)@ == old(self)@.begun(fenced).0,
            r == old(self)@.begun(fenced).1,
            final(self).wf(),
            old(self)@.idle() ==> final(self)@.idle(),
    {
        self.run.effects.clear();
        if fenced {
            Next::Done
        } else {
            Next::ObserveWatchdog
        }
    }

    fn evacuate(&mut self, trip: Trip) -> (r: Next)
        requires
            old(self).sound(),
            !old(self)@.core.calibrating,
        ensures
            final(self)@ == old(self)@.evacuated(trip).0,
            r == old(self)@.evacuated(trip).1,
            final(self).wf(),
    {
        proof {
            reveal(Model::evacuated);
        }
        self.exit_auto_and_persist();
        self.release_to_stock();
        let (flag, cause) = match trip {
            Trip::Thermal => (StatusFlag::ThermalEmergency, Cause::ThermalEmergency),
            Trip::SensorLost => (StatusFlag::SensorLost, Cause::SensorLost),
        };
        self.board.add_flag(flag);
        self.run.effects.push(Effect::Released);
        self.drain();
        self.run.effects.push(Effect::StatusChanged { cause });
        Next::Done
    }

    fn emergency_release(&mut self, trip: Trip) -> (r: Next)
        requires
            old(self).wf(),
        ensures
            final(self)@ == old(self)@.emergency(trip).0,
            r == old(self)@.emergency(trip).1,
            final(self).wf(),
    {
        if self.core.calibrating {
            Next::AbortRunner(Abort::Emergency(trip))
        } else {
            self.evacuate(trip)
        }
    }

    fn reseed_auto_after_calibration(&mut self, s: &Sample)
        requires
            old(self).wf(),
        ensures
            final(self)@ == old(self)@.rejoined(*s),
            final(self).wf(),
    {
        proof {
            reveal(Model::rejoined);
        }
        self.core.reentry_hold = false;
        if let Some(auto) = &mut self.auto {
            auto.reseed(s, &self.config);
            let (seed, interval) = reentry_seed(s);
            if let Some(n) = interval {
                self.orders.push(Order::SetReplicaInterval(n));
            }
            self.orders.push(Order::ResetReplica(seed));
        }
    }

    fn order_replica(&mut self, r: ReplicaOrders, seed: ReplicaSeed)
        ensures
            final(self)@ == (Model {
                orders: replica_ordered(old(self)@.orders, r, seed),
                ..old(self)@
            }),
            old(self).wf() ==> final(self).wf(),
    {
        if r.resume_reset {
            self.orders.push(Order::ResetReplica(seed));
        }
        if let Some(n) = r.interval {
            self.orders.push(Order::SetReplicaInterval(n));
        }
        if r.entry_reset {
            self.orders.push(Order::ResetReplica(seed));
        }
    }

    fn run_loop(&mut self, s: &Sample, fenced: bool) -> (r: Next)
        requires
            old(self).wf(),
        ensures
            final(self)@ == old(self)@.looped(*s, fenced).0,
            r == old(self)@.looped(*s, fenced).1,
            final(self).wf(),
    {
        proof {
            reveal(Model::looped);
        }
        if self.core.limits.mode == Mode::Auto {
            if let Some(auto) = &mut self.auto {
                let orders = auto.take_in(
                    s,
                    &self.config,
                    &self.store.cpu_gains,
                    &self.store.gpu_gains,
                );
                self.order_replica(orders, replica_seed(s));
                return Next::TickReplica;
            }
        }
        self.measure(s, fenced)
    }

    fn note_resume(&mut self, t_mono: Num)
        requires
            old(self).wf(),
        ensures
            final(self)@ == old(self)@.resumed(t_mono),
            final(self).wf(),
    {
        proof {
            reveal(Model::resumed);
        }
        if self.rig.gpu {
            self.orders.push(Order::PokeGpu);
        }
        self.core.watch =
        Watch {
            strict_until: Some(t_mono + Num(RESUMED_STRICT_S)),
            resumed_until: Some(t_mono + Num(RESUMED_FLAG_S)),
            ..self.core.watch
        };
        self.board.add_flag(StatusFlag::Resumed);
        if let Some(auto) = &mut self.auto {
            auto.rouse(&self.config);
            self.orders.push(Order::DropVerifier);
        }
    }

    fn end_resume(&mut self)
        requires
            old(self).wf(),
        ensures
            final(self)@ == old(self)@.resume_over(),
            final(self).wf(),
    {
        proof {
            reveal(Model::resume_over);
        }
        self.board.remove_flag(StatusFlag::Resumed);
        self.core.watch.resumed_until = None;
        self.claim(Cause::Resume);
    }

    fn wake(&mut self, s: &Sample, fenced: bool) -> (r: Next)
        requires
            old(self).wf(),
        ensures
            final(self)@ == old(self)@.waking(*s, fenced).0,
            r == old(self)@.waking(*s, fenced).1,
            final(self).wf(),
    {
        proof {
            reveal(Model::waking);
        }
        if s.resumed {
            self.note_resume(s.t_mono);
            let (cpu_mw, gpu_mhz) = self.reassert_plan(fenced);
            if cpu_mw.is_some() || gpu_mhz.is_some() {
                return Next::Reassert { why: Why::Resume, cpu_mw, gpu_mhz };
            }
            self.claim(Cause::Resume);
        } else if let Some(until) = self.core.watch.resumed_until {
            if s.t_mono >= until {
                self.end_resume();
            }
        }
        self.run_loop(s, fenced)
    }

    fn route(&mut self, s: &Sample, finishing: bool, fenced: bool) -> (r: Next)
        requires
            old(self).wf(),
        ensures
            final(self)@ == old(self)@.routed(*s, finishing, fenced).0,
            r == old(self)@.routed(*s, finishing, fenced).1,
            final(self).wf(),
    {
        proof {
            reveal(Model::routed);
        }
        if self.core.limits.mode == Mode::Calibrating {
            return self.begin_trial(s, finishing, fenced);
        }
        if self.core.limits.mode == Mode::Auto && self.core.reentry_hold {
            self.reseed_auto_after_calibration(s);
            return Next::Done;
        }
        self.open_run();
        self.wake(s, fenced)
    }

    /// Takes in what the watchdog made of the sample, whether it is quiet,
    /// and whether a runner is about to finish a response.
    pub fn after_watchdog(
        &mut self,
        s: &Sample,
        trip: Option<Trip>,
        quiet: bool,
        finishing: bool,
        fenced: bool,
    ) -> (r: Next)
        requires
            old(self).wf(),
        ensures
            final(self)@ == old(self)@.watched(*s, trip, quiet, finishing, fenced).0,
            r == old(self)@.watched(*s, trip, quiet, finishing, fenced).1,
            final(self).wf(),
            old(self)@.idle() && r is Done ==> final(self)@.idle(),
    {
        proof {
            if old(self)@.idle() {
                lemma_watched_reports(old(self)@, *s, trip, quiet, finishing, fenced);
            }
            reveal(Model::watched);
        }
        match trip {
            None => {
                if self.core.watch.idle_trip_warned && quiet {
                    self.core.watch.idle_trip_warned = false;
                }
            },
            Some(t) => {
                if t == Trip::Thermal && self.core.limits.mode == Mode::Calibrating {
                    self.open_run();
                    return Next::AbortRunner(Abort::Overheated);
                }
                if self.core.anything_commanded() {
                    return self.emergency_release(t);
                }
                self.core.watch.idle_trip_warned = true;
                self.orders.push(Order::RearmWatchdog);
            },
        }
        self.route(s, finishing, fenced)
    }

    /// Takes in how looking after the limits went.
    pub fn after_reassert(&mut self, s: &Sample, why: Why, reply: ReassertReply, fenced: bool) -> (r: Next)
        requires
            old(self).wf(),
        ensures
            final(self)@ == old(self)@.looked_after(*s, why, reply, fenced).0,
            r == old(self)@.looked_after(*s, why, reply, fenced).1,
            final(self).wf(),
            r is Done ==> final(self)@.idle(),
    {
        proof {
            lemma_looked_after_reports(old(self)@, *s, why, reply, fenced);
            reveal(Model::looked_after);
        }
        let held = self.reassert_actuators(reply, s.t_mono);
        self.report(why, held, s.t_mono);
        match why {
            Why::Resume => {
                self.claim(Cause::Resume);
                self.run_loop(s, fenced)
            },
            Why::Stickiness => {
                self.mark_unstuck();
                self.keep_schedule(s.t_mono, fenced)
            },
            Why::Schedule => self.finish(),
        }
    }

    /// Takes in what a runner wanted done as it was aborted: because it was
    /// too hot, or in an emergency.
    pub fn after_abort(
        &mut self,
        s: &Sample,
        why: Abort,
        steps: &Vec<CalibStep>,
        shown: Option<CalibProgress>,
    ) -> (r: Next)
        requires
            old(self).wf(),
            forall|i: int| 0 <= i < steps@.len() ==> step_wf(#[trigger] steps@[i]),
        ensures
            ({
                let spec = match why {
                    Abort::Overheated => old(self)@.cooled(*s, steps@, progress(shown)),
                    Abort::Emergency(trip) => old(self)@.aborted_in(trip, steps@),
                };
                final(self)@ == spec.0 && r == spec.1
            }),
            final(self).wf(),
            r is Done ==> final(self)@.idle(),
    {
        proof {
            lemma_abort_reports(
                old(self)@,
                *s,
                steps@,
                progress(shown),
                match why {
                    Abort::Overheated => Trip::Thermal,
                    Abort::Emergency(trip) => trip,
                },
            );
            reveal(Model::cooled);
            reveal(Model::aborted_in);
        }
        match why {
            Abort::Overheated => {
                self.progress_with(steps, shown, &s.fanctrl);
                self.close_run(Cause::CalibSkipped);
                self.emergency_release(Trip::Thermal)
            },
            Abort::Emergency(trip) => {
                let _ = self.apply_calib_effects(steps, &None);
                self.end_calibration();
                self.evacuate(trip)
            },
        }
    }

    /// Takes in the replica's average and the age of the view, s.
    pub fn after_replica(&mut self, s: &Sample, ma: Option<Num>, gap_s: Num, fenced: bool) -> (r: Next)
        requires
            old(self).wf(),
        ensures
            final(self)@ == old(self)@.telling(*s, ma, gap_s, fenced).0,
            r == old(self)@.telling(*s, ma, gap_s, fenced).1,
            final(self).wf(),
            r is Done ==> final(self)@.idle(),
    {
        proof {
            lemma_telling_reports(old(self)@, *s, ma, gap_s, fenced);
        }
        if let Some(auto) = &self.auto {
            return Next::ScoreView(auto.observation(s, gap_s, ma));
        }
        self.measure(s, fenced)
    }

    /// Takes in what the replica says.
    pub fn after_score(&mut self, s: &Sample, score: ScoreReply, fenced: bool) -> (r: Next)
        requires
            old(self).wf(),
        ensures
            final(self)@ == old(self)@.asking(*s, score, fenced).0,
            r == old(self)@.asking(*s, score, fenced).1,
            final(self).wf(),
            r is Done ==> final(self)@.idle(),
    {
        proof {
            lemma_asking_reports(old(self)@, *s, score, fenced);
            reveal(Model::asking);
        }
        self.take_score(score);
        if let Some(auto) = &mut self.auto {
            let request = auto.request(
                s,
                &self.config,
                self.core.limits.fan_target_rpm,
                score.trusted,
                score.cpu_group_c,
                score.gpu_group_c,
            );
            return Next::AskSource(request);
        }
        self.measure(s, fenced)
    }

    fn decide(&mut self, s: &Sample, reply: &SourceReply, duty: u8, rpm: Num) -> (r: Decisions)
        requires
            old(self).wf(),
            old(self)@.auto is Some,
        ensures
            final(self)@ == old(self)@.decided(*s, *reply, duty, rpm),
            final(self)@.run.pass.decisions == Some(r),
            final(self).wf(),
            final(self)@.auto is Some,
            final(self)@.readout == old(self)@.readout,
    {
        proof {
            reveal(Model::decided);
        }
        let facts = DriveFacts {
            cpu_group_c: self.run.pass.cpu_group_c,
            gpu_group_c: self.run.pass.gpu_group_c,
            warm: find_pair(&self.store, s, duty),
            cpu_limit_w: self.core.limits.cpu_limit_w,
            gpu_max_mhz: self.core.limits.gpu_max_mhz,
        };
        let mut auto = self.auto.take().unwrap();
        let decisions = auto.drive(s, reply, &self.config, &facts);
        self.auto = Some(auto);
        self.run.pass =
        Pass {
            decisions: Some(decisions),
            target_duty: duty,
            target_rpm: rpm,
            ..self.run.pass
        };
        decisions
    }

    /// Takes in the answer of the target's source, what the view's curve says
    /// of the target duty, and the fan speed at that duty.
    pub fn after_source(
        &mut self,
        s: &Sample,
        reply: &SourceReply,
        curve: TreadReply,
        duty: u8,
        rpm: Num,
        fenced: bool,
    ) -> (r: Next)
        requires
            old(self).wf(),
        ensures
            final(self)@ == old(self)@.sourced(*s, *reply, curve, duty, rpm, fenced).0,
            r == old(self)@.sourced(*s, *reply, curve, duty, rpm, fenced).1,
            final(self).wf(),
            r is Done ==> final(self)@.idle(),
    {
        proof {
            lemma_sourced_reports(old(self)@, *s, *reply, curve, duty, rpm, fenced);
            reveal(Model::sourced);
        }
        if self.auto.is_none() {
            return self.measure(s, fenced);
        }
        let changed = self.readout.gauges.tstar_state != Some(reply.state);
        let decisions = self.decide(s, reply, duty, rpm);
        self.publish(s, &decisions, reply, &curve);
        if reply.state == TStarState::Released {
            self.idle();
            if changed {
                self.let_caps_go();
            }
            self.measure(s, fenced)
        } else {
            self.write_decisions(s, fenced)
        }
    }
}

} // verus!
