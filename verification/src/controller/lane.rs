//! One device's loop with its guard ceiling and its actuator's history.

use crate::controller::verdict::{VerdictOutcome, VerdictState, WriteVerdict};
use crate::device_loop::{
    fresh, ActuatorState, DeviceDecision, DeviceLoop, DeviceUnit, Gains, Hold, LoopState, Plant,
    ThermalMode, TickInput,
};
use crate::guards::{Levels, MaxRatchet};
use crate::num::{Num, ZERO};
use vstd::prelude::*;

verus! {

/// 2: writes to an actuator are this far apart, s.
pub const WRITE_PERIOD_S: u64 = 0x4000_0000_0000_0000;

/// Where a device's gains come from.
#[derive(Clone, Copy, Debug, PartialEq, Eq, Structural)]
pub enum GainsSource {
    /// The plant's constants.
    Default,
    /// A calibration.
    Fitted,
    /// The user's configuration.
    Config,
}

/// What a lane remembers besides its loop.
#[derive(Clone, Copy, Debug)]
pub struct LaneFacts {
    /// What held the cap in the sample before.
    pub prior_hold: Hold,
    /// What the last write's read-back showed.
    pub actuator: ActuatorState,
    /// When the last write ended, s.
    pub last_write: Option<Num>,
    pub gains_source: GainsSource,
    /// The loop has its first candidates.
    pub entry_seeded: bool,
    /// The shadow candidate has its first measured draw.
    pub shadow_seeded: bool,
    /// The thermal candidate is to start over from the ceiling.
    pub restore_pending: bool,
    pub verdict: VerdictState,
}

/// One device's loop, ceiling and actuator.
pub struct Lane<U: DeviceUnit> {
    pub device: DeviceLoop<U>,
    pub ratchet: MaxRatchet<U>,
    pub facts: LaneFacts,
}

/// A [`Lane`] as values.
#[verifier::ext_equal]
pub struct LaneView {
    pub state: LoopState,
    pub recent: Seq<(Num, Num)>,
    pub levels: Levels,
    pub facts: LaneFacts,
}

impl<U: DeviceUnit> View for Lane<U> {
    type V = LaneView;

    open spec fn view(&self) -> LaneView {
        LaneView {
            state: self.device.state,
            recent: self.device.recent_draw@,
            levels: self.ratchet.levels,
            facts: self.facts,
        }
    }
}

/// What a lane sees in one sample.
#[derive(Clone, Copy, Debug)]
pub struct LaneInput {
    /// Target temperature, °C.
    pub t_star: Num,
    /// Temperature of the device's group, °C.
    pub group_c: Option<Num>,
    /// Measured draw.
    pub draw: Option<Num>,
    pub floor: Num,
    /// The configured maximum, from which a cold entry starts.
    pub top: Num,
    /// The cap recorded for such an entry.
    pub warm: Option<Num>,
    /// The cap in force.
    pub applied: Option<Num>,
    pub headroom: Num,
    pub fall_rate: Num,
    pub shadow_enabled: bool,
    pub mode: ThermalMode,
    pub dt_s: Num,
    pub resumed: bool,
    pub delta_tstar: Num,
    /// The target was resynchronised.
    pub resync: bool,
    /// The thermal candidate is to start over from the ceiling.
    pub restore: bool,
}

impl LaneFacts {
    /// As a session begins.
    pub open spec fn at_start(gains_source: GainsSource) -> LaneFacts {
        LaneFacts {
            prior_hold: Hold::Free,
            actuator: ActuatorState::Unverifiable,
            last_write: None,
            gains_source,
            entry_seeded: false,
            shadow_seeded: false,
            restore_pending: false,
            verdict: VerdictState::clear(),
        }
    }

    /// The actuator does as it is told.
    pub open spec fn calm(self, resumed: bool) -> bool {
        self.actuator != ActuatorState::Mismatch && !self.verdict.episode() && !resumed
    }

    /// As a session begins.
    pub fn new(gains_source: GainsSource) -> (r: LaneFacts)
        ensures
            r == LaneFacts::at_start(gains_source),
    {
        LaneFacts {
            prior_hold: Hold::Free,
            actuator: ActuatorState::Unverifiable,
            last_write: None,
            gains_source,
            entry_seeded: false,
            shadow_seeded: false,
            restore_pending: false,
            verdict: VerdictState::default(),
        }
    }

    /// Whether the actuator does as it is told.
    pub fn is_calm(&self, resumed: bool) -> (r: bool)
        ensures
            r == self.calm(resumed),
    {
        self.actuator != ActuatorState::Mismatch && !self.verdict.in_episode() && !resumed
    }
}

/// What a read-back means for the loop: a mismatch while the power source has
/// just changed proves nothing.
pub open spec fn read_back(verdict: WriteVerdict, suppress: bool) -> ActuatorState {
    match verdict {
        WriteVerdict::Verified(_) => ActuatorState::Verified,
        WriteVerdict::Mismatch { .. } => if suppress {
            ActuatorState::Unverifiable
        } else {
            ActuatorState::Mismatch
        },
        WriteVerdict::Unreadable | WriteVerdict::Unverifiable => ActuatorState::Unverifiable,
    }
}

pub(crate) fn actuator_state(verdict: WriteVerdict, suppress: bool) -> (r: ActuatorState)
    ensures
        r == read_back(verdict, suppress),
{
    match verdict {
        WriteVerdict::Verified(_) => ActuatorState::Verified,
        WriteVerdict::Mismatch { .. } => if suppress {
            ActuatorState::Unverifiable
        } else {
            ActuatorState::Mismatch
        },
        WriteVerdict::Unreadable | WriteVerdict::Unverifiable => ActuatorState::Unverifiable,
    }
}

impl LaneInput {
    /// The lowest cap that the measured draw and the floor leave sensible at
    /// an entry.
    pub open spec fn entry_floor(self) -> Num {
        match self.draw {
            Some(d) => d.plus(self.headroom),
            None => self.floor,
        }
    }

    /// The thermal candidate of an entry: the recorded cap once there is a
    /// draw to hold it against, else the configured maximum; never below the
    /// entry floor, never above the ceiling.
    #[verifier::opaque]
    pub open spec fn entry_thermal(self, max: Num) -> Num {
        let wanted = match (self.draw, self.warm) {
            (Some(_), Some(w)) => w,
            _ => self.top,
        };
        wanted.greater(self.entry_floor()).lesser(max)
    }

    /// With a recorded cap as the thermal candidate, no lower than `level`.
    #[verifier::opaque]
    pub open spec fn warmed(self, s: LoopState, level: Num, max: Num) -> LoopState {
        match self.warm {
            Some(w) => s.thermal_at(w.greater(level).lesser(max), self.error()),
            None => s,
        }
    }

    /// The error of the group, if it is there.
    pub open spec fn error(self) -> Num {
        self.t_star.minus(self.group_c->0)
    }
}

impl LaneView {
    /// The bounds of the loop and of the ceiling are the right way round.
    pub open spec fn wf(self) -> bool {
        self.state.wf() && self.levels.wf()
    }

    /// A lane that has not run yet.
    pub open spec fn at_start(gains: Gains, source: GainsSource, levels: Levels) -> LaneView {
        LaneView {
            state: fresh(gains),
            recent: Seq::empty(),
            levels,
            facts: LaneFacts::at_start(source),
        }
    }

    /// With the first candidates, once the group is there.
    #[verifier::opaque]
    pub open spec fn entered(self, i: LaneInput, max: Num) -> LaneView {
        if i.group_c is Some && !self.facts.entry_seeded {
            let thermal = i.entry_thermal(max);
            let shadow = if i.draw is Some {
                i.entry_floor()
            } else {
                thermal
            };
            LaneView {
                state: self.state.seeded(thermal, shadow, i.applied, i.error()),
                facts: LaneFacts { entry_seeded: true, ..self.facts },
                ..self
            }
        } else {
            self
        }
    }

    /// The first measured draw may seed the shadow candidate now.
    pub open spec fn shadow_enters(self, i: LaneInput) -> bool {
        i.draw is Some && i.group_c is Some && !self.facts.shadow_seeded && self.facts.calm(
            i.resumed,
        )
    }

    /// With the shadow candidate seeded from the first measured draw. A
    /// recorded cap becomes the thermal candidate with it.
    #[verifier::opaque]
    pub open spec fn shadow_entered(self, i: LaneInput, max: Num) -> LaneView {
        if self.shadow_enters(i) {
            let level = i.draw->0.plus(i.headroom).within(i.floor, max);
            LaneView {
                state: i.warmed(self.state, level, max).drawing(level),
                facts: LaneFacts { shadow_seeded: true, ..self.facts },
                ..self
            }
        } else {
            self
        }
    }

    /// The thermal candidate starts over from the ceiling now.
    pub open spec fn restores(self, i: LaneInput) -> bool {
        (self.facts.restore_pending || i.restore) && i.group_c is Some && self.facts.calm(i.resumed)
    }

    /// With the thermal candidate at the ceiling, if it is to start over and
    /// the actuator does as it is told; else with the error resynchronised,
    /// if the target was.
    #[verifier::opaque]
    pub open spec fn retargeted(self, i: LaneInput, max: Num) -> LaneView {
        if self.restores(i) {
            LaneView {
                state: self.state.thermal_at(max, i.error()),
                facts: LaneFacts { restore_pending: false, ..self.facts },
                ..self
            }
        } else {
            LaneView {
                state: if i.resync && i.group_c is Some {
                    LoopState { e_prev: i.error(), ..self.state }
                } else {
                    self.state
                },
                facts: LaneFacts {
                    restore_pending: self.facts.restore_pending || i.restore,
                    ..self.facts
                },
                ..self
            }
        }
    }

    /// The loop's input.
    pub open spec fn tick_input(self, i: LaneInput, max: Num, restored: bool) -> TickInput {
        TickInput {
            t_star: i.t_star,
            group_c: i.group_c,
            draw: i.draw,
            floor: i.floor,
            max,
            mode: i.mode,
            actuator: self.facts.actuator,
            dt_s: i.dt_s,
            resumed: i.resumed,
            delta_tstar: if i.resync || restored {
                Num(ZERO)
            } else {
                i.delta_tstar
            },
            shadow_headroom: i.headroom,
            shadow_fall_rate: i.fall_rate,
            shadow_enabled: i.shadow_enabled,
        }
    }

    /// Before the loop runs.
    pub open spec fn prepared(self, i: LaneInput) -> LaneView {
        let max = self.levels.current;
        self.entered(i, max).shadow_entered(i, max).retargeted(i, max)
    }

    /// The input that the loop runs on.
    pub open spec fn loop_input(self, i: LaneInput) -> TickInput {
        let max = self.levels.current;
        let restored = self.entered(i, max).shadow_entered(i, max).restores(i);
        self.prepared(i).tick_input(i, max, restored)
    }

    /// The decision of a sample.
    #[verifier::opaque]
    pub open spec fn decision(self, p: Plant, i: LaneInput) -> DeviceDecision {
        let ready = self.prepared(i);
        ready.state.ticked(p, ready.recent, self.loop_input(i)).1
    }

    /// After a sample.
    #[verifier::opaque]
    pub open spec fn driven(self, p: Plant, i: LaneInput) -> LaneView {
        let ready = self.prepared(i);
        let t = self.loop_input(i);
        LaneView {
            state: ready.state.ticked(p, ready.recent, t).0,
            recent: ready.state.history_after(ready.recent, t),
            facts: LaneFacts { prior_hold: self.decision(p, i).hold, ..ready.facts },
            ..ready
        }
    }

    /// The engagement over; the gains, their source and the ceiling stay.
    #[verifier::opaque]
    pub open spec fn disengaged(self) -> LaneView {
        LaneView {
            state: fresh(self.state.gains),
            recent: Seq::empty(),
            facts: LaneFacts::at_start(self.facts.gains_source),
            ..self
        }
    }

    /// A cap in force that the loop has been told of.
    #[verifier::opaque]
    pub open spec fn told(self, cap: Num) -> LaneView {
        LaneView {
            state: LoopState { last_applied: Some(self.state.held(cap)), ..self.state },
            ..self
        }
    }

    /// With other gains; the cap does not step.
    #[verifier::opaque]
    pub open spec fn tuned(self, gains: (Gains, GainsSource)) -> LaneView {
        LaneView {
            state: LoopState { gains: gains.0, ..self.state },
            facts: LaneFacts { gains_source: gains.1, ..self.facts },
            ..self
        }
    }

    /// Without a write to keep apart from.
    #[verifier::opaque]
    pub open spec fn unwritten(self) -> LaneView {
        LaneView { facts: LaneFacts { last_write: None, ..self.facts }, ..self }
    }

    /// A write is due.
    pub open spec fn due(self, t_mono: Num) -> bool {
        match self.facts.last_write {
            None => true,
            Some(last) => Num(WRITE_PERIOD_S).le(t_mono.minus(last)),
        }
    }
}

impl<U: DeviceUnit> Lane<U> {
    /// A lane that has not run yet.
    pub fn new(gains: Gains, source: GainsSource, ratchet: MaxRatchet<U>) -> (r: Lane<U>)
        ensures
            r@ == LaneView::at_start(gains, source, ratchet.levels),
            r@.state.wf(),
    {
        Lane { device: DeviceLoop::new(gains), ratchet, facts: LaneFacts::new(source) }
    }

    fn enter(&mut self, i: LaneInput, max: Num)
        requires
            old(self)@.wf(),
        ensures
            final(self)@ == old(self)@.entered(i, max),
            final(self)@.wf(),
            final(self)@.levels == old(self)@.levels,
    {
        proof {
            reveal(LaneView::entered);
            reveal(LaneInput::entry_thermal);
        }
        if let Some(group) = i.group_c {
            if !self.facts.entry_seeded {
                let entry_floor = match i.draw {
                    Some(draw) => draw + i.headroom,
                    None => i.floor,
                };
                let wanted = match (i.draw, i.warm) {
                    (Some(_), Some(cap)) => cap,
                    _ => i.top,
                };
                let thermal = wanted.max(entry_floor).min(max);
                let shadow = if i.draw.is_some() {
                    entry_floor
                } else {
                    thermal
                };
                self.device.seed_candidates(thermal, shadow, i.applied, i.t_star - group);
                self.facts.entry_seeded = true;
            }
        }
    }

    fn warm_up(&mut self, i: LaneInput, group: Num, level: Num, max: Num)
        requires
            old(self)@.wf(),
            i.group_c == Some(group),
        ensures
            final(self)@ == (LaneView {
                state: i.warmed(old(self)@.state, level, max),
                ..old(self)@
            }),
            final(self)@.wf(),
    {
        proof {
            reveal(LaneInput::warmed);
        }
        if let Some(cap) = i.warm {
            self.device.transfer_thermal(cap.max(level).min(max), i.t_star - group);
        }
    }

    fn enter_shadow(&mut self, i: LaneInput, max: Num)
        requires
            old(self)@.wf(),
            i.floor.le(max),
        ensures
            final(self)@ == old(self)@.shadow_entered(i, max),
            final(self)@.wf(),
            final(self)@.levels == old(self)@.levels,
    {
        proof {
            reveal(LaneView::shadow_entered);
        }
        if let Some(draw) = i.draw {
            if let Some(group) = i.group_c {
                if !self.facts.shadow_seeded && self.facts.is_calm(i.resumed) {
                    let entry_floor = (draw + i.headroom).clamp(i.floor, max);
                    self.warm_up(i, group, entry_floor, max);
                    self.device.seed_initial_shadow(entry_floor);
                    self.facts.shadow_seeded = true;
                }
            }
        }
    }

    fn retarget(&mut self, i: LaneInput, max: Num) -> (r: bool)
        requires
            old(self)@.wf(),
        ensures
            final(self)@ == old(self)@.retargeted(i, max),
            final(self)@.wf(),
            final(self)@.levels == old(self)@.levels,
            r == old(self)@.restores(i),
    {
        proof {
            reveal(LaneView::retargeted);
        }
        self.facts.restore_pending = self.facts.restore_pending || i.restore;
        if let Some(group) = i.group_c {
            if self.facts.restore_pending && self.facts.is_calm(i.resumed) {
                self.device.transfer_thermal(max, i.t_star - group);
                self.facts.restore_pending = false;
                return true;
            }
            if i.resync {
                self.device.resync_error(i.t_star - group);
            }
        }
        false
    }

    /// One sample: seeds what can be seeded, follows the target, and runs the
    /// loop under the ceiling in force.
    pub fn drive(&mut self, i: LaneInput) -> (r: DeviceDecision)
        requires
            old(self)@.wf(),
            i.floor.le(old(self)@.levels.current),
        ensures
            final(self)@ == old(self)@.driven(U::plant(), i),
            r == old(self)@.decision(U::plant(), i),
            final(self)@.wf(),
            final(self)@.levels == old(self)@.levels,
    {
        proof {
            reveal(LaneView::driven);
            reveal(LaneView::decision);
        }
        let max = self.ratchet.levels.current;
        self.enter(i, max);
        self.enter_shadow(i, max);
        let restored = self.retarget(i, max);
        let decision = self.device.tick(
            TickInput {
                t_star: i.t_star,
                group_c: i.group_c,
                draw: i.draw,
                floor: i.floor,
                max,
                mode: i.mode,
                actuator: self.facts.actuator,
                dt_s: i.dt_s,
                resumed: i.resumed,
                delta_tstar: if i.resync || restored {
                    Num(ZERO)
                } else {
                    i.delta_tstar
                },
                shadow_headroom: i.headroom,
                shadow_fall_rate: i.fall_rate,
                shadow_enabled: i.shadow_enabled,
            },
        );
        self.facts.prior_hold = decision.hold;
        decision
    }

    /// Ends the engagement.
    pub fn disengage(&mut self)
        ensures
            final(self)@ == old(self)@.disengaged(),
            old(self)@.wf() ==> final(self)@.wf(),
    {
        proof {
            reveal(LaneView::disengaged);
        }
        self.device.reset_engagement();
        self.facts = LaneFacts::new(self.facts.gains_source);
    }

    /// Tells the loop of a cap in force.
    pub fn tell(&mut self, cap: Num)
        requires
            old(self)@.wf(),
        ensures
            final(self)@ == old(self)@.told(cap),
            final(self)@.wf(),
            final(self)@.facts == old(self)@.facts,
    {
        proof {
            reveal(LaneView::told);
        }
        self.device.note_applied(cap);
    }

    /// Takes other gains.
    pub fn tune(&mut self, gains: Gains, source: GainsSource)
        ensures
            final(self)@ == old(self)@.tuned((gains, source)),
            old(self)@.wf() ==> final(self)@.wf(),
    {
        proof {
            reveal(LaneView::tuned);
        }
        self.device.set_gains(gains);
        self.facts.gains_source = source;
    }

    /// Forgets the last write.
    pub fn forget_write(&mut self)
        ensures
            final(self)@ == old(self)@.unwritten(),
            old(self)@.wf() ==> final(self)@.wf(),
    {
        proof {
            reveal(LaneView::unwritten);
        }
        self.facts.last_write = None;
    }

    /// Whether a write is due.
    pub fn is_due(&self, t_mono: Num) -> (r: bool)
        ensures
            r == self@.due(t_mono),
    {
        match self.facts.last_write {
            None => true,
            Some(last) => t_mono - last >= Num(WRITE_PERIOD_S),
        }
    }

    /// Takes in a confirmed read-back.
    pub fn observe(&mut self, verdict: WriteVerdict, suppress: bool) -> (r: VerdictOutcome)
        ensures
            final(self)@ == old(self)@.seen(verdict, suppress),
            r == old(self)@.facts.verdict.observed(verdict, suppress).1,
            old(self)@.wf() ==> final(self)@.wf(),
    {
        self.facts.actuator = actuator_state(verdict, suppress);
        self.facts.verdict.observe(verdict, suppress)
    }
}

impl LaneView {
    /// With a confirmed read-back taken in.
    pub open spec fn seen(self, verdict: WriteVerdict, suppress: bool) -> LaneView {
        LaneView {
            facts: LaneFacts {
                actuator: read_back(verdict, suppress),
                verdict: self.facts.verdict.observed(verdict, suppress).0,
                ..self.facts
            },
            ..self
        }
    }
}

} // verus!
