//! How a closed-loop session decides both caps of a sample.

use crate::controller::auto::{
    lemma_of_int_is_number, AutoState, AutoView, Session, WarmStartEntry, CPU_HOT_BAND_C,
    CPU_HOT_STRIKES, FALLBACK_MARGIN_C,
};
use crate::controller::config::Config;
use crate::controller::lane::{Lane, LaneInput, LaneView};
use crate::controller::report::SourceReply;
use crate::controller::verdict::one_more;
use crate::controller::windows::{mean, mean_of, slid, slide, DRAW_MEAN_N};
use crate::device_loop::{DeviceDecision, DeviceUnit, Mhz, W};
use crate::guards::{stays_hot, GuardState, Guards, GPU_HYSTERESIS_C, NVME_HYSTERESIS_C};
use crate::num::{of_int, Num, ZERO};
use crate::types::Sample;
use vstd::prelude::*;

verus! {

/// What both lanes of a session see in one sample, besides the sample.
#[derive(Clone, Copy, Debug)]
pub struct DriveFacts {
    pub cpu_group_c: Option<Num>,
    pub gpu_group_c: Option<Num>,
    /// The caps recorded for such an entry.
    pub warm: Option<WarmStartEntry>,
    /// The CPU's cap in force, W.
    pub cpu_limit_w: Option<Num>,
    /// The GPU's cap in force, MHz.
    pub gpu_max_mhz: Option<u32>,
}

/// What a session decides in one sample.
#[derive(Clone, Copy, Debug)]
pub struct Decisions {
    pub cpu: DeviceDecision,
    pub gpu: DeviceDecision,
    pub guard: GuardState,
}

/// A reading, if it is valid.
pub open spec fn reading(valid: bool, x: Num) -> Option<Num> {
    if valid {
        Some(x)
    } else {
        None
    }
}

pub(crate) fn valid_reading(valid: bool, x: Num) -> (r: Option<Num>)
    ensures
        r == reading(valid, x),
{
    if valid {
        Some(x)
    } else {
        None
    }
}

impl LaneView {
    /// With the ceiling stepped over a live floor.
    #[verifier::opaque]
    pub open spec fn ceiled(self, floor: Num, valid: bool, hot: bool, temp: Option<Num>) -> LaneView {
        LaneView { levels: self.levels.on_floor(floor).after(valid, hot, temp), ..self }
    }
}

impl<U: DeviceUnit> Lane<U> {
    /// Steps the ceiling over a live floor.
    pub fn ceil(&mut self, floor: Num, valid: bool, hot: bool, temp: Option<Num>)
        requires
            old(self)@.wf(),
            !floor.nan(),
        ensures
            final(self)@ == old(self)@.ceiled(floor, valid, hot, temp),
            final(self)@.wf(),
            floor.le(final(self)@.levels.current),
    {
        proof {
            reveal(LaneView::ceiled);
            reveal(Num::le);
        }
        self.ratchet.set_floor(floor);
        let _ = self.ratchet.step(valid, hot, temp);
    }
}

impl Session {
    /// Samples in a row at or over the CPU's threshold.
    pub open spec fn hot_streak(self, s: Sample, c: Config) -> u8 {
        if s.cpu_temp_valid && c.cpu_hot_c.le(s.cpu_temp_c) {
            one_more(self.cpu_hot_streak)
        } else {
            0
        }
    }

    /// The CPU is hot after a sample: it takes a streak to become hot, and a
    /// band below the threshold, or a missing reading, to be so no longer.
    pub open spec fn cpu_stays_hot(self, s: Sample, c: Config) -> bool {
        if !s.cpu_temp_valid || s.cpu_temp_c.le(c.cpu_hot_c.minus(Num(CPU_HOT_BAND_C))) {
            false
        } else {
            self.cpu_hot || self.hot_streak(s, c) >= CPU_HOT_STRIKES
        }
    }

    /// The GPU and the drive after a sample.
    pub open spec fn guard(self, s: Sample) -> GuardState {
        GuardState {
            gpu_hot: stays_hot(
                self.guards.gpu_hot,
                reading(s.gpu_temp_valid, s.gpu_temp_c),
                self.guards.gpu_hot_c,
                Num(GPU_HYSTERESIS_C),
            ),
            nvme_hot: stays_hot(
                self.guards.nvme_hot,
                s.nvme_temp_c,
                self.guards.nvme_hot_c,
                Num(NVME_HYSTERESIS_C),
            ),
        }
    }

    /// With every guard stepped.
    #[verifier::opaque]
    pub open spec fn guarded(self, s: Sample, c: Config) -> Session {
        let g = self.guard(s);
        Session {
            guards: Guards { gpu_hot: g.gpu_hot, nvme_hot: g.nvme_hot, ..self.guards },
            cpu_hot_streak: self.hot_streak(s, c),
            cpu_hot: self.cpu_stays_hot(s, c),
            ..self
        }
    }

    fn step_guards(&mut self, s: &Sample, c: &Config) -> (r: GuardState)
        ensures
            *final(self) == old(self).guarded(*s, *c),
            r == old(self).guard(*s),
            final(self).cpu_hot == old(self).cpu_stays_hot(*s, *c),
            final(self).dt_s == old(self).dt_s,
    {
        proof {
            reveal(Session::guarded);
        }
        let guard = self.guards.step(valid_reading(s.gpu_temp_valid, s.gpu_temp_c), s.nvme_temp_c);
        if s.cpu_temp_valid && s.cpu_temp_c >= c.cpu_hot_c {
            self.cpu_hot_streak = self.cpu_hot_streak.saturating_add(1);
        } else {
            self.cpu_hot_streak = 0;
        }
        if !s.cpu_temp_valid || s.cpu_temp_c <= c.cpu_hot_c - Num(CPU_HOT_BAND_C) {
            self.cpu_hot = false;
        } else if self.cpu_hot_streak >= CPU_HOT_STRIKES {
            self.cpu_hot = true;
        }
        guard
    }
}

/// The draws after a sample: one that is no reading makes them all count no
/// more.
#[verifier::opaque]
pub open spec fn drawn(w: Seq<Num>, cpu_pkg_w: Num) -> Seq<Num> {
    if cpu_pkg_w.finite() && Num(ZERO).lt(cpu_pkg_w) {
        slid(w, cpu_pkg_w, DRAW_MEAN_N as nat)
    } else {
        Seq::empty()
    }
}

/// The mean draw, once there are enough readings.
#[verifier::opaque]
pub open spec fn mean_draw(w: Seq<Num>) -> Option<Num> {
    if w.len() == DRAW_MEAN_N {
        Some(mean(w))
    } else {
        None
    }
}

/// The target, or what the loops aim at without one.
pub open spec fn target_of(reply: SourceReply, c: Config) -> Num {
    match reply.t_star {
        Some(t) => t,
        None => c.cpu_hot_c.minus(Num(FALLBACK_MARGIN_C)),
    }
}

/// What the CPU's lane sees.
#[verifier::opaque]
pub open spec fn cpu_input(
    s: Sample,
    reply: SourceReply,
    c: Config,
    f: DriveFacts,
    draw: Option<Num>,
    dt_s: Num,
) -> LaneInput {
    LaneInput {
        t_star: target_of(reply, c),
        group_c: f.cpu_group_c,
        draw,
        floor: c.cpu_floor_w,
        top: c.cpu_max_w,
        warm: match f.warm {
            Some(w) => Some(w.cpu_cap_w),
            None => None,
        },
        applied: f.cpu_limit_w,
        headroom: c.shadow_headroom_cpu_w,
        fall_rate: c.shadow_fall_rate_cpu,
        shadow_enabled: true,
        mode: reply.thermal_mode,
        dt_s,
        resumed: s.resumed,
        delta_tstar: reply.delta_tstar,
        resync: reply.resync,
        restore: reply.restore_thermal,
    }
}

/// What the GPU's lane sees.
#[verifier::opaque]
pub open spec fn gpu_input(s: Sample, reply: SourceReply, c: Config, f: DriveFacts, dt_s: Num) -> LaneInput {
    LaneInput {
        t_star: target_of(reply, c),
        group_c: f.gpu_group_c,
        draw: reading(s.gpu_mhz_valid, s.gpu_sm_mhz),
        floor: of_int(c.gpu_floor_mhz as nat),
        top: of_int(c.gpu_max_mhz as nat),
        warm: match f.warm {
            Some(w) => Some(of_int(w.gpu_lock_mhz as nat)),
            None => None,
        },
        applied: match f.gpu_max_mhz {
            Some(mhz) => Some(of_int(mhz as nat)),
            None => None,
        },
        headroom: c.shadow_headroom_gpu_mhz,
        fall_rate: c.shadow_fall_rate_gpu,
        shadow_enabled: c.gpu_shadow_enabled,
        mode: reply.thermal_mode,
        dt_s,
        resumed: s.resumed,
        delta_tstar: reply.delta_tstar,
        resync: reply.resync,
        restore: reply.restore_thermal,
    }
}

impl AutoView {
    /// The CPU's lane before its loop runs.
    pub open spec fn cpu_under_ceiling(self, s: Sample, c: Config) -> LaneView {
        self.cpu.ceiled(
            c.cpu_floor_w,
            s.cpu_temp_valid,
            self.session.cpu_stays_hot(s, c),
            reading(s.cpu_temp_valid, s.cpu_temp_c),
        )
    }

    /// The GPU's lane before its loop runs.
    pub open spec fn gpu_under_ceiling(self, s: Sample, c: Config) -> LaneView {
        self.gpu.ceiled(
            of_int(c.gpu_floor_mhz as nat),
            s.gpu_temp_valid,
            self.session.guard(s).gpu_hot,
            reading(s.gpu_temp_valid, s.gpu_temp_c),
        )
    }

    /// The CPU's mean draw with a sample.
    pub open spec fn cpu_draw_with(self, s: Sample) -> Option<Num> {
        mean_draw(drawn(self.cpu_draw, s.cpu_pkg_w))
    }

    /// What the CPU's lane sees.
    pub open spec fn cpu_sees(self, s: Sample, reply: SourceReply, c: Config, f: DriveFacts) -> LaneInput {
        cpu_input(s, reply, c, f, self.cpu_draw_with(s), self.session.dt_s)
    }

    /// What the GPU's lane sees.
    pub open spec fn gpu_sees(self, s: Sample, reply: SourceReply, c: Config, f: DriveFacts) -> LaneInput {
        gpu_input(s, reply, c, f, self.session.dt_s)
    }

    /// With both caps decided.
    #[verifier::opaque]
    pub open spec fn driven(self, s: Sample, reply: SourceReply, c: Config, f: DriveFacts) -> AutoView {
        AutoView {
            cpu: self.cpu_under_ceiling(s, c).driven(W::plant(), self.cpu_sees(s, reply, c, f)),
            gpu: self.gpu_under_ceiling(s, c).driven(Mhz::plant(), self.gpu_sees(s, reply, c, f)),
            session: self.session.guarded(s, c),
            cpu_draw: drawn(self.cpu_draw, s.cpu_pkg_w),
            ..self
        }
    }

    /// The decisions of a sample.
    #[verifier::opaque]
    pub open spec fn decisions(self, s: Sample, reply: SourceReply, c: Config, f: DriveFacts) -> Decisions {
        Decisions {
            cpu: self.cpu_under_ceiling(s, c).decision(W::plant(), self.cpu_sees(s, reply, c, f)),
            gpu: self.gpu_under_ceiling(s, c).decision(
                Mhz::plant(),
                self.gpu_sees(s, reply, c, f),
            ),
            guard: self.session.guard(s),
        }
    }
}

fn whole_mhz(mhz: u32) -> (r: Num)
    ensures
        r == of_int(mhz as nat),
        r.finite(),
{
    proof {
        lemma_of_int_is_number(mhz);
    }
    Num::from_int(mhz as u64)
}

fn see_cpu(
    s: &Sample,
    reply: &SourceReply,
    c: &Config,
    f: &DriveFacts,
    draw: Option<Num>,
    dt_s: Num,
) -> (r: LaneInput)
    ensures
        r == cpu_input(*s, *reply, *c, *f, draw, dt_s),
        r.floor == c.cpu_floor_w,
{
    proof {
        reveal(cpu_input);
    }
    let warm = match f.warm {
        Some(record) => Some(record.cpu_cap_w),
        None => None,
    };
    let t_star = match reply.t_star {
        Some(t) => t,
        None => c.cpu_hot_c - Num(FALLBACK_MARGIN_C),
    };
    LaneInput {
        t_star,
        group_c: f.cpu_group_c,
        draw,
        floor: c.cpu_floor_w,
        top: c.cpu_max_w,
        warm,
        applied: f.cpu_limit_w,
        headroom: c.shadow_headroom_cpu_w,
        fall_rate: c.shadow_fall_rate_cpu,
        shadow_enabled: true,
        mode: reply.thermal_mode,
        dt_s,
        resumed: s.resumed,
        delta_tstar: reply.delta_tstar,
        resync: reply.resync,
        restore: reply.restore_thermal,
    }
}

fn see_gpu(s: &Sample, reply: &SourceReply, c: &Config, f: &DriveFacts, dt_s: Num) -> (r: LaneInput)
    ensures
        r == gpu_input(*s, *reply, *c, *f, dt_s),
        r.floor == of_int(c.gpu_floor_mhz as nat),
{
    proof {
        reveal(gpu_input);
    }
    let warm = match f.warm {
        Some(record) => Some(whole_mhz(record.gpu_lock_mhz)),
        None => None,
    };
    let applied = match f.gpu_max_mhz {
        Some(mhz) => Some(whole_mhz(mhz)),
        None => None,
    };
    let t_star = match reply.t_star {
        Some(t) => t,
        None => c.cpu_hot_c - Num(FALLBACK_MARGIN_C),
    };
    LaneInput {
        t_star,
        group_c: f.gpu_group_c,
        draw: valid_reading(s.gpu_mhz_valid, s.gpu_sm_mhz),
        floor: whole_mhz(c.gpu_floor_mhz),
        top: whole_mhz(c.gpu_max_mhz),
        warm,
        applied,
        headroom: c.shadow_headroom_gpu_mhz,
        fall_rate: c.shadow_fall_rate_gpu,
        shadow_enabled: c.gpu_shadow_enabled,
        mode: reply.thermal_mode,
        dt_s,
        resumed: s.resumed,
        delta_tstar: reply.delta_tstar,
        resync: reply.resync,
        restore: reply.restore_thermal,
    }
}

impl AutoState {
    fn take_draw(&mut self, cpu_pkg_w: Num) -> (r: Option<Num>)
        ensures
            final(self)@ == (AutoView {
                cpu_draw: drawn(old(self)@.cpu_draw, cpu_pkg_w),
                ..old(self)@
            }),
            r == mean_draw(drawn(old(self)@.cpu_draw, cpu_pkg_w)),
    {
        proof {
            reveal(drawn);
            reveal(mean_draw);
        }
        if cpu_pkg_w.is_finite() && cpu_pkg_w > Num(ZERO) {
            slide(&mut self.cpu_draw, cpu_pkg_w, DRAW_MEAN_N);
        } else {
            self.cpu_draw.clear();
        }
        if self.cpu_draw.len() == DRAW_MEAN_N {
            Some(mean_of(&self.cpu_draw))
        } else {
            None
        }
    }

    /// Decides both caps of a sample that has been taken in.
    pub fn drive(&mut self, s: &Sample, reply: &SourceReply, c: &Config, f: &DriveFacts) -> (r: Decisions)
        requires
            old(self)@.wf(),
            c.wf(),
        ensures
            final(self)@ == old(self)@.driven(*s, *reply, *c, *f),
            r == old(self)@.decisions(*s, *reply, *c, *f),
            final(self)@.wf(),
    {
        proof {
            reveal(AutoView::driven);
            reveal(AutoView::decisions);
        }
        let guard = self.session.step_guards(s, c);
        self.cpu.ceil(
            c.cpu_floor_w,
            s.cpu_temp_valid,
            self.session.cpu_hot,
            valid_reading(s.cpu_temp_valid, s.cpu_temp_c),
        );
        self.gpu.ceil(
            whole_mhz(c.gpu_floor_mhz),
            s.gpu_temp_valid,
            guard.gpu_hot,
            valid_reading(s.gpu_temp_valid, s.gpu_temp_c),
        );
        let draw = self.take_draw(s.cpu_pkg_w);
        let dt_s = self.session.dt_s;
        let cpu = self.cpu.drive(see_cpu(s, reply, c, f, draw, dt_s));
        let gpu = self.gpu.drive(see_gpu(s, reply, c, f, dt_s));
        Decisions { cpu, gpu, guard }
    }
}

} // verus!
