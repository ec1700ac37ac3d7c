//! What a closed-loop sample shows.

use crate::controller::auto::AutoView;
use crate::controller::board::{Board, BoardView};
use crate::controller::drive::Decisions;
use crate::controller::effect::{Cause, Effect};
use crate::controller::intake::{gain_key, gains_key, ReplicaSeed};
use crate::controller::lane::GainsSource;
use crate::controller::machine::{releasing, Controller, Model, Store, StoreView};
use crate::controller::panel::{diagnostics, Gauges, Limits, Readout, ReadoutView, TelemetryView};
use crate::controller::plain::{Core, Order, Watch};
use crate::controller::report::{
    says_steep, says_unreachable, Device, DeviceReport, SourceFlag, SourceReply, TStarState,
    TelemetryFlag,
};
use crate::num::{Num, ZERO};
use crate::status::StatusFlag;
use crate::types::{FanctrlView, Freshness, Sample};
use vstd::prelude::*;

verus! {

/// What the view's curve says of the target duty.
#[derive(Clone, Copy, Debug)]
pub struct TreadReply {
    /// There is a view, and its points make no curve.
    pub invalid: bool,
    /// The nearest tread at or below the duty, %.
    pub tread: Option<u8>,
    /// The fan speed at that tread, RPM.
    pub rpm: Num,
}

/// Both devices' gains were fitted for the view's strategy and interval.
pub open spec fn fitted(store: StoreView, view: Option<FanctrlView>) -> bool {
    match view {
        Some(v) => {
            let key = gain_key(v.strategy@, v.ma_interval);
            store.cpu_gains.contains_key(key) && store.gpu_gains.contains_key(key)
        },
        None => false,
    }
}

/// Whether both devices' gains were fitted for the view.
pub(crate) fn is_fitted(store: &Store, view: &Option<FanctrlView>) -> (r: bool)
    requires
        store.wf(),
    ensures
        r == fitted(store@, *view),
{
    match view {
        Some(v) => {
            let key = gains_key(&v.strategy, v.ma_interval);
            store.cpu_gains.get(&key).is_some() && store.gpu_gains.get(&key).is_some()
        },
        None => false,
    }
}

/// The flags of a closed-loop sample.
#[verifier::opaque]
pub open spec fn flagged(
    b: BoardView,
    s: Sample,
    d: Decisions,
    reply: SourceReply,
    curve: TreadReply,
    ec_mismatch: bool,
    has_gains: bool,
) -> BoardView {
    b.set(StatusFlag::GpuHot, d.guard.gpu_hot).set(StatusFlag::NvmeHot, d.guard.nvme_hot).set(
        StatusFlag::EcMismatch,
        ec_mismatch,
    ).set(StatusFlag::FanctrlLost, s.fanctrl_freshness != Freshness::Fresh).set(
        StatusFlag::CurveInvalid,
        curve.invalid,
    ).set(StatusFlag::SteepCurve, says_steep(reply.flags@)).set(
        StatusFlag::TargetUnreachable,
        says_unreachable(reply.flags@),
    ).set(StatusFlag::NotCalibrated, !has_gains)
}

fn raise_flags(
    board: &mut Board,
    s: &Sample,
    d: &Decisions,
    reply: &SourceReply,
    curve: &TreadReply,
    ec_mismatch: bool,
    has_gains: bool,
)
    ensures
        final(board)@ == flagged(old(board)@, *s, *d, *reply, *curve, ec_mismatch, has_gains),
        old(board)@.wf() ==> final(board)@.wf(),
{
    proof {
        reveal(flagged);
    }
    let (steep, unreachable) = reply.remarks();
    board.sync_bool_flag(StatusFlag::GpuHot, d.guard.gpu_hot);
    board.sync_bool_flag(StatusFlag::NvmeHot, d.guard.nvme_hot);
    board.sync_bool_flag(StatusFlag::EcMismatch, ec_mismatch);
    board.sync_bool_flag(StatusFlag::FanctrlLost, s.fanctrl_freshness != Freshness::Fresh);
    board.sync_bool_flag(StatusFlag::CurveInvalid, curve.invalid);
    board.sync_bool_flag(StatusFlag::SteepCurve, steep);
    board.sync_bool_flag(StatusFlag::TargetUnreachable, unreachable);
    board.sync_bool_flag(StatusFlag::NotCalibrated, !has_gains);
}

/// The source's remarks as diagnostics.
pub open spec fn remarks(flags: Seq<SourceFlag>) -> Seq<TelemetryView> {
    Seq::new(flags.len(), |i: int| TelemetryView::Source(flags[i]))
}

/// Lost groups as diagnostics.
pub open spec fn losses(d: Decisions) -> Seq<TelemetryView> {
    (if d.cpu.group_lost {
        seq![TelemetryView::GroupLost(Device::Cpu)]
    } else {
        Seq::empty()
    }) + (if d.gpu.group_lost {
        seq![TelemetryView::GroupLost(Device::Gpu)]
    } else {
        Seq::empty()
    })
}

/// Readings thrown out as diagnostics.
pub open spec fn rejects(s: Sample) -> Seq<TelemetryView> {
    match s.ec {
        Some(ec) => Seq::new(
            ec.implausible@.len(),
            |i: int| TelemetryView::EcImplausible(ec.implausible@[i]@),
        ),
        None => Seq::empty(),
    }
}

/// The diagnostics of a closed-loop sample.
#[verifier::opaque]
pub open spec fn diagnosed(s: Sample, d: Decisions, reply: SourceReply) -> Seq<TelemetryView> {
    remarks(reply.flags@) + losses(d) + rejects(s)
}

fn note_remarks(flags: &Vec<SourceFlag>) -> (r: Vec<TelemetryFlag>)
    ensures
        diagnostics(r@) == remarks(flags@),
{
    let mut out: Vec<TelemetryFlag> = Vec::new();
    let mut i: usize = 0;
    while i < flags.len()
        invariant
            i <= flags@.len(),
            out@.len() == i,
            forall|j: int|
                0 <= j < i ==> (#[trigger] out@[j])@ == TelemetryView::Source(flags@[j]),
        decreases flags@.len() - i,
    {
        out.push(TelemetryFlag::Source(flags[i]));
        i += 1;
    }
    assert(diagnostics(out@) =~= remarks(flags@));
    out
}

fn note_loss(out: &mut Vec<TelemetryFlag>, device: Device, lost: bool)
    ensures
        diagnostics(final(out)@) == diagnostics(old(out)@) + (if lost {
            seq![TelemetryView::GroupLost(device)]
        } else {
            Seq::empty()
        }),
{
    if lost {
        out.push(TelemetryFlag::GroupLost { device });
        assert(diagnostics(out@) =~= diagnostics(old(out)@).push(TelemetryView::GroupLost(device)));
    }
    assert(diagnostics(out@) =~= diagnostics(old(out)@) + (if lost {
        seq![TelemetryView::GroupLost(device)]
    } else {
        Seq::empty()
    }));
}

fn note_rejects(out: &mut Vec<TelemetryFlag>, s: &Sample)
    ensures
        diagnostics(final(out)@) == diagnostics(old(out)@) + rejects(*s),
{
    let ghost before = out@;
    if let Some(ec) = &s.ec {
        let mut i: usize = 0;
        while i < ec.implausible.len()
            invariant
                i <= ec.implausible@.len(),
                out@.len() == before.len() + i,
                forall|j: int| 0 <= j < before.len() ==> (#[trigger] out@[j]) == before[j],
                forall|j: int|
                    before.len() <= j < before.len() + i ==> (#[trigger] out@[j])@
                        == TelemetryView::EcImplausible(ec.implausible@[j - before.len()]@),
            decreases ec.implausible@.len() - i,
        {
            out.push(TelemetryFlag::EcImplausible { label: ec.implausible[i].clone() });
            i += 1;
        }
    }
    assert(diagnostics(out@) =~= diagnostics(before) + rejects(*s));
}

fn diagnose(s: &Sample, d: &Decisions, reply: &SourceReply) -> (r: Vec<TelemetryFlag>)
    ensures
        diagnostics(r@) == diagnosed(*s, *d, *reply),
{
    proof {
        reveal(diagnosed);
    }
    let mut out = note_remarks(&reply.flags);
    note_loss(&mut out, Device::Cpu, d.cpu.group_lost);
    note_loss(&mut out, Device::Gpu, d.gpu.group_lost);
    note_rejects(&mut out, s);
    assert(diagnostics(out@) =~= remarks(reply.flags@) + losses(*d) + rejects(*s));
    out
}

/// The gauges of a closed-loop sample.
#[verifier::opaque]
pub open spec fn gauged(
    d: Decisions,
    reply: SourceReply,
    curve: TreadReply,
    ec_ma_c: Option<Num>,
    cpu_source: GainsSource,
    gpu_source: GainsSource,
) -> Gauges {
    let duty_cmd = if reply.state == TStarState::Curve {
        curve.tread
    } else {
        None
    };
    Gauges {
        t_star_c: reply.t_star,
        ec_ma_c,
        duty_cmd,
        snapped_rpm: if duty_cmd is Some {
            curve.rpm
        } else {
            Num(ZERO)
        },
        tstar_state: Some(reply.state),
        cpu: Some(DeviceReport { decision: d.cpu, gains_source: cpu_source }),
        gpu: Some(DeviceReport { decision: d.gpu, gains_source: gpu_source }),
    }
}

fn gauge(
    d: &Decisions,
    reply: &SourceReply,
    curve: &TreadReply,
    ec_ma_c: Option<Num>,
    cpu_source: GainsSource,
    gpu_source: GainsSource,
) -> (r: Gauges)
    ensures
        r == gauged(*d, *reply, *curve, ec_ma_c, cpu_source, gpu_source),
{
    proof {
        reveal(gauged);
    }
    let duty_cmd = if reply.state == TStarState::Curve {
        curve.tread
    } else {
        None
    };
    Gauges {
        t_star_c: reply.t_star,
        ec_ma_c,
        duty_cmd,
        snapped_rpm: if duty_cmd.is_some() {
            curve.rpm
        } else {
            Num(ZERO)
        },
        tstar_state: Some(reply.state),
        cpu: Some(DeviceReport { decision: d.cpu, gains_source: cpu_source }),
        gpu: Some(DeviceReport { decision: d.gpu, gains_source: gpu_source }),
    }
}

impl Model {
    /// The readout of a closed-loop sample.
    #[verifier::opaque]
    pub open spec fn read_out(self, a: AutoView, s: Sample, d: Decisions, reply: SourceReply, curve: TreadReply) -> ReadoutView {
        ReadoutView {
            gauges: gauged(
                d,
                reply,
                curve,
                self.run.pass.ec_ma_c,
                a.cpu.facts.gains_source,
                a.gpu.facts.gains_source,
            ),
            ec_argmax: match s.ec {
                Some(ec) => Some(ec.argmax@),
                None => None,
            },
            strategy: match s.fanctrl {
                Some(v) => Some(v.strategy@),
                None => None,
            },
            telemetry: diagnosed(s, d, reply),
        }
    }

    /// With a closed-loop sample shown.
    #[verifier::opaque]
    pub open spec fn published(self, s: Sample, d: Decisions, reply: SourceReply, curve: TreadReply) -> Model {
        Model {
            board: flagged(
                self.board,
                s,
                d,
                reply,
                curve,
                self.run.pass.ec_mismatch,
                fitted(self.store, s.fanctrl),
            ),
            readout: self.read_out(self.auto->0, s, d, reply, curve),
            orders: if reply.records {
                self.orders.push(Order::SaveState)
            } else {
                self.orders
            },
            ..self
        }
    }

    /// With the loops disengaged, because there is nothing to regulate on.
    #[verifier::opaque]
    pub open spec fn idled(self) -> Model {
        let seed = ReplicaSeed { ma_c: None, cpu_group_c: None, gpu_group_c: None };
        Model {
            auto: Some(self.auto->0.disengaged()),
            readout: ReadoutView {
                gauges: Gauges { cpu: None, gpu: None, ..self.readout.gauges },
                ..self.readout
            },
            core: Core {
                watch: Watch { stick_violations: 0, last_reassert: None, ..self.core.watch },
                ..self.core
            },
            board: self.board.lowered(StatusFlag::ReadbackBlind).lowered(
                StatusFlag::LimitNotSticking,
            ),
            orders: self.orders.push(Order::ResetReplica(seed)).push(Order::DropVerifier),
            ..self
        }
    }

    /// With the caps released, as the loops have just disengaged.
    #[verifier::opaque]
    pub open spec fn let_go(self) -> Model {
        Model {
            core: self.core.limiting_cpu(None).limiting_gpu(None),
            orders: releasing(self.orders, self.rig),
            ..self
        }.with_effect(Effect::Released).because(Cause::AutoReleased)
    }
}

impl Controller {
    pub(crate) fn publish(&mut self, s: &Sample, d: &Decisions, reply: &SourceReply, curve: &TreadReply)
        requires
            old(self).wf(),
            old(self)@.auto is Some,
        ensures
            final(self)@ == old(self)@.published(*s, *d, *reply, *curve),
            final(self).wf(),
            final(self)@.auto == old(self)@.auto,
            final(self)@.core == old(self)@.core,
    {
        proof {
            reveal(Model::published);
            reveal(Model::read_out);
        }
        let has_gains = is_fitted(&self.store, &s.fanctrl);
        raise_flags(&mut self.board, s, d, reply, curve, self.run.pass.ec_mismatch, has_gains);
        if let Some(auto) = &self.auto {
            self.readout =
            Readout {
                gauges: gauge(
                    d,
                    reply,
                    curve,
                    self.run.pass.ec_ma_c,
                    auto.cpu.facts.gains_source,
                    auto.gpu.facts.gains_source,
                ),
                ec_argmax: match &s.ec {
                    Some(ec) => Some(ec.argmax.clone()),
                    None => None,
                },
                strategy: match &s.fanctrl {
                    Some(view) => Some(view.strategy.clone()),
                    None => None,
                },
                telemetry_flags: diagnose(s, d, reply),
            };
        }
        if reply.records {
            self.orders.push(Order::SaveState);
        }
    }

    pub(crate) fn idle(&mut self)
        requires
            old(self).wf(),
            old(self)@.auto is Some,
        ensures
            final(self)@ == old(self)@.idled(),
            final(self).wf(),
            final(self)@.auto is Some,
    {
        proof {
            reveal(Model::idled);
        }
        if let Some(auto) = &mut self.auto {
            auto.disengage();
        }
        self.orders.push(
            Order::ResetReplica(ReplicaSeed { ma_c: None, cpu_group_c: None, gpu_group_c: None }),
        );
        self.orders.push(Order::DropVerifier);
        self.readout.gauges = Gauges { cpu: None, gpu: None, ..self.readout.gauges };
        self.core.watch = Watch { stick_violations: 0, last_reassert: None, ..self.core.watch };
        self.board.remove_flag(StatusFlag::ReadbackBlind);
        self.board.remove_flag(StatusFlag::LimitNotSticking);
    }

    pub(crate) fn let_caps_go(&mut self)
        requires
            old(self).wf(),
        ensures
            final(self)@ == old(self)@.let_go(),
            final(self).wf(),
    {
        proof {
            reveal(Model::let_go);
        }
        if self.rig.gpu {
            self.orders.push(Order::ReleaseGpu);
        }
        if self.rig.cpu {
            self.orders.push(Order::RestoreCpu);
        }
        self.core.limits = Limits { cpu_limit_w: None, gpu_max_mhz: None, ..self.core.limits };
        self.run.effects.push(Effect::Released);
        self.claim(Cause::AutoReleased);
    }
}

} // verus!
