//! What the flags show of a sample and of the read-backs.

use crate::controller::auto::AutoView;
use crate::controller::board::{lemma_set_flag, BoardView};
use crate::controller::drive::Decisions;
use crate::controller::publish::{flagged, TreadReply};
use crate::controller::report::{SourceFlag, SourceReply};
use crate::controller::upkeep::synced;
use crate::status::StatusFlag;
use crate::types::{Freshness, Sample};
use vstd::prelude::*;

verus! {

/// After a closed-loop sample each flag that a sample sets is up exactly if its
/// reason holds, and every other flag is as it was.
pub proof fn lemma_flags_show_the_sample(
    b: BoardView,
    s: Sample,
    d: Decisions,
    reply: SourceReply,
    curve: TreadReply,
    ec_mismatch: bool,
    has_gains: bool,
)
    requires
        b.wf(),
    ensures
        ({
            let r = flagged(b, s, d, reply, curve, ec_mismatch, has_gains);
            &&& r.wf()
            &&& r.flags.contains(StatusFlag::GpuHot) == d.guard.gpu_hot
            &&& r.flags.contains(StatusFlag::NvmeHot) == d.guard.nvme_hot
            &&& r.flags.contains(StatusFlag::EcMismatch) == ec_mismatch
            &&& r.flags.contains(StatusFlag::FanctrlLost) == (s.fanctrl_freshness
                != Freshness::Fresh)
            &&& r.flags.contains(StatusFlag::CurveInvalid) == curve.invalid
            &&& r.flags.contains(StatusFlag::SteepCurve) == reply.flags@.contains(
                SourceFlag::SteepCurve,
            )
            &&& r.flags.contains(StatusFlag::TargetUnreachable) == (exists|i: int|
                0 <= i < reply.flags@.len() && (#[trigger] reply.flags@[i] is TargetUnreachable
                    || reply.flags@[i] is DeviceUnreachable))
            &&& r.flags.contains(StatusFlag::NotCalibrated) == !has_gains
            &&& forall|f: StatusFlag|
                !set_by_samples(f) ==> #[trigger] r.flags.contains(f) == b.flags.contains(f)
        }),
{
    reveal(flagged);
    let steep = crate::controller::report::says_steep(reply.flags@);
    let far = crate::controller::report::says_unreachable(reply.flags@);
    let lost = s.fanctrl_freshness != Freshness::Fresh;
    lemma_set_flag(b, StatusFlag::GpuHot, d.guard.gpu_hot);
    let c = b.set(StatusFlag::GpuHot, d.guard.gpu_hot);
    lemma_set_flag(c, StatusFlag::NvmeHot, d.guard.nvme_hot);
    let c = c.set(StatusFlag::NvmeHot, d.guard.nvme_hot);
    lemma_set_flag(c, StatusFlag::EcMismatch, ec_mismatch);
    let c = c.set(StatusFlag::EcMismatch, ec_mismatch);
    lemma_set_flag(c, StatusFlag::FanctrlLost, lost);
    let c = c.set(StatusFlag::FanctrlLost, lost);
    lemma_set_flag(c, StatusFlag::CurveInvalid, curve.invalid);
    let c = c.set(StatusFlag::CurveInvalid, curve.invalid);
    lemma_set_flag(c, StatusFlag::SteepCurve, steep);
    let c = c.set(StatusFlag::SteepCurve, steep);
    lemma_set_flag(c, StatusFlag::TargetUnreachable, far);
    let c = c.set(StatusFlag::TargetUnreachable, far);
    lemma_set_flag(c, StatusFlag::NotCalibrated, !has_gains);
    if far {
        let i = choose|i: int|
            0 <= i < reply.flags@.len() && crate::controller::report::out_of_reach(
                #[trigger] reply.flags@[i],
            );
        assert(reply.flags@[i] is TargetUnreachable || reply.flags@[i] is DeviceUnreachable);
    }
}

/// The flags that a closed-loop sample sets or takes down.
pub open spec fn set_by_samples(f: StatusFlag) -> bool {
    ||| f == StatusFlag::GpuHot
    ||| f == StatusFlag::NvmeHot
    ||| f == StatusFlag::EcMismatch
    ||| f == StatusFlag::FanctrlLost
    ||| f == StatusFlag::CurveInvalid
    ||| f == StatusFlag::SteepCurve
    ||| f == StatusFlag::TargetUnreachable
    ||| f == StatusFlag::NotCalibrated
}

/// A read-back of either device in trouble has the limit count as not sticking,
/// and one that cannot be read has the read-back count as blind, exactly as long
/// as it is. No other flag moves.
pub proof fn lemma_flags_show_the_read_backs(b: BoardView, a: AutoView)
    requires
        b.wf(),
    ensures
        ({
            let r = synced(b, Some(a));
            let (cpu, gpu) = (a.cpu.facts.verdict, a.gpu.facts.verdict);
            let trouble = cpu.mismatch_streak > 0 || cpu.released || gpu.mismatch_streak > 0
                || gpu.released;
            &&& r.wf()
            &&& r.flags.contains(StatusFlag::LimitNotSticking) == (trouble || b.flags.contains(
                StatusFlag::LimitNotSticking,
            ))
            &&& r.flags.contains(StatusFlag::ReadbackBlind) == (cpu.blind || gpu.blind)
            &&& forall|f: StatusFlag|
                f != StatusFlag::LimitNotSticking && f != StatusFlag::ReadbackBlind
                    ==> #[trigger] r.flags.contains(f) == b.flags.contains(f)
        }),
{
    reveal(synced);
    let (cpu, gpu) = (a.cpu.facts.verdict, a.gpu.facts.verdict);
    lemma_set_flag(b, StatusFlag::LimitNotSticking, true);
    let c = if cpu.episode() || gpu.episode() {
        b.set(StatusFlag::LimitNotSticking, true)
    } else {
        b
    };
    lemma_set_flag(c, StatusFlag::ReadbackBlind, cpu.blind || gpu.blind);
}

} // verus!
