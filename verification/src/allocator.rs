//! Demand estimate and budget split.
//!
//! Two floors always win: the split returns at least the floor on each axis,
//! however small the budget ([`lemma_split_meets_floors`]), and a step
//! re-applies the floor last, after the slew limit and after the grid
//! ([`lemma_step_is_limited`]). Power rises slowly and falls fast.
use crate::num::{Num, ONE, ZERO};
use crate::types::Sample;
use vstd::prelude::*;

verus! {

/// 0.5: the grid of the commanded watts.
pub const GRID_STEP_W: u64 = 0x3fe0_0000_0000_0000;

/// 2: the most a device gains in a step, W.
pub const UP_RATE_W: u64 = 0x4000_0000_0000_0000;

/// 8: the most a device loses in a step, W.
pub const DOWN_RATE_W: u64 = 0x4020_0000_0000_0000;

/// 54: the CPU's hardware ceiling, W.
pub const CPU_MAX_W: u64 = 0x404b_0000_0000_0000;

/// 100: the GPU's hardware ceiling, W.
pub const GPU_MAX_W: u64 = 0x4059_0000_0000_0000;

/// 1.5: a draw this close to its limit counts as pinned, W.
pub const CPU_PINNED_MARGIN_W: u64 = 0x3ff8_0000_0000_0000;

/// 30: a clock this close to its limit counts as pinned, MHz.
pub const GPU_PINNED_MARGIN_MHZ: u64 = 0x403e_0000_0000_0000;

/// 90: a pinned clock counts only above this utilization, %.
pub const GPU_PINNED_UTIL_PCT: u64 = 0x4056_8000_0000_0000;

/// 100: a whole, in percent.
pub const PERCENT: u64 = 0x4059_0000_0000_0000;

/// 0.5: an even share.
pub const HALF: u64 = 0x3fe0_0000_0000_0000;

/// How starved each device is, from 0 to 1.
#[derive(Clone, Copy, Debug, PartialEq)]
pub struct Demand {
    pub cpu_starved: Num,
    pub gpu_starved: Num,
}

/// A percentage as a share within `[0, 1]`; 0 for one that is not finite.
#[verifier::opaque]
pub open spec fn share_of(pct: Num) -> Num {
    if pct.finite() {
        pct.over(Num(PERCENT)).within(Num(ZERO), Num(ONE))
    } else {
        Num(ZERO)
    }
}

/// How starved the CPU is: 1 if it draws nearly its limit, else the drawn
/// share of it; its utilization while no limit applies or the draw is not
/// known.
#[verifier::opaque]
pub open spec fn cpu_score(s: Sample, limit: Option<Num>) -> Num {
    match limit {
        Some(l) if l.finite() && Num(ZERO).lt(l) && s.cpu_pkg_w.finite() && Num(ZERO).lt(s.cpu_pkg_w) => {
            if l.minus(s.cpu_pkg_w).le(Num(CPU_PINNED_MARGIN_W)) {
                Num(ONE)
            } else {
                s.cpu_pkg_w.over(l).lesser(Num(ONE))
            }
        },
        _ => share_of(s.cpu_util_pct),
    }
}

/// The GPU runs at nearly its clock limit and is busy.
#[verifier::opaque]
pub open spec fn gpu_pinned(s: Sample, max_mhz: Option<u32>) -> bool {
    &&& max_mhz is Some
    &&& s.gpu_mhz_valid
    &&& s.gpu_sm_mhz.finite()
    &&& crate::num::of_int(max_mhz->0 as nat).minus(s.gpu_sm_mhz).le(Num(GPU_PINNED_MARGIN_MHZ))
    &&& Num(GPU_PINNED_UTIL_PCT).lt(s.gpu_util_pct)
}

/// How starved the GPU is: 1 if its clock is pinned, else the drawn share of
/// its target; its utilization while there is no target or no reading.
#[verifier::opaque]
pub open spec fn gpu_score(s: Sample, target: Option<Num>, max_mhz: Option<u32>) -> Num {
    if gpu_pinned(s, max_mhz) {
        Num(ONE)
    } else {
        match target {
            Some(t) if t.finite() && Num(ZERO).lt(t) && s.gpu_w_valid && s.gpu_w.finite() => {
                s.gpu_w.over(t).within(Num(ZERO), Num(ONE))
            },
            _ => share_of(s.gpu_util_pct),
        }
    }
}

fn util_frac(pct: Num) -> (r: Num)
    ensures
        r == share_of(pct),
{
    proof {
        reveal(share_of);
        reveal(Num::le);
    }
    if pct.is_finite() {
        (pct / Num(PERCENT)).clamp(Num(ZERO), Num(ONE))
    } else {
        Num(ZERO)
    }
}

/// Starvation score of each device.
pub fn demand(
    s: &Sample,
    cpu_limit_w: Option<Num>,
    gpu_target_w: Option<Num>,
    gpu_max_mhz: Option<u32>,
) -> (r: Demand)
    ensures
        r.cpu_starved == cpu_score(*s, cpu_limit_w),
        r.gpu_starved == gpu_score(*s, gpu_target_w, gpu_max_mhz),
{
    proof {
        reveal(cpu_score);
        reveal(gpu_score);
        reveal(gpu_pinned);
        reveal(Num::le);
    }
    let cpu_starved = match cpu_limit_w {
        Some(limit) => {
            if limit.is_finite() && limit > Num(ZERO) && s.cpu_pkg_w.is_finite() && s.cpu_pkg_w
                > Num(ZERO) {
                if limit - s.cpu_pkg_w <= Num(CPU_PINNED_MARGIN_W) {
                    Num(ONE)
                } else {
                    (s.cpu_pkg_w / limit).min(Num(ONE))
                }
            } else {
                util_frac(s.cpu_util_pct)
            }
        },
        None => util_frac(s.cpu_util_pct),
    };
    assert(cpu_starved == cpu_score(*s, cpu_limit_w));
    let pinned = match gpu_max_mhz {
        Some(max) => s.gpu_mhz_valid && s.gpu_sm_mhz.is_finite() && Num::from_int(max as u64)
            - s.gpu_sm_mhz <= Num(GPU_PINNED_MARGIN_MHZ) && s.gpu_util_pct > Num(
            GPU_PINNED_UTIL_PCT,
        ),
        None => false,
    };
    assert(pinned == gpu_pinned(*s, gpu_max_mhz));
    let gpu_starved = if pinned {
        Num(ONE)
    } else {
        match gpu_target_w {
            Some(t) => {
                if t.is_finite() && t > Num(ZERO) && s.gpu_w_valid && s.gpu_w.is_finite() {
                    (s.gpu_w / t).clamp(Num(ZERO), Num(ONE))
                } else {
                    util_frac(s.gpu_util_pct)
                }
            },
            None => util_frac(s.gpu_util_pct),
        }
    };
    Demand { cpu_starved, gpu_starved }
}

/// What one step is given.
#[derive(Clone, Copy, Debug)]
pub struct AllocInput {
    /// Total power budget, W.
    pub budget_w: Num,
    pub demand: Demand,
    /// CPU floor, W.
    pub floors: Num,
    /// CPU operating ceiling, W.
    pub cpu_max_w: Num,
    /// GPU operating ceiling, W.
    pub gpu_max_w: Num,
    /// GPU floor, W.
    pub gpu_floor_w: Num,
}

/// What the budget leaves above both floors.
#[verifier::opaque]
pub open spec fn above_floors(budget: Num, cpu_floor: Num, gpu_floor: Num) -> Num {
    budget.minus(cpu_floor).minus(gpu_floor).greater(Num(ZERO))
}

/// The share of each axis: in proportion to its demand, or even without any.
#[verifier::opaque]
pub open spec fn shares(d: Demand) -> (Num, Num) {
    let sum = d.cpu_starved.plus(d.gpu_starved);
    if Num(ZERO).lt(sum) {
        (d.cpu_starved.over(sum), d.gpu_starved.over(sum))
    } else {
        (Num(HALF), Num(HALF))
    }
}

/// An axis after its ceiling, the surplus of the other axis and its floor.
#[verifier::opaque]
pub open spec fn settled(raw: Num, surplus: Num, floor: Num, max: Num) -> Num {
    raw.lesser(max).plus(surplus).lesser(max).greater(floor)
}

/// What an axis cannot take.
#[verifier::opaque]
pub open spec fn rejected(raw: Num, max: Num) -> Num {
    raw.minus(raw.lesser(max))
}

/// What each axis would get without ceilings: its floor, and its share of the
/// rest.
#[verifier::opaque]
pub open spec fn wanted(budget: Num, d: Demand, cpu_floor: Num, gpu_floor: Num) -> (Num, Num) {
    let rest = above_floors(budget, cpu_floor, gpu_floor);
    (cpu_floor.plus(rest.times(shares(d).0)), gpu_floor.plus(rest.times(shares(d).1)))
}

/// The budget split between the axes: floors first, the rest by demand, and
/// what one axis cannot take goes to the other.
#[verifier::opaque]
pub open spec fn split(
    budget: Num,
    d: Demand,
    cpu_floor: Num,
    gpu_floor: Num,
    cpu_max: Num,
    gpu_max: Num,
) -> (Num, Num) {
    let (cpu, gpu) = wanted(budget, d, cpu_floor, gpu_floor);
    (
        settled(cpu, rejected(gpu, gpu_max), cpu_floor, cpu_max),
        settled(gpu, rejected(cpu, cpu_max), gpu_floor, gpu_max),
    )
}

/// Splits a budget between the CPU and the GPU.
pub fn split_budget(
    budget_w: Num,
    demand: Demand,
    cpu_floor_w: Num,
    gpu_floor_w: Num,
    cpu_max_w: Num,
    gpu_max_w: Num,
) -> (r: (Num, Num))
    ensures
        r.0 == split(budget_w, demand, cpu_floor_w, gpu_floor_w, cpu_max_w, gpu_max_w).0,
        r.1 == split(budget_w, demand, cpu_floor_w, gpu_floor_w, cpu_max_w, gpu_max_w).1,
{
    proof {
        reveal(split);
        reveal(wanted);
        reveal(above_floors);
        reveal(shares);
        reveal(settled);
        reveal(rejected);
    }
    let remainder = (budget_w - cpu_floor_w - gpu_floor_w).max(Num(ZERO));
    let starved_sum = demand.cpu_starved + demand.gpu_starved;
    let (cpu_frac, gpu_frac) = if starved_sum > Num(ZERO) {
        (demand.cpu_starved / starved_sum, demand.gpu_starved / starved_sum)
    } else {
        (Num(HALF), Num(HALF))
    };
    let cpu_raw = cpu_floor_w + remainder * cpu_frac;
    let gpu_raw = gpu_floor_w + remainder * gpu_frac;
    let cpu_capped = cpu_raw.min(cpu_max_w);
    let gpu_capped = gpu_raw.min(gpu_max_w);
    let cpu_over = cpu_raw - cpu_capped;
    let gpu_over = gpu_raw - gpu_capped;
    let cpu_w = (cpu_capped + gpu_over).min(cpu_max_w).max(cpu_floor_w);
    let gpu_w = (gpu_capped + cpu_over).min(gpu_max_w).max(gpu_floor_w);
    (cpu_w, gpu_w)
}

/// A wattage on the grid.
#[verifier::opaque]
pub open spec fn on_grid(w: Num) -> Num {
    w.over(Num(GRID_STEP_W)).rounded().times(Num(GRID_STEP_W))
}

/// Rounds a wattage to the grid.
pub fn quantize(w: Num) -> (r: Num)
    ensures
        r == on_grid(w),
{
    proof {
        reveal(on_grid);
    }
    (w / Num(GRID_STEP_W)).round() * Num(GRID_STEP_W)
}

/// One axis of a step: within the rates of the last command, on the grid,
/// within the rates again, and never below the floor.
#[verifier::opaque]
pub open spec fn limited(raw: Num, last: Num, floor: Num) -> Num {
    let lo = last.minus(Num(DOWN_RATE_W));
    let hi = last.plus(Num(UP_RATE_W));
    on_grid(raw.within(lo, hi)).within(lo, hi).greater(floor)
}

fn limit(raw: Num, last: Num, floor: Num) -> (r: Num)
    requires
        !last.nan(),
    ensures
        r == limited(raw, last, floor),
{
    proof {
        reveal(limited);
        lemma_rates(last);
    }
    let lo = last - Num(DOWN_RATE_W);
    let hi = last + Num(UP_RATE_W);
    quantize(raw.clamp(lo, hi)).clamp(lo, hi).max(floor)
}

/// The rates leave room.
pub proof fn lemma_rates(last: Num)
    requires
        !last.nan(),
    ensures
        last.minus(Num(DOWN_RATE_W)).le(last.plus(Num(UP_RATE_W))),
{
    reveal(Num::le);
    crate::order::lemma_span(last, Num(DOWN_RATE_W), Num(UP_RATE_W));
}

/// Turns a budget into a command per device.
#[derive(Clone, Copy, Debug)]
pub struct Allocator {
    /// The last command, if any since the start or a reset.
    pub last: Option<(Num, Num)>,
}

impl Default for Allocator {
    fn default() -> (r: Allocator)
        ensures
            r.last is None,
            r.wf(),
    {
        Allocator { last: None }
    }
}

/// The floors are numbers, and the ceilings are not negative.
pub open spec fn usable(inp: AllocInput) -> bool {
    &&& Num(ZERO).le(inp.cpu_max_w)
    &&& Num(ZERO).le(inp.gpu_max_w)
    &&& !inp.floors.nan()
    &&& !inp.gpu_floor_w.nan()
}

impl Allocator {
    /// What was last commanded is a number.
    pub open spec fn wf(self) -> bool {
        self.last matches Some(l) ==> !l.0.nan() && !l.1.nan()
    }

    /// The command of a step: the split, limited from the last command, or
    /// from the floors if there is none.
    #[verifier::opaque]
    pub open spec fn stepped(self, inp: AllocInput) -> (Num, Num) {
        let cpu_floor = inp.floors.within(Num(ZERO), inp.cpu_max_w);
        let gpu_floor = inp.gpu_floor_w.within(Num(ZERO), inp.gpu_max_w);
        let last = match self.last {
            Some(l) => l,
            None => (cpu_floor, gpu_floor),
        };
        let raw = split(
            inp.budget_w,
            inp.demand,
            cpu_floor,
            gpu_floor,
            inp.cpu_max_w,
            inp.gpu_max_w,
        );
        (limited(raw.0, last.0, cpu_floor), limited(raw.1, last.1, gpu_floor))
    }

    /// An allocator without a last command.
    pub fn new() -> (r: Allocator)
        ensures
            r.last is None,
            r.wf(),
    {
        Allocator { last: None }
    }

    /// One step; returns the CPU and GPU commands, in watts.
    pub fn step(&mut self, inp: &AllocInput) -> (r: (Num, Num))
        requires
            old(self).wf(),
            usable(*inp),
        ensures
            r.0 == old(self).stepped(*inp).0,
            r.1 == old(self).stepped(*inp).1,
            final(self).last == Some(r),
            final(self).wf(),
    {
        proof {
            reveal(Allocator::stepped);
            lemma_floor_number(inp.floors, inp.cpu_max_w);
            lemma_floor_number(inp.gpu_floor_w, inp.gpu_max_w);
        }
        let cpu_floor = inp.floors.clamp(Num(ZERO), inp.cpu_max_w);
        let gpu_floor = inp.gpu_floor_w.clamp(Num(ZERO), inp.gpu_max_w);
        let prev = match self.last {
            Some(last) => last,
            None => (cpu_floor, gpu_floor),
        };
        let (raw_cpu, raw_gpu) = split_budget(
            inp.budget_w,
            inp.demand,
            cpu_floor,
            gpu_floor,
            inp.cpu_max_w,
            inp.gpu_max_w,
        );
        let cpu_w = limit(raw_cpu, prev.0, cpu_floor);
        let gpu_w = limit(raw_gpu, prev.1, gpu_floor);
        proof {
            lemma_limited(raw_cpu, prev.0, cpu_floor);
            lemma_limited(raw_gpu, prev.1, gpu_floor);
        }
        let out = (cpu_w, gpu_w);
        self.last = Some(out);
        out
    }

    /// Forgets the last command.
    pub fn reset(&mut self)
        ensures
            final(self).last is None,
            final(self).wf(),
    {
        self.last = None;
    }
}

proof fn lemma_floor_number(floor: Num, max: Num)
    requires
        !floor.nan(),
        Num(ZERO).le(max),
    ensures
        !floor.within(Num(ZERO), max).nan(),
        Num(ZERO).le(floor.within(Num(ZERO), max)),
        floor.within(Num(ZERO), max).le(max),
{
    reveal(Num::within);
    reveal(Num::lt);
    reveal(Num::le);
}

proof fn lemma_limited(raw: Num, last: Num, floor: Num)
    requires
        !last.nan(),
        !floor.nan(),
    ensures
        !limited(raw, last, floor).nan(),
        floor.le(limited(raw, last, floor)),
        limited(raw, last, floor).le(last.plus(Num(UP_RATE_W)).greater(floor)),
        !raw.nan() && !on_grid(
            raw.within(last.minus(Num(DOWN_RATE_W)), last.plus(Num(UP_RATE_W))),
        ).nan() ==> last.minus(Num(DOWN_RATE_W)).le(limited(raw, last, floor)),
{
    reveal(limited);
    reveal(Num::within);
    reveal(Num::greater);
    reveal(Num::lt);
    reveal(Num::le);
    lemma_rates(last);
}

/// Scores lie within `[0, 1]`, whatever the readings are.
pub proof fn lemma_scores_are_shares(
    s: Sample,
    cpu_limit: Option<Num>,
    gpu_target: Option<Num>,
    gpu_max_mhz: Option<u32>,
)
    ensures
        Num(ZERO).le(cpu_score(s, cpu_limit)) && cpu_score(s, cpu_limit).le(Num(ONE)),
        Num(ZERO).le(gpu_score(s, gpu_target, gpu_max_mhz)) && gpu_score(
            s,
            gpu_target,
            gpu_max_mhz,
        ).le(Num(ONE)),
{
    reveal(cpu_score);
    reveal(gpu_score);
    reveal(share_of);
    reveal(Num::lt);
    reveal(Num::le);
    reveal(Num::within);
    reveal(Num::lesser);
    assert(s.cpu_util_pct.finite() ==> !s.cpu_util_pct.over(Num(PERCENT)).nan()) by {
        reveal(Num::over);
    }
    assert(s.gpu_util_pct.finite() ==> !s.gpu_util_pct.over(Num(PERCENT)).nan()) by {
        reveal(Num::over);
    }
    if let Some(l) = cpu_limit {
        assert(l.finite() && Num(ZERO).lt(l) && s.cpu_pkg_w.finite() && Num(ZERO).lt(s.cpu_pkg_w)
            ==> Num(ZERO).le(s.cpu_pkg_w.over(l))) by {
            reveal(Num::over);
        }
    }
    if let Some(t) = gpu_target {
        assert(t.finite() && Num(ZERO).lt(t) && s.gpu_w.finite() ==> !s.gpu_w.over(t).nan()) by {
            reveal(Num::over);
        }
    }
}

/// Both floors are met however small the budget is, and neither ceiling is
/// passed as long as it is not below its floor.
pub proof fn lemma_split_meets_floors(
    budget: Num,
    d: Demand,
    cpu_floor: Num,
    gpu_floor: Num,
    cpu_max: Num,
    gpu_max: Num,
)
    requires
        cpu_floor.le(cpu_max),
        gpu_floor.le(gpu_max),
    ensures
        ({
            let (cpu, gpu) = split(budget, d, cpu_floor, gpu_floor, cpu_max, gpu_max);
            &&& cpu_floor.le(cpu) && cpu.le(cpu_max)
            &&& gpu_floor.le(gpu) && gpu.le(gpu_max)
        }),
{
    reveal(split);
    reveal(settled);
    reveal(Num::lesser);
    reveal(Num::greater);
    reveal(Num::lt);
    reveal(Num::le);
}

/// Both scores are shares of a whole.
pub open spec fn proper(d: Demand) -> bool {
    &&& Num(ZERO).le(d.cpu_starved) && d.cpu_starved.le(Num(ONE))
    &&& Num(ZERO).le(d.gpu_starved) && d.gpu_starved.le(Num(ONE))
}

proof fn lemma_shares(d: Demand)
    requires
        proper(d),
    ensures
        Num(ZERO).le(shares(d).0) && shares(d).0.le(Num(ONE)),
        Num(ZERO).le(shares(d).1) && shares(d).1.le(Num(ONE)),
{
    reveal(shares);
    reveal(Num::le);
    let (a, b) = (d.cpu_starved, d.gpu_starved);
    let sum = a.plus(b);
    crate::order::lemma_one();
    assert(sum.finite()) by {
        reveal(Num::plus);
        reveal(crate::num::of_int);
        crate::order::lemma_of_int_exact(2);
        crate::order::lemma_plus_nan(a, b);
        crate::order::lemma_plus_grows(a, b);
        crate::order::lemma_plus_nan(a, Num(ONE));
        crate::order::lemma_plus_monotone(a, b, Num(ONE));
        crate::order::lemma_plus_commutes(a, Num(ONE));
        crate::order::lemma_plus_monotone(Num(ONE), a, Num(ONE));
        assert(Num(ONE).value() == crate::num::unit());
        assert(Num(ONE).plus(Num(ONE)) == crate::num::of_int(2)) by {
            vstd::arithmetic::power2::lemma_pow2_pos(1074);
        }
    }
    if Num(ZERO).lt(sum) {
        crate::order::lemma_plus_grows(a, b);
        crate::order::lemma_plus_commutes(a, b);
        crate::order::lemma_plus_grows(b, a);
        crate::order::lemma_over_share(a, sum);
        crate::order::lemma_over_share(b, sum);
    }
}

/// Without ceilings an axis gets its floor or more, and just its floor if
/// there is no rest.
proof fn lemma_wanted(floor: Num, rest: Num, share: Num)
    requires
        !floor.nan(),
        rest.finite(),
        Num(ZERO).le(rest),
        Num(ZERO).le(share),
        share.le(Num(ONE)),
    ensures
        floor.le(floor.plus(rest.times(share))),
        rest.key() == 0 ==> floor.plus(rest.times(share)).same(floor),
{
    reveal(Num::le);
    reveal(Num::same);
    reveal(Num::times);
    assert(rest.times(share) == share.times(rest)) by {
        assert(rest.steps() * share.steps() == share.steps() * rest.steps()) by (nonlinear_arith);
    }
    crate::order::lemma_times_share(share, rest);
    let part = rest.times(share);
    crate::order::lemma_plus_nan(floor, part);
    crate::order::lemma_plus_grows(floor, part);
    if rest.key() == 0 {
        crate::order::lemma_plus_zero(floor, part);
    }
}

/// What an axis cannot take is nothing if it takes all, and never less than
/// nothing.
proof fn lemma_rejected(raw: Num, max: Num)
    requires
        !raw.nan(),
        raw.finite() || !raw.negative(),
        max.finite(),
    ensures
        Num(ZERO).le(rejected(raw, max)),
        raw.le(max) && raw.finite() ==> rejected(raw, max).key() == 0,
{
    reveal(rejected);
    reveal(Num::le);
    reveal(Num::lt);
    reveal(Num::lesser);
    let capped = raw.lesser(max);
    if raw.finite() {
        assert(raw.minus(raw).key() == 0 && !raw.minus(raw).nan()) by {
            reveal(Num::minus);
            reveal(Num::plus);
            assert(raw.opposite().value() == -raw.value());
        }
        crate::order::lemma_plus_nan(raw, capped.opposite());
        crate::order::lemma_plus_nan(raw, raw.opposite());
        assert(!raw.minus(capped).nan() && !raw.minus(raw).nan()) by {
            reveal(Num::minus);
        }
        crate::order::lemma_plus_monotone(raw, raw.opposite(), capped.opposite());
        reveal(Num::minus);
    } else {
        reveal(Num::minus);
        reveal(Num::plus);
    }
}

/// A budget that does not cover the floors gives exactly the floors.
pub proof fn lemma_small_budget_gives_the_floors(
    budget: Num,
    d: Demand,
    cpu_floor: Num,
    gpu_floor: Num,
    cpu_max: Num,
    gpu_max: Num,
)
    requires
        proper(d),
        cpu_floor.finite() && cpu_floor.le(cpu_max) && cpu_max.finite(),
        gpu_floor.finite() && gpu_floor.le(gpu_max) && gpu_max.finite(),
        budget.minus(cpu_floor).minus(gpu_floor).le(Num(ZERO)),
    ensures
        ({
            let (cpu, gpu) = split(budget, d, cpu_floor, gpu_floor, cpu_max, gpu_max);
            cpu.same(cpu_floor) && gpu.same(gpu_floor)
        }),
{
    reveal(split);
    reveal(wanted);
    reveal(above_floors);
    reveal(settled);
    reveal(Num::le);
    reveal(Num::lt);
    reveal(Num::same);
    reveal(Num::lesser);
    reveal(Num::greater);
    let rest = above_floors(budget, cpu_floor, gpu_floor);
    let (cpu, gpu) = wanted(budget, d, cpu_floor, gpu_floor);
    lemma_shares(d);
    lemma_wanted(cpu_floor, rest, shares(d).0);
    lemma_wanted(gpu_floor, rest, shares(d).1);
    lemma_rejected(cpu, cpu_max);
    lemma_rejected(gpu, gpu_max);
    crate::order::lemma_plus_zero(cpu.lesser(cpu_max), rejected(gpu, gpu_max));
    crate::order::lemma_plus_zero(gpu.lesser(gpu_max), rejected(cpu, cpu_max));
}

/// What one axis cannot take goes to the other: no axis gets less for it, and
/// an axis gets more than it would on its own only out of such a surplus.
pub proof fn lemma_surplus_goes_to_the_other(
    budget: Num,
    d: Demand,
    cpu_floor: Num,
    gpu_floor: Num,
    cpu_max: Num,
    gpu_max: Num,
)
    requires
        proper(d),
        above_floors(budget, cpu_floor, gpu_floor).finite(),
        cpu_floor.finite() && cpu_floor.le(cpu_max) && cpu_max.finite(),
        gpu_floor.finite() && gpu_floor.le(gpu_max) && gpu_max.finite(),
    ensures
        ({
            let (cpu, gpu) = split(budget, d, cpu_floor, gpu_floor, cpu_max, gpu_max);
            let (cpu_own, gpu_own) = wanted(budget, d, cpu_floor, gpu_floor);
            &&& cpu_own.lesser(cpu_max).le(cpu)
            &&& gpu_own.lesser(gpu_max).le(gpu)
            &&& gpu_own.le(gpu_max) ==> cpu.same(cpu_own.lesser(cpu_max))
            &&& cpu_own.le(cpu_max) ==> gpu.same(gpu_own.lesser(gpu_max))
        }),
{
    reveal(split);
    reveal(wanted);
    reveal(above_floors);
    reveal(settled);
    reveal(Num::le);
    reveal(Num::lt);
    reveal(Num::same);
    reveal(Num::lesser);
    reveal(Num::greater);
    let rest = above_floors(budget, cpu_floor, gpu_floor);
    let (cpu, gpu) = wanted(budget, d, cpu_floor, gpu_floor);
    lemma_shares(d);
    lemma_wanted(cpu_floor, rest, shares(d).0);
    lemma_wanted(gpu_floor, rest, shares(d).1);
    lemma_rejected(cpu, cpu_max);
    lemma_rejected(gpu, gpu_max);
    lemma_handed_over(cpu.lesser(cpu_max), rejected(gpu, gpu_max));
    lemma_handed_over(gpu.lesser(gpu_max), rejected(cpu, cpu_max));
}

proof fn lemma_handed_over(own: Num, surplus: Num)
    requires
        own.finite(),
        Num(ZERO).le(surplus),
    ensures
        own.le(own.plus(surplus)),
        surplus.key() == 0 ==> own.plus(surplus).same(own),
{
    reveal(Num::le);
    reveal(Num::same);
    crate::order::lemma_plus_nan(own, surplus);
    crate::order::lemma_plus_grows(own, surplus);
    if surplus.key() == 0 {
        crate::order::lemma_plus_zero(own, surplus);
    }
}

/// A step never commands less than a floor, however low the budget and
/// however slow the rates. It never raises an axis by more than the up rate
/// unless its floor asks for that, and never lowers one by more than the down
/// rate.
pub proof fn lemma_step_is_limited(a: Allocator, inp: AllocInput)
    requires
        a.wf(),
        usable(inp),
    ensures
        ({
            let (cpu, gpu) = a.stepped(inp);
            let cpu_floor = inp.floors.within(Num(ZERO), inp.cpu_max_w);
            let gpu_floor = inp.gpu_floor_w.within(Num(ZERO), inp.gpu_max_w);
            &&& cpu_floor.le(cpu)
            &&& gpu_floor.le(gpu)
            &&& a.last matches Some(l) ==> {
                &&& cpu.le(l.0.plus(Num(UP_RATE_W)).greater(cpu_floor))
                &&& gpu.le(l.1.plus(Num(UP_RATE_W)).greater(gpu_floor))
                &&& l.0.minus(Num(DOWN_RATE_W)).le(cpu)
                &&& l.1.minus(Num(DOWN_RATE_W)).le(gpu)
            }
        }),
{
    reveal(Allocator::stepped);
    reveal(Num::le);
    lemma_floor_number(inp.floors, inp.cpu_max_w);
    lemma_floor_number(inp.gpu_floor_w, inp.gpu_max_w);
    let cpu_floor = inp.floors.within(Num(ZERO), inp.cpu_max_w);
    let gpu_floor = inp.gpu_floor_w.within(Num(ZERO), inp.gpu_max_w);
    let last = match a.last {
        Some(l) => l,
        None => (cpu_floor, gpu_floor),
    };
    let raw = split(inp.budget_w, inp.demand, cpu_floor, gpu_floor, inp.cpu_max_w, inp.gpu_max_w);
    lemma_limited(raw.0, last.0, cpu_floor);
    lemma_limited(raw.1, last.1, gpu_floor);
    lemma_split_meets_floors(
        inp.budget_w,
        inp.demand,
        cpu_floor,
        gpu_floor,
        inp.cpu_max_w,
        inp.gpu_max_w,
    );
    lemma_grid_number(raw.0, last.0);
    lemma_grid_number(raw.1, last.1);
}

proof fn lemma_grid_number(raw: Num, last: Num)
    requires
        !last.nan(),
        !raw.nan(),
    ensures
        !on_grid(raw.within(last.minus(Num(DOWN_RATE_W)), last.plus(Num(UP_RATE_W)))).nan(),
{
    reveal(on_grid);
    reveal(Num::within);
    reveal(Num::le);
    lemma_rates(last);
    let w = raw.within(last.minus(Num(DOWN_RATE_W)), last.plus(Num(UP_RATE_W)));
    let q = w.over(Num(GRID_STEP_W));
    assert(!q.nan()) by {
        reveal(Num::over);
    }
    assert(!q.rounded().nan()) by {
        reveal(Num::rounded);
    }
    assert(!q.rounded().times(Num(GRID_STEP_W)).nan()) by {
        reveal(Num::times);
    }
}

} // verus!
