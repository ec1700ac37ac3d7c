//! Thermal guards.
//!
//! The GPU guard lowers the GPU's share, or its maximum, while the die is
//! hot. The NVMe guard only reports. Both enter at a threshold, stay through
//! a band, and clear below it or when the reading is gone.
use crate::allocator::DOWN_RATE_W;
use crate::device_loop::{Mhz, W};
use crate::num::{Num, TWO, ZERO};
use core::marker::PhantomData;
use vstd::prelude::*;

verus! {

/// 88: the default hot threshold of the GPU, °C.
pub const GPU_HOT_C_DEFAULT: u64 = 0x4056_0000_0000_0000;

/// 80: the default hot threshold of the NVMe drive, °C.
pub const NVME_HOT_C_DEFAULT: u64 = 0x4054_0000_0000_0000;

/// 2: how far below its threshold the GPU guard clears, °C.
pub const GPU_HYSTERESIS_C: u64 = 0x4000_0000_0000_0000;

/// 5: how far below its threshold the NVMe guard clears, °C.
pub const NVME_HYSTERESIS_C: u64 = 0x4014_0000_0000_0000;

/// 105: how much the GPU's maximum loses in a hot sample, MHz.
pub const GPU_MAX_RATCHET_DOWN_RATE_MHZ: u64 = 0x405a_4000_0000_0000;

/// 2: how much the CPU's maximum loses in a hot sample, W.
pub const CPU_MAX_RATCHET_DOWN_RATE_W: u64 = 0x4000_0000_0000_0000;

/// 4: how far below its threshold the GPU must be before its maximum
/// recovers, °C.
pub const GPU_MAX_RATCHET_RECOVERY_MARGIN_C: u64 = 0x4010_0000_0000_0000;

/// 5: how far below its threshold the CPU must be before its maximum
/// recovers, °C.
pub const CPU_MAX_RATCHET_RECOVERY_MARGIN_C: u64 = 0x4014_0000_0000_0000;

/// The bounds, the ceiling and the rates of a ratchet.
#[derive(Clone, Copy, Debug)]
pub struct Levels {
    pub floor: Num,
    /// The highest that the ceiling may be.
    pub ceiling: Num,
    /// The ceiling in force.
    pub current: Num,
    pub down_rate: Num,
    /// The ceiling recovers at or below this temperature, °C.
    pub recovery_c: Num,
}

/// The ceiling after one sample.
#[verifier::opaque]
pub open spec fn ratcheted(
    m: Levels,
    valid_control: bool,
    active: bool,
    temperature_c: Option<Num>,
) -> Num {
    if !valid_control {
        m.current
    } else if active {
        m.current.minus(m.down_rate).greater(m.floor)
    } else if temperature_c matches Some(t) && t.le(m.recovery_c) {
        m.current.plus(m.down_rate.over(Num(TWO))).lesser(m.ceiling)
    } else {
        m.current
    }
}

/// The lower and the upper of two bounds.
pub open spec fn in_order(a: Num, b: Num) -> (Num, Num) {
    if a.le(b) {
        (a, b)
    } else {
        (b, a)
    }
}

impl Levels {
    /// The bounds are the right way round, and the ceiling lies between them.
    pub open spec fn wf(self) -> bool {
        &&& self.floor.le(self.current)
        &&& self.current.le(self.ceiling)
        &&& self.down_rate.finite()
        &&& Num(ZERO).le(self.down_rate)
    }

    /// Levels between two bounds, in either order.
    pub open spec fn between(
        floor: Num,
        ceiling: Num,
        current: Num,
        down_rate: Num,
        recovery_c: Num,
    ) -> Levels {
        let (lo, hi) = in_order(floor, ceiling);
        Levels { floor: lo, ceiling: hi, current: current.within(lo, hi), down_rate, recovery_c }
    }

    /// With another floor.
    pub open spec fn on_floor(self, floor: Num) -> Levels {
        let ceiling = self.ceiling.greater(floor);
        Levels { floor, ceiling, current: self.current.within(floor, ceiling), ..self }
    }

    /// After one sample.
    pub open spec fn after(self, valid_control: bool, active: bool, temperature_c: Option<Num>) -> Levels {
        Levels { current: ratcheted(self, valid_control, active, temperature_c), ..self }
    }
}

/// The ceiling of a device under its hot guard. It moves only on valid
/// control samples: an active guard lowers it, and a cool reading restores it
/// at half that rate.
pub struct MaxRatchet<U> {
    pub levels: Levels,
    pub unit: PhantomData<U>,
}

impl<U> MaxRatchet<U> {
    /// A ratchet between two bounds, in either order.
    pub fn new(floor: Num, ceiling: Num, current: Num, down_rate: Num, recovery_c: Num) -> (r: MaxRatchet<
        U,
    >)
        requires
            !floor.nan(),
            !ceiling.nan(),
        ensures
            r.levels == Levels::between(floor, ceiling, current, down_rate, recovery_c),
    {
        proof {
            reveal(Num::le);
        }
        let (floor, ceiling) = if floor <= ceiling {
            (floor, ceiling)
        } else {
            (ceiling, floor)
        };
        MaxRatchet {
            levels: Levels {
                floor,
                ceiling,
                current: current.clamp(floor, ceiling),
                down_rate,
                recovery_c,
            },
            unit: PhantomData,
        }
    }

    /// A live floor; a ratchet in progress goes on from where it is.
    pub fn set_floor(&mut self, floor: Num)
        requires
            old(self).levels.floor.le(old(self).levels.ceiling),
            !floor.nan(),
        ensures
            final(self).levels == old(self).levels.on_floor(floor),
            old(self).levels.wf() ==> final(self).levels.wf(),
    {
        proof {
            reveal(Num::le);
            reveal(Num::lt);
            reveal(Num::greater);
            reveal(Num::within);
        }
        let ceiling = self.levels.ceiling.max(floor);
        self.levels =
        Levels { floor, ceiling, current: self.levels.current.clamp(floor, ceiling), ..self.levels };
    }

    /// One sample; returns the ceiling.
    pub fn step(&mut self, valid_control: bool, active: bool, temperature_c: Option<Num>) -> (r: Num)
        ensures
            r == ratcheted(old(self).levels, valid_control, active, temperature_c),
            final(self).levels == old(self).levels.after(valid_control, active, temperature_c),
            old(self).levels.wf() ==> final(self).levels.wf(),
    {
        proof {
            if self.levels.wf() {
                lemma_ratchet_stays_in_bounds(self.levels, valid_control, active, temperature_c);
            }
            reveal(ratcheted);
        }
        let m = self.levels;
        let current = if !valid_control {
            m.current
        } else if active {
            (m.current - m.down_rate).max(m.floor)
        } else {
            let cool = match temperature_c {
                Some(temperature) => temperature <= m.recovery_c,
                None => false,
            };
            if cool {
                (m.current + m.down_rate / Num(TWO)).min(m.ceiling)
            } else {
                m.current
            }
        };
        self.levels = Levels { current, ..m };
        current
    }
}

impl MaxRatchet<Mhz> {
    /// The GPU's ratchet, from its hot threshold.
    pub fn gpu(floor: Num, ceiling: Num, current: Num, gpu_hot_c: Num) -> (r: MaxRatchet<Mhz>)
        requires
            !floor.nan(),
            !ceiling.nan(),
        ensures
            r.levels == Levels::between(
                floor,
                ceiling,
                current,
                Num(GPU_MAX_RATCHET_DOWN_RATE_MHZ),
                gpu_hot_c.minus(Num(GPU_MAX_RATCHET_RECOVERY_MARGIN_C)),
            ),
    {
        MaxRatchet::new(
            floor,
            ceiling,
            current,
            Num(GPU_MAX_RATCHET_DOWN_RATE_MHZ),
            gpu_hot_c - Num(GPU_MAX_RATCHET_RECOVERY_MARGIN_C),
        )
    }
}

impl MaxRatchet<W> {
    /// The CPU's ratchet, from its hot threshold.
    pub fn cpu(floor: Num, ceiling: Num, current: Num, cpu_hot_c: Num) -> (r: MaxRatchet<W>)
        requires
            !floor.nan(),
            !ceiling.nan(),
        ensures
            r.levels == Levels::between(
                floor,
                ceiling,
                current,
                Num(CPU_MAX_RATCHET_DOWN_RATE_W),
                cpu_hot_c.minus(Num(CPU_MAX_RATCHET_RECOVERY_MARGIN_C)),
            ),
    {
        MaxRatchet::new(
            floor,
            ceiling,
            current,
            Num(CPU_MAX_RATCHET_DOWN_RATE_W),
            cpu_hot_c - Num(CPU_MAX_RATCHET_RECOVERY_MARGIN_C),
        )
    }
}

/// The guard flags of one tick.
#[derive(Clone, Copy, Debug, PartialEq, Eq, Structural)]
pub struct GuardState {
    pub gpu_hot: bool,
    pub nvme_hot: bool,
}

/// The GPU and NVMe guards.
#[derive(Clone, Copy, Debug)]
pub struct Guards {
    pub gpu_hot_c: Num,
    pub nvme_hot_c: Num,
    pub gpu_hot: bool,
    pub nvme_hot: bool,
}

/// Hot after a reading: enters at the threshold, clears a band below it, and
/// keeps its state in between; without a reading it is not hot.
#[verifier::opaque]
pub open spec fn stays_hot(was_hot: bool, temp_c: Option<Num>, enter_c: Num, band_c: Num) -> bool {
    match temp_c {
        None => false,
        Some(t) => if was_hot {
            !t.le(enter_c.minus(band_c))
        } else {
            enter_c.le(t)
        },
    }
}

fn hysteresis(was_hot: bool, temp_c: Option<Num>, enter_c: Num, band_c: Num) -> (r: bool)
    ensures
        r == stays_hot(was_hot, temp_c, enter_c, band_c),
{
    proof {
        reveal(stays_hot);
    }
    match temp_c {
        None => false,
        Some(t) => {
            if !was_hot && t >= enter_c {
                true
            } else if was_hot && t <= enter_c - band_c {
                false
            } else {
                was_hot
            }
        },
    }
}

impl Guards {
    /// Cold guards with these thresholds.
    pub fn new(gpu_hot_c: Num, nvme_hot_c: Num) -> (r: Guards)
        ensures
            r == (Guards { gpu_hot_c, nvme_hot_c, gpu_hot: false, nvme_hot: false }),
    {
        Guards { gpu_hot_c, nvme_hot_c, gpu_hot: false, nvme_hot: false }
    }

    /// One tick; a missing reading clears its guard.
    pub fn step(&mut self, gpu_temp_c: Option<Num>, nvme_temp_c: Option<Num>) -> (r: GuardState)
        ensures
            r.gpu_hot == stays_hot(
                old(self).gpu_hot,
                gpu_temp_c,
                old(self).gpu_hot_c,
                Num(GPU_HYSTERESIS_C),
            ),
            r.nvme_hot == stays_hot(
                old(self).nvme_hot,
                nvme_temp_c,
                old(self).nvme_hot_c,
                Num(NVME_HYSTERESIS_C),
            ),
            *final(self) == (Guards { gpu_hot: r.gpu_hot, nvme_hot: r.nvme_hot, ..*old(self) }),
    {
        self.gpu_hot = hysteresis(self.gpu_hot, gpu_temp_c, self.gpu_hot_c, Num(GPU_HYSTERESIS_C));
        self.nvme_hot =
        hysteresis(self.nvme_hot, nvme_temp_c, self.nvme_hot_c, Num(NVME_HYSTERESIS_C));
        GuardState { gpu_hot: self.gpu_hot, nvme_hot: self.nvme_hot }
    }
}

/// The GPU's share while it is hot.
pub open spec fn hot_share(current_gpu_w: Num, gpu_floor_w: Num) -> Num {
    current_gpu_w.minus(Num(DOWN_RATE_W)).greater(gpu_floor_w)
}

/// The GPU's share while it is hot: lowered from the present draw by the down
/// rate, but never below its floor.
pub fn gpu_share_override(current_gpu_w: Num, gpu_floor_w: Num) -> (r: Num)
    ensures
        r == current_gpu_w.minus(Num(DOWN_RATE_W)).greater(gpu_floor_w),
        r == hot_share(current_gpu_w, gpu_floor_w),
        !gpu_floor_w.nan() ==> gpu_floor_w.le(r),
{
    proof {
        reveal(Num::le);
        reveal(Num::lt);
        reveal(Num::greater);
    }
    (current_gpu_w - Num(DOWN_RATE_W)).max(gpu_floor_w)
}

/// A ratchet that starts between its bounds stays there, falls (never rises)
/// while the guard is active, and rises (never falls) while it recovers.
pub proof fn lemma_ratchet_stays_in_bounds(
    m: Levels,
    valid_control: bool,
    active: bool,
    temperature_c: Option<Num>,
)
    requires
        m.wf(),
    ensures
        ({
            let next = ratcheted(m, valid_control, active, temperature_c);
            &&& m.floor.le(next)
            &&& next.le(m.ceiling)
            &&& valid_control && active ==> next.le(m.current)
            &&& !active ==> m.current.le(next)
        }),
{
    reveal(ratcheted);
    reveal(Num::le);
    reveal(Num::lt);
    reveal(Num::greater);
    reveal(Num::lesser);
    let half = m.down_rate.over(Num(TWO));
    assert(half.finite() && Num(ZERO).le(half)) by {
        reveal(Num::over);
        crate::order::lemma_half(m.down_rate);
    }
    crate::order::lemma_span(m.current, m.down_rate, half);
}

/// The guards only ever clear at or below the exit threshold: between it and
/// the threshold a hot guard stays hot, and a cold one stays cold.
pub proof fn lemma_band_keeps_state(was_hot: bool, t: Num, enter_c: Num, band_c: Num)
    requires
        enter_c.minus(band_c).lt(t),
        t.lt(enter_c),
    ensures
        stays_hot(was_hot, Some(t), enter_c, band_c) == was_hot,
{
    reveal(stays_hot);
    reveal(Num::lt);
    reveal(Num::le);
}

/// A guard never stays hot on a reading that is gone.
pub proof fn lemma_missing_reading_clears(was_hot: bool, enter_c: Num, band_c: Num)
    ensures
        !stays_hot(was_hot, None, enter_c, band_c),
{
    reveal(stays_hot);
}

} // verus!
