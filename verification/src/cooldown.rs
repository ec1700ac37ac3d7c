//! The command-cooldown gate.
//!
//! A sample may be learned from only if the commanded point has stayed put
//! for the whole trailing window. The whole window is compared with the
//! current point, not each step with the one before, so a slow staircase does
//! not pass.
use crate::num::Num;
use vstd::prelude::*;

verus! {

/// 2: how far a command may lie from the current one, W.
pub const TOL_W: u64 = 0x4000_0000_0000_0000;

/// 30: the trailing window, s.
pub const WINDOW_S: u64 = 0x403e_0000_0000_0000;

/// One commanded operating point.
#[derive(Clone, Copy, Debug, PartialEq)]
pub struct CommandedPoint {
    pub t_mono: Num,
    pub cpu_w: Num,
    pub gpu_w: Num,
}

/// Two points are within the tolerance on both legs.
pub open spec fn near_point(p: CommandedPoint, q: CommandedPoint) -> bool {
    &&& p.cpu_w.minus(q.cpu_w).size().le(Num(TOL_W))
    &&& p.gpu_w.minus(q.gpu_w).size().le(Num(TOL_W))
}

/// Some point is at least a window old.
pub open spec fn covered(ring: Seq<CommandedPoint>, now: Num) -> bool {
    exists|i: int|
        0 <= i < ring.len() && Num(WINDOW_S).le(now.minus((#[trigger] ring[i]).t_mono))
}

/// Every point of the window is near the latest one.
pub open spec fn stationary(ring: Seq<CommandedPoint>, now: Num) -> bool {
    forall|i: int|
        0 <= i < ring.len() && now.minus((#[trigger] ring[i]).t_mono).le(Num(WINDOW_S))
            ==> near_point(ring[i], ring.last())
}

/// The ring reaches back a full window, and nothing in the window lies away
/// from the latest point.
pub open spec fn held_still(ring: Seq<CommandedPoint>, now: Num) -> bool {
    &&& ring.len() > 0
    &&& covered(ring, now)
    &&& stationary(ring, now)
}

/// Whether the ring shows that the commanded point held for the whole window.
pub fn cooldown_open(ring: &[CommandedPoint], now: Num) -> (r: bool)
    ensures
        r == held_still(ring@, now),
{
    if ring.len() == 0 {
        return false;
    }
    let cur = ring[ring.len() - 1];
    let mut seen: bool = false;
    let mut still: bool = true;
    let mut i: usize = 0;
    while i < ring.len()
        invariant
            0 < ring@.len(),
            i <= ring@.len(),
            cur == ring@.last(),
            seen == (exists|j: int|
                0 <= j < i && Num(WINDOW_S).le(now.minus((#[trigger] ring@[j]).t_mono))),
            still == (forall|j: int|
                0 <= j < i && now.minus((#[trigger] ring@[j]).t_mono).le(Num(WINDOW_S))
                    ==> near_point(ring@[j], ring@.last())),
        decreases ring@.len() - i,
    {
        let p = ring[i];
        let age = now - p.t_mono;
        let old_enough = age >= Num(WINDOW_S);
        let fits = !(age <= Num(WINDOW_S)) || ((p.cpu_w - cur.cpu_w).abs() <= Num(TOL_W) && (p.gpu_w
            - cur.gpu_w).abs() <= Num(TOL_W));
        assert(p == ring@[i as int]);
        seen = seen || old_enough;
        still = still && fits;
        i += 1;
    }
    seen && still
}

/// A full window of evidence is owed: without a point that old nothing
/// opens.
pub proof fn lemma_no_coverage_no_opening(ring: Seq<CommandedPoint>, now: Num)
    requires
        forall|i: int|
            0 <= i < ring.len() ==> !Num(WINDOW_S).le(now.minus((#[trigger] ring[i]).t_mono)),
    ensures
        !held_still(ring, now),
{
}

/// A staircase does not open it: however small its steps are, one point of
/// the window that lies away from the latest keeps it shut.
pub proof fn lemma_staircase_stays_shut(ring: Seq<CommandedPoint>, now: Num, i: int)
    requires
        0 <= i < ring.len(),
        now.minus(ring[i].t_mono).le(Num(WINDOW_S)),
        !near_point(ring[i], ring.last()),
    ensures
        !held_still(ring, now),
{
}

} // verus!
