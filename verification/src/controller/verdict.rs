//! The shared rule for actuator read-backs.

use crate::num::Num;
use vstd::prelude::*;

verus! {

/// Mismatches in a row before an actuator is released to stock.
pub const MISMATCH_RELEASE_STRIKES: u8 = 3;

/// Unreadable read-backs in a row before the read-back counts as blind.
pub const READBACK_BLIND_STRIKES: u8 = 6;

/// What the read-back after a write showed.
#[derive(Clone, Copy, Debug, PartialEq)]
pub enum WriteVerdict {
    /// The value in force.
    Verified(Num),
    /// A field read back something else than was commanded.
    Mismatch { field: &'static str, commanded: Num, read: Num },
    /// The read-back failed.
    Unreadable,
    /// The read-back can say nothing.
    Unverifiable,
}

/// The read-back history of one actuator. It is fed confirmed verdicts only:
/// a mismatch has been read twice.
#[derive(Clone, Copy, Debug, PartialEq, Eq, Structural)]
pub struct VerdictState {
    /// Mismatches in a row.
    pub mismatch_streak: u8,
    /// Unreadable read-backs in a row.
    pub unreadable_streak: u8,
    /// The actuator was released after too many mismatches; only a verified
    /// read-back clears this.
    pub released: bool,
    /// The read-back is blind.
    pub blind: bool,
}

/// What a verdict asks for.
#[derive(Clone, Copy, Debug, PartialEq, Eq, Structural)]
pub enum VerdictOutcome {
    /// Nothing.
    Quiet,
    /// The first verified read-back after trouble.
    Recovered,
    /// A mismatch that does not release yet.
    Mismatch,
    /// The mismatch that releases the actuator.
    Released,
    /// The unreadable read-back that makes it blind.
    Blind,
}

impl Default for VerdictState {
    fn default() -> (r: VerdictState)
        ensures
            r == VerdictState::clear(),
    {
        VerdictState { mismatch_streak: 0, unreadable_streak: 0, released: false, blind: false }
    }
}

/// One more, up to the most that a byte holds.
pub open spec fn one_more(n: u8) -> u8 {
    if n < u8::MAX {
        (n + 1) as u8
    } else {
        u8::MAX
    }
}

impl VerdictState {
    /// No trouble so far.
    pub open spec fn clear() -> VerdictState {
        VerdictState { mismatch_streak: 0, unreadable_streak: 0, released: false, blind: false }
    }

    /// A mismatch episode is under way: strikes stand, or the actuator is
    /// released.
    pub open spec fn episode(self) -> bool {
        self.mismatch_streak > 0 || self.released
    }

    /// The state and the outcome after a verdict. A suppressed mismatch is
    /// not scored, nor is a suppressed unreadable read-back.
    pub open spec fn observed(self, verdict: WriteVerdict, suppress: bool) -> (
        VerdictState,
        VerdictOutcome,
    ) {
        match verdict {
            WriteVerdict::Verified(_) => (
                VerdictState::clear(),
                if self.episode() || self.blind {
                    VerdictOutcome::Recovered
                } else {
                    VerdictOutcome::Quiet
                },
            ),
            WriteVerdict::Unreadable => if suppress {
                (self, VerdictOutcome::Quiet)
            } else {
                let n = one_more(self.unreadable_streak);
                let blind = n >= READBACK_BLIND_STRIKES;
                (
                    VerdictState { unreadable_streak: n, blind: self.blind || blind, ..self },
                    if blind && !self.blind {
                        VerdictOutcome::Blind
                    } else {
                        VerdictOutcome::Quiet
                    },
                )
            },
            WriteVerdict::Unverifiable => (
                VerdictState { unreadable_streak: 0, ..self },
                VerdictOutcome::Quiet,
            ),
            WriteVerdict::Mismatch { .. } => if suppress {
                (VerdictState { unreadable_streak: 0, ..self }, VerdictOutcome::Quiet)
            } else {
                let n = one_more(self.mismatch_streak);
                if n >= MISMATCH_RELEASE_STRIKES {
                    (
                        VerdictState {
                            mismatch_streak: 0,
                            unreadable_streak: 0,
                            released: true,
                            ..self
                        },
                        VerdictOutcome::Released,
                    )
                } else {
                    (
                        VerdictState { mismatch_streak: n, unreadable_streak: 0, ..self },
                        VerdictOutcome::Mismatch,
                    )
                }
            },
        }
    }

    /// Whether a mismatch episode is under way.
    pub fn in_episode(&self) -> (r: bool)
        ensures
            r == self.episode(),
    {
        self.mismatch_streak > 0 || self.released
    }

    /// Takes in one confirmed verdict. `suppress` holds shortly after the
    /// power source changed.
    pub fn observe(&mut self, verdict: WriteVerdict, suppress: bool) -> (r: VerdictOutcome)
        ensures
            *final(self) == old(self).observed(verdict, suppress).0,
            r == old(self).observed(verdict, suppress).1,
    {
        match verdict {
            WriteVerdict::Verified(_) => {
                let was_trouble = self.mismatch_streak > 0 || self.released || self.blind;
                *self = VerdictState::default();
                if was_trouble {
                    VerdictOutcome::Recovered
                } else {
                    VerdictOutcome::Quiet
                }
            },
            WriteVerdict::Unreadable => {
                if suppress {
                    return VerdictOutcome::Quiet;
                }
                self.unreadable_streak = self.unreadable_streak.saturating_add(1);
                if self.unreadable_streak >= READBACK_BLIND_STRIKES && !self.blind {
                    self.blind = true;
                    VerdictOutcome::Blind
                } else {
                    VerdictOutcome::Quiet
                }
            },
            WriteVerdict::Unverifiable => {
                self.unreadable_streak = 0;
                VerdictOutcome::Quiet
            },
            WriteVerdict::Mismatch { .. } => {
                self.unreadable_streak = 0;
                if suppress {
                    return VerdictOutcome::Quiet;
                }
                self.mismatch_streak = self.mismatch_streak.saturating_add(1);
                if self.mismatch_streak >= MISMATCH_RELEASE_STRIKES {
                    self.mismatch_streak = 0;
                    self.released = true;
                    VerdictOutcome::Released
                } else {
                    VerdictOutcome::Mismatch
                }
            },
        }
    }
}

/// The state after a run of verdicts, none of them suppressed.
pub open spec fn after_all(v: VerdictState, verdicts: Seq<WriteVerdict>) -> VerdictState
    decreases verdicts.len(),
{
    if verdicts.len() == 0 {
        v
    } else {
        after_all(v, verdicts.drop_last()).observed(verdicts.last(), false).0
    }
}

/// Whatever came before, a verified read-back ends every trouble.
pub proof fn lemma_verified_clears(v: VerdictState, value: Num, suppress: bool)
    ensures
        v.observed(WriteVerdict::Verified(value), suppress).0 == VerdictState::clear(),
        !v.observed(WriteVerdict::Verified(value), suppress).0.episode(),
{
}

/// From a clear state the third mismatch in a row releases, and no earlier
/// one does.
pub proof fn lemma_third_mismatch_releases(a: WriteVerdict, b: WriteVerdict, c: WriteVerdict)
    requires
        a is Mismatch,
        b is Mismatch,
        c is Mismatch,
    ensures
        ({
            let one = VerdictState::clear().observed(a, false);
            let two = one.0.observed(b, false);
            let three = two.0.observed(c, false);
            &&& one.1 == VerdictOutcome::Mismatch && one.0.episode() && !one.0.released
            &&& two.1 == VerdictOutcome::Mismatch && two.0.episode() && !two.0.released
            &&& three.1 == VerdictOutcome::Released && three.0.episode() && three.0.released
        }),
{
}

/// Only a verified read-back ends an episode, and only one makes a blind
/// read-back see again.
pub proof fn lemma_only_verified_recovers(v: VerdictState, verdict: WriteVerdict, suppress: bool)
    requires
        !(verdict is Verified),
    ensures
        v.episode() ==> v.observed(verdict, suppress).0.episode(),
        v.released ==> v.observed(verdict, suppress).0.released,
        v.blind ==> v.observed(verdict, suppress).0.blind,
        v.observed(verdict, suppress).1 != VerdictOutcome::Recovered,
{
}

/// While suppressed, nothing begins an episode and nothing makes the
/// read-back blind.
pub proof fn lemma_suppressed_is_never_scored(v: VerdictState, verdict: WriteVerdict)
    ensures
        v.observed(verdict, true).0.episode() ==> v.episode(),
        v.observed(verdict, true).0.blind ==> v.blind,
        v.observed(verdict, true).1 == VerdictOutcome::Quiet || v.observed(verdict, true).1
            == VerdictOutcome::Recovered,
{
}

/// Unreadable read-backs in a row, from a state without any: the read-back is
/// blind exactly from the sixth on, and none of them starts an episode.
pub proof fn lemma_sixth_unreadable_blinds(v: VerdictState, verdicts: Seq<WriteVerdict>)
    requires
        v.unreadable_streak == 0,
        !v.blind,
        verdicts.len() <= u8::MAX,
        forall|i: int| 0 <= i < verdicts.len() ==> (#[trigger] verdicts[i]) is Unreadable,
    ensures
        ({
            let after = after_all(v, verdicts);
            &&& after.unreadable_streak == verdicts.len()
            &&& after.blind <==> verdicts.len() >= READBACK_BLIND_STRIKES
            &&& after.episode() == v.episode()
        }),
    decreases verdicts.len(),
{
    if verdicts.len() > 0 {
        lemma_sixth_unreadable_blinds(v, verdicts.drop_last());
        assert(verdicts.last() is Unreadable);
    }
}

} // verus!
