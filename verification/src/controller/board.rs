//! The flags that are up, and the record of their changes.

use crate::controller::effect::{Cause, Effect};
use crate::status::StatusFlag;
use vstd::prelude::*;

verus! {

/// The flags that are up, in the order they were raised, and what has not
/// been reported yet.
#[derive(Clone, Debug)]
pub struct Board {
    pub flags: Vec<StatusFlag>,
    pub pending: Vec<Effect>,
}

/// A [`Board`] as sequences.
#[verifier::ext_equal]
pub struct BoardView {
    pub flags: Seq<StatusFlag>,
    pub pending: Seq<Effect>,
}

/// No flag is up twice.
#[verifier::opaque]
pub open spec fn distinct(flags: Seq<StatusFlag>) -> bool {
    flags.no_duplicates()
}

/// The flags but one.
pub open spec fn without(flags: Seq<StatusFlag>, flag: StatusFlag) -> Seq<StatusFlag>
    decreases flags.len(),
{
    if flags.len() == 0 {
        flags
    } else if flags.last() == flag {
        without(flags.drop_last(), flag)
    } else {
        without(flags.drop_last(), flag).push(flags.last())
    }
}

impl BoardView {
    /// No flag is up twice.
    pub open spec fn wf(self) -> bool {
        distinct(self.flags)
    }

    /// With a flag up; only a change is recorded.
    #[verifier::opaque]
    pub open spec fn raised(self, flag: StatusFlag) -> BoardView {
        if self.flags.contains(flag) {
            self
        } else {
            BoardView {
                flags: self.flags.push(flag),
                pending: self.pending.push(Effect::Flagged { flag, active: true }),
            }
        }
    }

    /// With a flag down; only a change is recorded.
    #[verifier::opaque]
    pub open spec fn lowered(self, flag: StatusFlag) -> BoardView {
        if self.flags.contains(flag) {
            BoardView {
                flags: without(self.flags, flag),
                pending: self.pending.push(Effect::Flagged { flag, active: false }),
            }
        } else {
            self
        }
    }

    /// With a flag up or down.
    pub open spec fn set(self, flag: StatusFlag, active: bool) -> BoardView {
        if active {
            self.raised(flag)
        } else {
            self.lowered(flag)
        }
    }

    /// With a note to report.
    pub open spec fn noted(self, cause: Cause) -> BoardView {
        BoardView { pending: self.pending.push(Effect::Noted { cause }), ..self }
    }

    /// With everything reported.
    pub open spec fn drained(self) -> BoardView {
        BoardView { pending: Seq::empty(), ..self }
    }
}

impl View for Board {
    type V = BoardView;

    open spec fn view(&self) -> BoardView {
        BoardView { flags: self.flags@, pending: self.pending@ }
    }
}

/// What is left without a flag: the others, in their order, each as often.
pub proof fn lemma_without(flags: Seq<StatusFlag>, flag: StatusFlag)
    ensures
        !without(flags, flag).contains(flag),
        forall|f: StatusFlag|
            f != flag ==> #[trigger] without(flags, flag).contains(f) == flags.contains(f),
        flags.no_duplicates() ==> without(flags, flag).no_duplicates(),
        without(flags, flag).len() <= flags.len(),
        flags.contains(flag) ==> without(flags, flag).len() < flags.len(),
        !flags.contains(flag) ==> without(flags, flag) == flags,
    decreases flags.len(),
{
    if flags.len() > 0 {
        let rest = flags.drop_last();
        let last = flags.last();
        lemma_without(rest, flag);
        let w = without(rest, flag);
        assert(flags =~= rest.push(last));
        assert forall|f: StatusFlag| flags.contains(f) == (rest.contains(f) || f == last) by {
            if rest.contains(f) {
                let i = choose|i: int| 0 <= i < rest.len() && rest[i] == f;
                assert(flags[i] == f);
            }
            if f == last {
                assert(flags[flags.len() - 1] == f);
            }
            if flags.contains(f) {
                let i = choose|i: int| 0 <= i < flags.len() && flags[i] == f;
                if i < rest.len() {
                    assert(rest[i] == f);
                }
            }
        }
        if last != flag {
            let p = w.push(last);
            assert forall|f: StatusFlag| p.contains(f) == (w.contains(f) || f == last) by {
                if w.contains(f) {
                    let i = choose|i: int| 0 <= i < w.len() && w[i] == f;
                    assert(p[i] == f);
                }
                if f == last {
                    assert(p[w.len() as int] == f);
                }
                if p.contains(f) {
                    let i = choose|i: int| 0 <= i < p.len() && p[i] == f;
                    if i < w.len() {
                        assert(w[i] == f);
                    }
                }
            }
            if flags.no_duplicates() {
                assert(rest.no_duplicates());
                assert(!rest.contains(last)) by {
                    if rest.contains(last) {
                        let i = choose|i: int| 0 <= i < rest.len() && rest[i] == last;
                        assert(flags[i] == flags[flags.len() - 1]);
                    }
                }
                assert(!w.contains(last));
                assert(p.no_duplicates());
            }
        } else if flags.no_duplicates() {
            assert(rest.no_duplicates());
        }
    }
}

impl Board {
    /// Whether a flag is up.
    pub fn has(&self, flag: StatusFlag) -> (r: bool)
        ensures
            r == self@.flags.contains(flag),
    {
        let mut i: usize = 0;
        while i < self.flags.len()
            invariant
                i <= self.flags@.len(),
                forall|j: int| 0 <= j < i ==> (#[trigger] self.flags@[j]) != flag,
            decreases self.flags@.len() - i,
        {
            if self.flags[i] == flag {
                return true;
            }
            i += 1;
        }
        false
    }

    /// Raises a flag.
    pub fn add_flag(&mut self, flag: StatusFlag)
        ensures
            final(self)@ == old(self)@.raised(flag),
            old(self)@.wf() ==> final(self)@.wf(),
    {
        proof {
            if self@.wf() {
                lemma_set_flag(self@, flag, true);
            }
            reveal(BoardView::raised);
        }
        if !self.has(flag) {
            self.flags.push(flag);
            self.pending.push(Effect::Flagged { flag, active: true });
        }
    }

    /// Lowers a flag.
    pub fn remove_flag(&mut self, flag: StatusFlag)
        ensures
            final(self)@ == old(self)@.lowered(flag),
            old(self)@.wf() ==> final(self)@.wf(),
    {
        proof {
            if self@.wf() {
                lemma_set_flag(self@, flag, false);
            }
            reveal(BoardView::lowered);
        }
        if self.has(flag) {
            let mut kept: Vec<StatusFlag> = Vec::new();
            let mut i: usize = 0;
            while i < self.flags.len()
                invariant
                    i <= self.flags@.len(),
                    kept@ == without(self.flags@.take(i as int), flag),
                decreases self.flags@.len() - i,
            {
                proof {
                    let next = self.flags@.take(i + 1);
                    assert(next.drop_last() =~= self.flags@.take(i as int));
                    assert(next.last() == self.flags@[i as int]);
                }
                let f = self.flags[i];
                if f != flag {
                    kept.push(f);
                }
                i += 1;
            }
            assert(self.flags@.take(self.flags@.len() as int) =~= self.flags@);
            self.flags = kept;
            self.pending.push(Effect::Flagged { flag, active: false });
        }
    }

    /// Raises or lowers a flag.
    pub fn sync_bool_flag(&mut self, flag: StatusFlag, active: bool)
        ensures
            final(self)@ == old(self)@.set(flag, active),
            old(self)@.wf() ==> final(self)@.wf(),
    {
        if active {
            self.add_flag(flag);
        } else {
            self.remove_flag(flag);
        }
    }

    /// Moves what has not been reported yet to the end of `effects`.
    pub fn drain_flag_effects(&mut self, effects: &mut Vec<Effect>)
        ensures
            final(self)@ == old(self)@.drained(),
            final(effects)@ == old(effects)@ + old(self)@.pending,
    {
        effects.append(&mut self.pending);
    }
}

/// Raising and lowering keep the flags free of repeats, do what they say, and
/// leave every other flag alone.
pub proof fn lemma_set_flag(b: BoardView, flag: StatusFlag, active: bool)
    requires
        b.wf(),
    ensures
        ({
            let after = b.set(flag, active);
            &&& after.wf()
            &&& after.flags.contains(flag) == active
            &&& forall|f: StatusFlag|
                f != flag ==> #[trigger] after.flags.contains(f) == b.flags.contains(f)
        }),
{
    reveal(BoardView::raised);
    reveal(BoardView::lowered);
    reveal(distinct);
    lemma_without(b.flags, flag);
    if active && !b.flags.contains(flag) {
        let after = b.flags.push(flag);
        assert(after[b.flags.len() as int] == flag);
        assert forall|f: StatusFlag| f != flag implies #[trigger] after.contains(f)
            == b.flags.contains(f) by {
            if b.flags.contains(f) {
                let i = choose|i: int| 0 <= i < b.flags.len() && b.flags[i] == f;
                assert(after[i] == f);
            }
        }
    }
}

/// A change is recorded exactly when there is one: setting a flag to what it
/// is leaves no trace, and any other setting leaves exactly one.
pub proof fn lemma_each_change_is_recorded_once(b: BoardView, flag: StatusFlag, active: bool)
    ensures
        b.flags.contains(flag) == active ==> b.set(flag, active) == b,
        b.flags.contains(flag) != active ==> b.set(flag, active).pending == b.pending.push(
            Effect::Flagged { flag, active },
        ),
{
    reveal(BoardView::raised);
    reveal(BoardView::lowered);
}

} // verus!
