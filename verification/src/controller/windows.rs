//! Windows of recent readings.

use crate::num::{Num, ZERO};
use std::collections::VecDeque;
use vstd::prelude::*;

verus! {

/// Samples that the fan speed is smoothed over.
pub const FAN_SMOOTH_N: usize = 5;

/// Samples that the CPU's draw is averaged over.
pub const DRAW_MEAN_N: usize = 5;

/// Samples that the slope of the embedded controller's maximum spans.
pub const EC_SLOPE_WINDOW_S: usize = 5;

/// Samples in a steady window.
pub const STEADY_WINDOW_N: usize = 40;

/// 60: a steady window deviates by less, RPM.
pub const STEADY_WINDOW_STDEV_MAX_RPM: u64 = 0x404e_0000_0000_0000;

/// The sum, from the oldest on.
pub open spec fn total(s: Seq<Num>) -> Num
    decreases s.len(),
{
    if s.len() == 0 {
        Num(ZERO)
    } else {
        total(s.drop_last()).plus(s.last())
    }
}

/// The sum of the squared distances from a mean.
pub open spec fn squares(s: Seq<Num>, mean: Num) -> Num
    decreases s.len(),
{
    if s.len() == 0 {
        Num(ZERO)
    } else {
        let d = s.last().minus(mean);
        squares(s.drop_last(), mean).plus(d.times(d))
    }
}

/// The mean.
#[verifier::opaque]
pub open spec fn mean(s: Seq<Num>) -> Num {
    total(s).over(crate::num::of_int(s.len()))
}

/// The standard deviation of the whole population.
#[verifier::opaque]
pub open spec fn deviation(s: Seq<Num>) -> Num {
    squares(s, mean(s)).over(crate::num::of_int(s.len())).root()
}

/// A window that takes a reading in, and lets the oldest go once it is full.
#[verifier::opaque]
pub open spec fn slid(s: Seq<Num>, x: Num, n: nat) -> Seq<Num> {
    let t = s.push(x);
    if t.len() > n {
        t.drop_first()
    } else {
        t
    }
}

/// The change per sample from the oldest reading to the newest.
#[verifier::opaque]
pub open spec fn slope(s: Seq<Num>) -> Num {
    if s.len() == 0 {
        Num(ZERO)
    } else {
        let gaps = if s.len() > 2 {
            (s.len() - 1) as nat
        } else {
            1nat
        };
        s.last().minus(s.first()).over(crate::num::of_int(gaps))
    }
}

/// The mean, or what an empty window counts as.
#[verifier::opaque]
pub open spec fn smoothed(s: Seq<Num>) -> Num {
    total(s).over(
        crate::num::of_int(
            if s.len() == 0 {
                1
            } else {
                s.len()
            },
        ),
    )
}

fn sum(w: &VecDeque<Num>) -> (r: Num)
    ensures
        r == total(w@),
{
    let mut acc = Num(ZERO);
    let mut i: usize = 0;
    while i < w.len()
        invariant
            i <= w@.len(),
            acc == total(w@.take(i as int)),
        decreases w@.len() - i,
    {
        proof {
            let next = w@.take(i + 1);
            assert(next.drop_last() =~= w@.take(i as int));
            assert(next.last() == w@[i as int]);
        }
        acc = acc + w[i];
        i += 1;
    }
    assert(w@.take(w@.len() as int) =~= w@);
    acc
}

/// The mean of a window.
pub fn mean_of(w: &VecDeque<Num>) -> (r: Num)
    ensures
        r == mean(w@),
{
    proof {
        reveal(mean);
    }
    sum(w) / Num::from_int(w.len() as u64)
}

/// Standard deviation of the whole population: it divides by the count.
pub fn population_stdev(values: &VecDeque<Num>) -> (r: Num)
    ensures
        r == deviation(values@),
{
    proof {
        reveal(deviation);
    }
    let n = Num::from_int(values.len() as u64);
    let m = mean_of(values);
    let mut acc = Num(ZERO);
    let mut i: usize = 0;
    while i < values.len()
        invariant
            i <= values@.len(),
            acc == squares(values@.take(i as int), m),
        decreases values@.len() - i,
    {
        proof {
            let next = values@.take(i + 1);
            assert(next.drop_last() =~= values@.take(i as int));
            assert(next.last() == values@[i as int]);
        }
        let d = values[i] - m;
        acc = acc + d * d;
        i += 1;
    }
    assert(values@.take(values@.len() as int) =~= values@);
    (acc / n).sqrt()
}

/// Takes a reading in.
pub fn slide(w: &mut VecDeque<Num>, x: Num, n: usize)
    ensures
        final(w)@ == slid(old(w)@, x, n as nat),
{
    proof {
        reveal(slid);
    }
    w.push_back(x);
    if w.len() > n {
        let _ = w.pop_front();
    }
}

/// The change per sample over a window.
pub fn slope_of(w: &VecDeque<Num>) -> (r: Num)
    ensures
        r == slope(w@),
{
    proof {
        reveal(slope);
    }
    let n = w.len();
    if n == 0 {
        return Num(ZERO);
    }
    let gaps = if n > 2 {
        n - 1
    } else {
        1
    };
    (w[n - 1] - w[0]) / Num::from_int(gaps as u64)
}

/// The smoothed value of a window.
pub fn smooth(w: &VecDeque<Num>) -> (r: Num)
    ensures
        r == smoothed(w@),
{
    proof {
        reveal(smoothed);
    }
    let n = w.len();
    sum(w) / Num::from_int(
        if n == 0 {
            1
        } else {
            n as u64
        },
    )
}

/// A window of smoothed fan speeds under one key.
#[derive(Clone, Debug)]
pub struct Steady {
    pub window: VecDeque<Num>,
    pub key: Option<String>,
}

/// A [`Steady`] as values.
#[verifier::ext_equal]
pub struct SteadyView {
    pub window: Seq<Num>,
    pub key: Option<Seq<char>>,
}

impl SteadyView {
    /// Nothing observed.
    pub open spec fn empty() -> SteadyView {
        SteadyView { window: Seq::empty(), key: None }
    }

    /// The window stays under its key and takes the reading in.
    pub open spec fn goes_on(self, key: Seq<char>, qualifies: bool) -> bool {
        qualifies && self.key == Some(key)
    }

    /// The readings after this one.
    pub open spec fn readings(self, rpm: Num) -> Seq<Num> {
        slid(self.window, rpm, STEADY_WINDOW_N as nat)
    }

    /// After a reading: a new key, or a reading that does not qualify, starts
    /// the window over.
    #[verifier::opaque]
    pub open spec fn judged(self, key: Seq<char>, qualifies: bool, rpm: Num) -> SteadyView {
        if self.goes_on(key, qualifies) {
            SteadyView { window: self.readings(rpm), ..self }
        } else {
            SteadyView { window: Seq::empty(), key: Some(key) }
        }
    }

    /// The mean of a window that is full and steady with this reading.
    #[verifier::opaque]
    pub open spec fn settled(self, key: Seq<char>, qualifies: bool, rpm: Num) -> Option<Num> {
        let s = self.readings(rpm);
        if self.goes_on(key, qualifies) && s.len() == STEADY_WINDOW_N && !Num(
            STEADY_WINDOW_STDEV_MAX_RPM,
        ).le(deviation(s)) {
            Some(mean(s))
        } else {
            None
        }
    }
}

impl View for Steady {
    type V = SteadyView;

    open spec fn view(&self) -> SteadyView {
        SteadyView {
            window: self.window@,
            key: match self.key {
                Some(k) => Some(k@),
                None => None,
            },
        }
    }
}

impl Steady {
    /// Nothing observed.
    pub fn new() -> (r: Steady)
        ensures
            r@ == SteadyView::empty(),
    {
        Steady { window: VecDeque::new(), key: None }
    }

    /// Forgets everything.
    pub fn clear(&mut self)
        ensures
            final(self)@ == SteadyView::empty(),
    {
        self.window.clear();
        self.key = None;
    }

    /// Takes one reading in; the mean, once the window is full and steady.
    pub fn judge(&mut self, key: &String, qualifies: bool, rpm: Num) -> (r: Option<Num>)
        ensures
            final(self)@ == old(self)@.judged(key@, qualifies, rpm),
            r == old(self)@.settled(key@, qualifies, rpm),
    {
        proof {
            reveal(SteadyView::judged);
            reveal(SteadyView::settled);
        }
        let same = match &self.key {
            Some(k) => *k == *key,
            None => false,
        };
        if !same || !qualifies {
            self.key = Some(key.clone());
            self.window.clear();
            None
        } else {
            slide(&mut self.window, rpm, STEADY_WINDOW_N);
            if self.window.len() != STEADY_WINDOW_N {
                return None;
            }
            if population_stdev(&self.window) >= Num(STEADY_WINDOW_STDEV_MAX_RPM) {
                return None;
            }
            Some(mean_of(&self.window))
        }
    }
}

/// A window never holds more than its size, and keeps the newest readings in
/// their order.
pub proof fn lemma_window_is_bounded(s: Seq<Num>, x: Num, n: nat)
    requires
        s.len() <= n,
        n > 0,
    ensures
        slid(s, x, n).len() <= n,
        slid(s, x, n).last() == x,
        s.len() < n ==> slid(s, x, n) == s.push(x),
        s.len() == n ==> slid(s, x, n) == s.drop_first().push(x),
{
    reveal(slid);
    if s.len() == n {
        assert(s.push(x).drop_first() =~= s.drop_first().push(x));
    }
}

/// A settled window has been under one key, without a break, for its whole
/// length: a reading that does not qualify, or another key, starts it over.
pub proof fn lemma_break_starts_over(w: SteadyView, key: Seq<char>, qualifies: bool, rpm: Num)
    requires
        w.window.len() <= STEADY_WINDOW_N,
        !qualifies || w.key != Some(key),
    ensures
        w.judged(key, qualifies, rpm).window.len() == 0,
        w.settled(key, qualifies, rpm) is None,
{
    reveal(SteadyView::judged);
    reveal(SteadyView::settled);
}

/// What a sample brings to a steady window.
pub enum Observed {
    /// Nothing to judge: the window is cleared.
    Gap,
    /// A reading under a key.
    Reading { key: Seq<char>, qualifies: bool, rpm: Num },
}

impl Observed {
    /// A reading that qualifies under a key.
    pub open spec fn counts(self, key: Seq<char>) -> bool {
        self matches Observed::Reading { key: k, qualifies, .. } && qualifies && k == key
    }

    /// Its speed.
    pub open spec fn rpm(self) -> Num {
        match self {
            Observed::Gap => Num(ZERO),
            Observed::Reading { rpm, .. } => rpm,
        }
    }
}

/// The window after what was observed, the newest last.
pub open spec fn watched_over(past: Seq<Observed>) -> SteadyView
    decreases past.len(),
{
    if past.len() == 0 {
        SteadyView::empty()
    } else {
        match past.last() {
            Observed::Gap => SteadyView::empty(),
            Observed::Reading { key, qualifies, rpm } => watched_over(past.drop_last()).judged(
                key,
                qualifies,
                rpm,
            ),
        }
    }
}

/// The newest readings, as many as fill a window, all qualified under a key.
pub open spec fn in_row(past: Seq<Observed>, key: Seq<char>) -> bool {
    &&& past.len() >= STEADY_WINDOW_N
    &&& forall|i: int|
        past.len() - STEADY_WINDOW_N <= i < past.len() ==> (#[trigger] past[i]).counts(key)
}

/// They did so under one key.
pub open spec fn full_row(past: Seq<Observed>) -> bool {
    exists|key: Seq<char>| in_row(past, key)
}

/// A place of the window holds the reading of its turn, which qualified under
/// the window's key.
pub open spec fn in_place(w: SteadyView, past: Seq<Observed>, i: int) -> bool {
    let o = past[past.len() - w.window.len() + i];
    o.counts(w.key->0) && o.rpm() == w.window[i]
}

/// The window holds the newest readings, each of which qualified under its
/// key.
pub open spec fn holds_the_newest(w: SteadyView, past: Seq<Observed>) -> bool {
    &&& w.window.len() <= STEADY_WINDOW_N
    &&& w.window.len() <= past.len()
    &&& w.window.len() > 0 ==> w.key is Some
    &&& forall|i: int| 0 <= i < w.window.len() ==> #[trigger] in_place(w, past, i)
}

proof fn lemma_one_more_is_the_newest(
    w: SteadyView,
    past: Seq<Observed>,
    key: Seq<char>,
    qualifies: bool,
    rpm: Num,
)
    requires
        holds_the_newest(w, past),
    ensures
        holds_the_newest(
            w.judged(key, qualifies, rpm),
            past.push(Observed::Reading { key, qualifies, rpm }),
        ),
{
    reveal(SteadyView::judged);
    reveal(slid);
    let now = past.push(Observed::Reading { key, qualifies, rpm });
    let v = w.judged(key, qualifies, rpm);
    if w.goes_on(key, qualifies) {
        let drop = w.window.len() + 1 - v.window.len();
        assert forall|i: int| 0 <= i < v.window.len() implies #[trigger] in_place(v, now, i) by {
            if i < v.window.len() - 1 {
                assert(in_place(w, past, i + drop));
            }
        }
    }
}

proof fn lemma_holds_the_newest(past: Seq<Observed>)
    ensures
        holds_the_newest(watched_over(past), past),
    decreases past.len(),
{
    if past.len() > 0 {
        let earlier = past.drop_last();
        lemma_holds_the_newest(earlier);
        match past.last() {
            Observed::Gap => {},
            Observed::Reading { key, qualifies, rpm } => {
                lemma_one_more_is_the_newest(watched_over(earlier), earlier, key, qualifies, rpm);
                assert(past =~= earlier.push(past.last()));
            },
        }
    }
}

/// A settled window tells that this reading and the ones before it that fill
/// the window all qualified, in a row and under one key: what it gives is
/// their mean, and they deviate by less than the limit.
pub proof fn lemma_settled_needs_a_full_row(
    past: Seq<Observed>,
    key: Seq<char>,
    qualifies: bool,
    rpm: Num,
)
    requires
        watched_over(past).settled(key, qualifies, rpm) is Some,
    ensures
        qualifies,
        past.len() >= STEADY_WINDOW_N - 1,
        forall|i: int|
            past.len() - (STEADY_WINDOW_N - 1) <= i < past.len() ==> (#[trigger] past[i]).counts(
                key,
            ),
        ({
            let row = Seq::new(
                (STEADY_WINDOW_N - 1) as nat,
                |i: int| past[past.len() - (STEADY_WINDOW_N - 1) + i].rpm(),
            ).push(rpm);
            &&& watched_over(past).settled(key, qualifies, rpm) == Some(mean(row))
            &&& !Num(STEADY_WINDOW_STDEV_MAX_RPM).le(deviation(row))
        }),
{
    reveal(SteadyView::settled);
    reveal(slid);
    lemma_holds_the_newest(past);
    let w = watched_over(past);
    let n = STEADY_WINDOW_N - 1;
    let row = Seq::new(n as nat, |i: int| past[past.len() - n + i].rpm()).push(rpm);
    let cut = w.window.len() - n;
    assert forall|i: int| past.len() - n <= i < past.len() implies (#[trigger] past[i]).counts(
        key,
    ) by {
        assert(in_place(w, past, i - (past.len() - w.window.len())));
    }
    assert forall|i: int| 0 <= i < n implies row[i] == #[trigger] w.readings(rpm)[i] by {
        assert(in_place(w, past, i + cut));
    }
    assert(w.readings(rpm) =~= row);
}

} // verus!
