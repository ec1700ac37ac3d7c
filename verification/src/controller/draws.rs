//! What the closed loop makes of the CPU's draw over a run of readings.

use crate::controller::auto::AutoView;
use crate::controller::config::Config;
use crate::controller::drive::{cpu_input, drawn, mean_draw, DriveFacts};
use crate::controller::laws::lemma_prepared_wf;
use crate::controller::report::SourceReply;
use crate::controller::windows::{mean, slid, DRAW_MEAN_N};
use crate::device_loop::laws::{latched_after, lemma_missing_draw_is_shown};
use crate::device_loop::{DeviceUnit, Hold, ThermalMode, W};
use crate::num::{Num, ZERO};
use crate::types::Sample;
use vstd::prelude::*;

verus! {

/// A draw that counts.
pub open spec fn counts(w: Num) -> bool {
    w.finite() && Num(ZERO).lt(w)
}

/// The draws kept of those read since they were last forgotten, the newest
/// last.
pub open spec fn draws_of(readings: Seq<Num>) -> Seq<Num>
    decreases readings.len(),
{
    if readings.len() == 0 {
        Seq::empty()
    } else {
        drawn(draws_of(readings.drop_last()), readings.last())
    }
}

/// As many readings as make a mean, the newest of them, all count.
pub open spec fn enough(readings: Seq<Num>) -> bool {
    &&& readings.len() >= DRAW_MEAN_N
    &&& forall|i: int|
        readings.len() - DRAW_MEAN_N <= i < readings.len() ==> counts(#[trigger] readings[i])
}

proof fn lemma_draws_are_the_newest(readings: Seq<Num>)
    ensures
        ({
            let w = draws_of(readings);
            let n = readings.len() - w.len();
            &&& w.len() <= DRAW_MEAN_N
            &&& w.len() <= readings.len()
            &&& w == readings.skip(n)
            &&& forall|i: int| n <= i < readings.len() ==> counts(#[trigger] readings[i])
            &&& w.len() == DRAW_MEAN_N || n == 0 || !counts(readings[n - 1])
        }),
    decreases readings.len(),
{
    if readings.len() > 0 {
        let earlier = readings.drop_last();
        lemma_draws_are_the_newest(earlier);
        reveal(drawn);
        reveal(slid);
        let v = draws_of(earlier);
        let w = draws_of(readings);
        let n = readings.len() - w.len();
        let k = earlier.len() - v.len();
        assert(w =~= readings.skip(n));
        assert forall|i: int| n <= i < readings.len() implies counts(#[trigger] readings[i]) by {
            if i < earlier.len() {
                assert(readings[i] == earlier[i]);
            }
        }
        if w.len() > 0 && k > 0 {
            assert(readings[k - 1] == earlier[k - 1]);
        }
    }
}

/// There is a draw exactly if the last five readings all count, and it is
/// their mean: with fewer, or with a bad one among them, there is none.
pub proof fn lemma_draw_is_the_mean_of_five(readings: Seq<Num>)
    ensures
        mean_draw(draws_of(readings)) == if enough(readings) {
            Some(mean(readings.skip(readings.len() - DRAW_MEAN_N)))
        } else {
            None
        },
{
    reveal(mean_draw);
    lemma_draws_are_the_newest(readings);
    let w = draws_of(readings);
    let n = readings.len() - w.len();
    if enough(readings) && w.len() < DRAW_MEAN_N {
        assert(counts(readings[n - 1]));
    }
}

/// A session's draws are those read since it entered: each sample adds its
/// own, and what the CPU's lane sees is their mean or nothing.
pub proof fn lemma_session_draws(
    a: AutoView,
    past: Seq<Num>,
    s: Sample,
    reply: SourceReply,
    c: Config,
    f: DriveFacts,
)
    requires
        a.cpu_draw == draws_of(past),
    ensures
        a.driven(s, reply, c, f).cpu_draw == draws_of(past.push(s.cpu_pkg_w)),
        a.cpu_sees(s, reply, c, f).draw == a.cpu_draw_with(s),
        ({
            let now = past.push(s.cpu_pkg_w);
            a.cpu_draw_with(s) == if enough(now) {
                Some(mean(now.skip(now.len() - DRAW_MEAN_N)))
            } else {
                None
            }
        }),
{
    reveal(AutoView::driven);
    reveal(cpu_input);
    let now = past.push(s.cpu_pkg_w);
    assert(now.drop_last() =~= past);
    lemma_draw_is_the_mean_of_five(now);
}

/// A regulating sample without enough readings is decided without a draw, and
/// shown so; with enough of them it is not.
pub proof fn lemma_too_few_draws_are_shown(
    a: AutoView,
    past: Seq<Num>,
    s: Sample,
    reply: SourceReply,
    c: Config,
    f: DriveFacts,
)
    requires
        a.wf(),
        a.cpu_draw == draws_of(past),
        f.cpu_group_c is Some,
        reply.thermal_mode == ThermalMode::Regulate,
        ({
            let l = a.cpu_under_ceiling(s, c);
            let i = a.cpu_sees(s, reply, c, f);
            !latched_after(l.prepared(i).state, l.loop_input(i))
        }),
    ensures
        a.decisions(s, reply, c, f).cpu.hold == Hold::DrawUnavailable <==> !enough(
            past.push(s.cpu_pkg_w),
        ),
{
    let l = a.cpu_under_ceiling(s, c);
    let i = a.cpu_sees(s, reply, c, f);
    lemma_session_draws(a, past, s, reply, c, f);
    assert(l.state.wf()) by {
        reveal(crate::controller::lane::LaneView::ceiled);
    }
    lemma_prepared_wf(l, i);
    reveal(AutoView::decisions);
    reveal(crate::controller::lane::LaneView::decision);
    reveal(cpu_input);
    let ready = l.prepared(i);
    lemma_missing_draw_is_shown(ready.state, W::plant(), ready.recent, l.loop_input(i));
}

} // verus!
