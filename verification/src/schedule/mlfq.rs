//! The feedback queue of three tiers: two that give each process one slice,
//! and one that runs what is left first come, first served.

use vstd::prelude::*;
use vstd::multiset::Multiset;
use crate::schedule::scheduler::{
    Process, ProcessView, Scheduler, Timestamp, TimestampView, ScheduleError, views, trace_view,
    all_valid, valid_process, with_burst, event,
};
use crate::schedule::totals::{
    total_burst, latest_arrival, idle_gap, arrived, lemma_total_valid, lemma_latest_bounds,
    lemma_total_concat, lemma_total_one,
};
use crate::schedule::order::{by_arrival, sort_by_arrival, lemma_by_arrival_keeps};
use crate::schedule::intake::{
    screen, take_arrivals, joined, waiting, refusal, all_arrived, lemma_moved, lemma_removed,
    lemma_arrived_later,
};
use crate::schedule::roster::{
    Identity, identity, roster, ended, lemma_roster_push, lemma_roster_one, lemma_roster_concat, lemma_roster_remove, lemma_roster_moved,
    lemma_roster_by_arrival, lemma_ended_one, lemma_ended_concat,
};
use crate::schedule::ledger::{
    conserved, accounted, within, demand, left, lemma_accounted_start, lemma_accounted_moved, lemma_accounted_step,
    lemma_accounted_end, lemma_demand_concat, lemma_demand_one, lemma_demand_push,
};
use crate::schedule::trace::{
    causal, chronological, not_after, not_before, completions, lemma_trace_concat, lemma_trace_one,
    lemma_not_after_later,
};

verus! {

/// The time for which `p` runs when it is given the quantum `quantum`.
pub open spec fn slice(p: ProcessView, quantum: int) -> int {
    if p.burst_time > quantum {
        quantum
    } else {
        p.burst_time
    }
}

/// The events of one tier that is drained under `quantum` from `time` on:
/// each process of `queue` runs once, for its slice.
pub open spec fn stage_events(queue: Seq<ProcessView>, time: int, quantum: int) -> Seq<TimestampView>
    decreases queue.len(),
{
    if queue.len() == 0 {
        Seq::empty()
    } else {
        let p = queue[0];
        let now = time + slice(p, quantum);
        seq![event(now, with_burst(p, p.burst_time - slice(p, quantum)))] + stage_events(
            queue.drop_first(),
            now,
            quantum,
        )
    }
}

/// The processes of `queue` that a tier under `quantum` hands down, in their
/// order, each with what it still needs.
pub open spec fn stage_demoted(queue: Seq<ProcessView>, quantum: int) -> Seq<ProcessView>
    decreases queue.len(),
{
    if queue.len() == 0 {
        Seq::empty()
    } else {
        let p = queue[0];
        let rest = stage_demoted(queue.drop_first(), quantum);
        if p.burst_time > quantum {
            seq![with_burst(p, p.burst_time - quantum)] + rest
        } else {
            rest
        }
    }
}

/// The time that a tier under `quantum` takes to drain `queue`.
pub open spec fn stage_span(queue: Seq<ProcessView>, quantum: int) -> int
    decreases queue.len(),
{
    if queue.len() == 0 {
        0
    } else {
        slice(queue[0], quantum) + stage_span(queue.drop_first(), quantum)
    }
}

/// The events of first come, first served from `time` on: each process of
/// `queue` runs to its end.
pub open spec fn fcfs_events(queue: Seq<ProcessView>, time: int) -> Seq<TimestampView>
    decreases queue.len(),
{
    if queue.len() == 0 {
        Seq::empty()
    } else {
        let now = time + queue[0].burst_time;
        seq![event(now, with_burst(queue[0], 0))] + fcfs_events(queue.drop_first(), now)
    }
}

/// The events of one pass over the three tiers, with `tier1` in the first.
pub open spec fn pass_events(tier1: Seq<ProcessView>, time: int, quantum1: int, quantum2: int) -> Seq<TimestampView> {
    let tier2 = stage_demoted(tier1, quantum1);
    let time1 = time + stage_span(tier1, quantum1);
    let tier3 = stage_demoted(tier2, quantum2);
    let time2 = time1 + stage_span(tier2, quantum2);
    stage_events(tier1, time, quantum1) + stage_events(tier2, time1, quantum2) + fcfs_events(tier3, time2)
}

/// The events of the feedback queue from the moment `time` on, with
/// `backlog` still to arrive and the three tiers empty. The processes that
/// have arrived enter the first tier, and the tiers are drained in turn
/// before anything else is let in.
pub open spec fn mlfq_run(backlog: Seq<ProcessView>, time: int, quantum1: int, quantum2: int) -> Seq<TimestampView>
    decreases total_burst(backlog), idle_gap(backlog, time),
    when quantum1 > 0 && quantum2 > 0 && all_valid(backlog)
    via mlfq_run_decreases
{
    if backlog.len() == 0 {
        Seq::empty()
    } else if backlog[0].arrival_time > time {
        mlfq_run(backlog, time + 1, quantum1, quantum2)
    } else {
        let tier1 = joined(backlog, Seq::empty(), time);
        pass_events(tier1, time, quantum1, quantum2) + mlfq_run(
            waiting(backlog, time),
            time + total_burst(tier1),
            quantum1,
            quantum2,
        )
    }
}

/// The time at which the feedback queue ends when it stands at `time` with
/// `backlog` still to arrive.
pub open spec fn mlfq_end(backlog: Seq<ProcessView>, time: int) -> int
    decreases total_burst(backlog), idle_gap(backlog, time),
    when all_valid(backlog)
    via mlfq_end_decreases
{
    if backlog.len() == 0 {
        time
    } else if backlog[0].arrival_time > time {
        mlfq_end(backlog, time + 1)
    } else {
        mlfq_end(waiting(backlog, time), time + total_burst(joined(backlog, Seq::empty(), time)))
    }
}

#[via_fn]
proof fn mlfq_run_decreases(backlog: Seq<ProcessView>, time: int, quantum1: int, quantum2: int) {
    if backlog.len() > 0 && backlog[0].arrival_time <= time {
        lemma_mlfq_step(backlog, time);
    }
}

#[via_fn]
proof fn mlfq_end_decreases(backlog: Seq<ProcessView>, time: int) {
    if backlog.len() > 0 && backlog[0].arrival_time <= time {
        lemma_mlfq_step(backlog, time);
    }
}

/// What one pass of the feedback queue takes from the backlog.
pub proof fn lemma_mlfq_step(backlog: Seq<ProcessView>, time: int)
    requires
        all_valid(backlog),
        backlog.len() > 0,
        backlog[0].arrival_time <= time,
    ensures
        ({
            let tier1 = joined(backlog, Seq::empty(), time);
            let rest = waiting(backlog, time);
            &&& tier1.len() > 0
            &&& tier1.len() + rest.len() == backlog.len()
            &&& all_valid(tier1)
            &&& all_valid(rest)
            &&& all_arrived(tier1, time)
            &&& total_burst(tier1) > 0
            &&& total_burst(rest) == total_burst(backlog) - total_burst(tier1)
            &&& total_burst(rest) >= 0
        }),
{
    let none = Seq::<ProcessView>::empty();
    lemma_moved(backlog, none, time, 0);
    assert(arrived(backlog, time) > 0);
    assert(total_burst(none) == 0);
    lemma_total_valid(joined(backlog, none, time));
    lemma_total_valid(waiting(backlog, time));
}

/// What a tier does with a queue of valid processes that have arrived: its
/// events are in order between its start and its end, none is earlier than
/// the arrival of its process, and each process either ends or is handed
/// down with the rest of what it needs.
pub proof fn lemma_stage(queue: Seq<ProcessView>, time: int, quantum: int, since: int)
    requires
        quantum > 0,
        all_valid(queue),
        all_arrived(queue, since),
        since <= time,
    ensures
        causal(stage_events(queue, time, quantum)),
        chronological(stage_events(queue, time, quantum)),
        not_before(stage_events(queue, time, quantum), time),
        not_after(stage_events(queue, time, quantum), time + stage_span(queue, quantum)),
        completions(stage_events(queue, time, quantum)) + stage_demoted(queue, quantum).len() == queue.len(),
        all_valid(stage_demoted(queue, quantum)),
        all_arrived(stage_demoted(queue, quantum), since),
        total_burst(stage_demoted(queue, quantum)) + stage_span(queue, quantum) == total_burst(queue),
        stage_span(queue, quantum) >= 0,
    decreases queue.len(),
{
    if queue.len() > 0 {
        let p = queue[0];
        let rest = queue.drop_first();
        let now = time + slice(p, quantum);
        let e = event(now, with_burst(p, p.burst_time - slice(p, quantum)));
        assert(rest =~= queue.remove(0));
        lemma_removed(queue, 0, since);
        lemma_stage(rest, now, quantum, since);
        lemma_trace_one(e);
        lemma_trace_concat(seq![e], stage_events(rest, now, quantum), now);
        let down = stage_demoted(rest, quantum);
        if p.burst_time > quantum {
            let cut = with_burst(p, p.burst_time - quantum);
            let out = seq![cut] + down;
            assert forall|i: int| 0 <= i < out.len() implies valid_process(#[trigger] out[i]) && out[i].arrival_time <= since by {
                if i > 0 {
                    assert(out[i] == down[i - 1]);
                    assert(valid_process(down[i - 1]));
                }
            }
            lemma_total_concat(seq![cut], down);
            lemma_total_one(cut);
        }
    } else {
        assert(total_burst(queue) == 0);
    }
}

/// What first come, first served does with a queue of valid processes that
/// have arrived: one event for each, at which it has ended.
pub proof fn lemma_fcfs(queue: Seq<ProcessView>, time: int)
    requires
        all_valid(queue),
        all_arrived(queue, time),
    ensures
        causal(fcfs_events(queue, time)),
        chronological(fcfs_events(queue, time)),
        not_before(fcfs_events(queue, time), time),
        not_after(fcfs_events(queue, time), time + total_burst(queue)),
        completions(fcfs_events(queue, time)) == queue.len(),
    decreases queue.len(),
{
    if queue.len() > 0 {
        let p = queue[0];
        let rest = queue.drop_first();
        let now = time + p.burst_time;
        let e = event(now, with_burst(p, 0));
        assert(rest =~= queue.remove(0));
        lemma_removed(queue, 0, time);
        lemma_arrived_later(rest, time, now);
        lemma_fcfs(rest, now);
        lemma_total_valid(rest);
        lemma_trace_one(e);
        lemma_trace_concat(seq![e], fcfs_events(rest, now), now);
    } else {
        assert(total_burst(queue) == 0);
    }
}

/// What one pass over the three tiers does with the valid processes, all
/// arrived, of the first: it takes as long as all of them need together,
/// and each of them ends in it.
pub proof fn lemma_pass(tier1: Seq<ProcessView>, time: int, quantum1: int, quantum2: int)
    requires
        quantum1 > 0,
        quantum2 > 0,
        all_valid(tier1),
        all_arrived(tier1, time),
    ensures
        causal(pass_events(tier1, time, quantum1, quantum2)),
        chronological(pass_events(tier1, time, quantum1, quantum2)),
        not_before(pass_events(tier1, time, quantum1, quantum2), time),
        not_after(pass_events(tier1, time, quantum1, quantum2), time + total_burst(tier1)),
        completions(pass_events(tier1, time, quantum1, quantum2)) == tier1.len(),
        ({
            let tier2 = stage_demoted(tier1, quantum1);
            let tier3 = stage_demoted(tier2, quantum2);
            &&& all_valid(tier2)
            &&& all_valid(tier3)
            &&& stage_span(tier1, quantum1) >= 0
            &&& stage_span(tier2, quantum2) >= 0
            &&& total_burst(tier3) >= 0
            &&& total_burst(tier2) + stage_span(tier1, quantum1) == total_burst(tier1)
            &&& total_burst(tier3) + stage_span(tier2, quantum2) == total_burst(tier2)
        }),
{
    let tier2 = stage_demoted(tier1, quantum1);
    let time1 = time + stage_span(tier1, quantum1);
    let tier3 = stage_demoted(tier2, quantum2);
    let time2 = time1 + stage_span(tier2, quantum2);
    lemma_stage(tier1, time, quantum1, time);
    lemma_stage(tier2, time1, quantum2, time);
    lemma_arrived_later(tier3, time, time2);
    lemma_fcfs(tier3, time2);
    lemma_total_valid(tier3);
    let first = stage_events(tier1, time, quantum1);
    let second = stage_events(tier2, time1, quantum2);
    let third = fcfs_events(tier3, time2);
    lemma_trace_concat(first, second, time1);
    lemma_trace_concat(first + second, third, time2);
}

/// Each process of a tier's queue ends in the tier or is handed down.
pub proof fn lemma_stage_roster(queue: Seq<ProcessView>, time: int, quantum: int)
    ensures
        ended(stage_events(queue, time, quantum)).add(roster(stage_demoted(queue, quantum))) == roster(queue),
    decreases queue.len(),
{
    if queue.len() > 0 {
        let p = queue[0];
        let rest = queue.drop_first();
        let now = time + slice(p, quantum);
        let e = event(now, with_burst(p, p.burst_time - slice(p, quantum)));
        let later = stage_events(rest, now, quantum);
        let down = stage_demoted(rest, quantum);
        assert(rest =~= queue.remove(0));
        lemma_stage_roster(rest, now, quantum);
        lemma_ended_one(e);
        lemma_ended_concat(seq![e], later);
        lemma_roster_remove(queue, 0);
        if p.burst_time > quantum {
            let cut = with_burst(p, p.burst_time - quantum);
            lemma_roster_one(cut);
            lemma_roster_concat(seq![cut], down);
        }
        assert(ended(stage_events(queue, time, quantum)).add(roster(stage_demoted(queue, quantum))) =~= ended(
            later,
        ).add(roster(down)).insert(identity(p)));
    } else {
        assert(ended(stage_events(queue, time, quantum)).add(roster(stage_demoted(queue, quantum))) =~= roster(
            queue,
        ));
    }
}

/// Each process of the last tier's queue ends in it.
pub proof fn lemma_fcfs_roster(queue: Seq<ProcessView>, time: int)
    ensures
        ended(fcfs_events(queue, time)) == roster(queue),
    decreases queue.len(),
{
    if queue.len() > 0 {
        let p = queue[0];
        let rest = queue.drop_first();
        let now = time + p.burst_time;
        let e = event(now, with_burst(p, 0));
        assert(rest =~= queue.remove(0));
        lemma_fcfs_roster(rest, now);
        lemma_ended_one(e);
        lemma_ended_concat(seq![e], fcfs_events(rest, now));
        lemma_roster_remove(queue, 0);
        assert(ended(fcfs_events(queue, time)) =~= roster(rest).insert(identity(p)));
    }
}

/// Each process that enters a pass ends in it, and the others stay in the
/// backlog.
pub proof fn lemma_pass_roster(
    backlog: Seq<ProcessView>,
    time: int,
    quantum1: int,
    quantum2: int,
    added: Seq<TimestampView>,
)
    ensures
        ended(added + pass_events(joined(backlog, Seq::empty(), time), time, quantum1, quantum2)).add(
            roster(waiting(backlog, time)),
        ) == ended(added).add(roster(backlog)),
{
    let none = Seq::<ProcessView>::empty();
    let tier1 = joined(backlog, none, time);
    let rest = waiting(backlog, time);
    let tier2 = stage_demoted(tier1, quantum1);
    let time1 = time + stage_span(tier1, quantum1);
    let tier3 = stage_demoted(tier2, quantum2);
    let time2 = time1 + stage_span(tier2, quantum2);
    let first = stage_events(tier1, time, quantum1);
    let second = stage_events(tier2, time1, quantum2);
    let third = fcfs_events(tier3, time2);
    let pass = pass_events(tier1, time, quantum1, quantum2);
    lemma_stage_roster(tier1, time, quantum1);
    lemma_stage_roster(tier2, time1, quantum2);
    lemma_fcfs_roster(tier3, time2);
    lemma_ended_concat(first, second);
    lemma_ended_concat(first + second, third);
    lemma_ended_concat(added, pass);
    lemma_roster_moved(backlog, none, time);
    assert(roster(none) =~= Multiset::<Identity>::empty());
    assert(ended(pass) =~= roster(tier1)) by {
        assert(ended(first).add(roster(tier2)) == roster(tier1));
        assert(ended(second).add(roster(tier3)) == roster(tier2));
        assert(ended(pass) =~= ended(first).add(ended(second).add(roster(tier3))));
    }
    assert(roster(rest).add(roster(tier1)) =~= roster(backlog));
    assert(ended(added + pass).add(roster(rest)) =~= ended(added).add(roster(rest).add(roster(tier1))));
}

/// A tier leaves each process with what its event shows: nothing, or what
/// it takes down with it.
pub proof fn lemma_stage_accounted(
    input: Seq<ProcessView>,
    before: Seq<TimestampView>,
    others: Seq<ProcessView>,
    queue: Seq<ProcessView>,
    time: int,
    quantum: int,
)
    requires
        accounted(input, before, others, queue),
        within(input, others, queue),
    ensures
        accounted(input, before + stage_events(queue, time, quantum), others, stage_demoted(queue, quantum)),
        within(input, others, stage_demoted(queue, quantum)),
    decreases queue.len(),
{
    if queue.len() == 0 {
        assert(before + stage_events(queue, time, quantum) =~= before);
        assert(stage_demoted(queue, quantum) =~= queue);
    } else {
        let p = queue[0];
        let rest = queue.drop_first();
        let now = time + slice(p, quantum);
        let shown = with_burst(p, p.burst_time - slice(p, quantum));
        let e = event(now, shown);
        let later = stage_events(rest, now, quantum);
        let down = stage_demoted(rest, quantum);
        let others2 = if p.burst_time > quantum {
            others.push(shown)
        } else {
            others
        };
        assert(rest =~= queue.remove(0));
        lemma_demand_push(others, shown);
        lemma_accounted_step(input, before, others, queue, 0, e, others2, rest);
        lemma_roster_push(others, shown);
        lemma_roster_remove(queue, 0);
        assert forall|id: Identity| #[trigger]
            roster(input).count(id) >= roster(others2).count(id) + roster(rest).count(id) by {
            assert(roster(input).count(id) >= roster(others).count(id) + roster(queue).count(id));
        }
        lemma_stage_accounted(input, before.push(e), others2, rest, now, quantum);
        assert(before.push(e) + later =~= before + (seq![e] + later));
        let out = stage_demoted(queue, quantum);
        lemma_roster_one(shown);
        lemma_roster_concat(seq![shown], down);
        assert forall|id: Identity| #[trigger]
            roster(input).count(id) == 1 implies left(
            before + stage_events(queue, time, quantum),
            id,
            demand(input, id),
        ) == demand(others, id) + demand(out, id) by {
            lemma_demand_concat(seq![shown], down, id);
            lemma_demand_one(shown, id);
            assert(demand(others2, id) == demand(others, id) + if p.burst_time > quantum && identity(shown) == id {
                shown.burst_time
            } else {
                0
            });
        }
        assert forall|id: Identity| #[trigger]
            roster(input).count(id) >= roster(others).count(id) + roster(out).count(id) by {
            assert(roster(input).count(id) >= roster(others2).count(id) + roster(down).count(id));
        }
    }
}

/// The last tier leaves each of its processes with nothing to run.
pub proof fn lemma_fcfs_accounted(
    input: Seq<ProcessView>,
    before: Seq<TimestampView>,
    others: Seq<ProcessView>,
    queue: Seq<ProcessView>,
    time: int,
)
    requires
        accounted(input, before, others, queue),
        within(input, others, queue),
    ensures
        accounted(input, before + fcfs_events(queue, time), others, Seq::empty()),
    decreases queue.len(),
{
    if queue.len() == 0 {
        assert(before + fcfs_events(queue, time) =~= before);
        assert(queue =~= Seq::<ProcessView>::empty());
    } else {
        let p = queue[0];
        let rest = queue.drop_first();
        let now = time + p.burst_time;
        let e = event(now, with_burst(p, 0));
        let later = fcfs_events(rest, now);
        assert(rest =~= queue.remove(0));
        lemma_accounted_step(input, before, others, queue, 0, e, others, rest);
        lemma_roster_remove(queue, 0);
        assert forall|id: Identity| #[trigger]
            roster(input).count(id) >= roster(others).count(id) + roster(rest).count(id) by {
            assert(roster(input).count(id) >= roster(others).count(id) + roster(queue).count(id));
        }
        lemma_fcfs_accounted(input, before.push(e), others, rest, now);
        assert(before.push(e) + later =~= before + (seq![e] + later));
    }
}

/// A pass leaves each process that entered it with nothing to run, and the
/// others as they were.
pub proof fn lemma_pass_accounted(
    input: Seq<ProcessView>,
    added: Seq<TimestampView>,
    backlog: Seq<ProcessView>,
    time: int,
    quantum1: int,
    quantum2: int,
)
    requires
        accounted(input, added, backlog, Seq::empty()),
        ended(added).add(roster(backlog)) == roster(input),
    ensures
        accounted(
            input,
            added + pass_events(joined(backlog, Seq::empty(), time), time, quantum1, quantum2),
            waiting(backlog, time),
            Seq::empty(),
        ),
{
    let none = Seq::<ProcessView>::empty();
    let tier1 = joined(backlog, none, time);
    let rest = waiting(backlog, time);
    let tier2 = stage_demoted(tier1, quantum1);
    let time1 = time + stage_span(tier1, quantum1);
    let tier3 = stage_demoted(tier2, quantum2);
    let time2 = time1 + stage_span(tier2, quantum2);
    let first = stage_events(tier1, time, quantum1);
    let second = stage_events(tier2, time1, quantum2);
    let third = fcfs_events(tier3, time2);
    lemma_accounted_moved(input, added, backlog, none, time);
    lemma_roster_moved(backlog, none, time);
    assert(roster(none) =~= Multiset::<Identity>::empty());
    assert(roster(rest).add(roster(tier1)) =~= roster(backlog));
    assert forall|id: Identity| #[trigger]
        roster(input).count(id) >= roster(rest).count(id) + roster(tier1).count(id) by {
        assert(roster(input).count(id) == ended(added).count(id) + roster(rest).add(roster(tier1)).count(id));
    }
    lemma_stage_accounted(input, added, rest, tier1, time, quantum1);
    lemma_stage_accounted(input, added + first, rest, tier2, time1, quantum2);
    lemma_fcfs_accounted(input, (added + first) + second, rest, tier3, time2);
    assert(((added + first) + second) + third =~= added + pass_events(tier1, time, quantum1, quantum2));
}

/// The trace of the feedback queue over `s` from `start` on.
pub open spec fn mlfq_trace(s: Seq<ProcessView>, start: int, quantum1: int, quantum2: int) -> Seq<TimestampView> {
    mlfq_run(by_arrival(s), start, quantum1, quantum2)
}

impl Scheduler {
    /// Drains `queue` as one tier under `quantum`: each process runs once,
    /// for the quantum or for what it still needs, and one that is cut short
    /// goes to the back of `next_queue`.
    fn mlfq_rr_processor(&mut self, queue: &mut Vec<Process>, next_queue: &mut Vec<Process>, quantum: i32)
        requires
            quantum > 0,
            all_valid(views(old(queue)@)),
            old(self).time + total_burst(views(old(queue)@)) <= i64::MAX,
        ensures
            final(queue)@.len() == 0,
            views(final(next_queue)@) == views(old(next_queue)@) + stage_demoted(
                views(old(queue)@),
                quantum as int,
            ),
            final(self).time == old(self).time + stage_span(views(old(queue)@), quantum as int),
            trace_view(final(self).timestamps@) == trace_view(old(self).timestamps@) + stage_events(
                views(old(queue)@),
                old(self).time as int,
                quantum as int,
            ),
    {
        let ghost q0 = views(queue@);
        let ghost n0 = views(next_queue@);
        let ghost t0 = self.time as int;
        let ghost tv0 = trace_view(self.timestamps@);
        while queue.len() > 0
            invariant
                quantum > 0,
                all_valid(views(queue@)),
                self.time + total_burst(views(queue@)) <= i64::MAX,
                views(next_queue@) + stage_demoted(views(queue@), quantum as int) == n0 + stage_demoted(
                    q0,
                    quantum as int,
                ),
                self.time + stage_span(views(queue@), quantum as int) == t0 + stage_span(q0, quantum as int),
                trace_view(self.timestamps@) + stage_events(views(queue@), self.time as int, quantum as int)
                    == tv0 + stage_events(q0, t0, quantum as int),
            decreases queue.len(),
        {
            let ghost qv = views(queue@);
            let ghost nv = views(next_queue@);
            let ghost tv = trace_view(self.timestamps@);
            let ghost before = self.time as int;
            proof {
                lemma_removed(qv, 0, 0);
                assert(qv.drop_first() =~= qv.remove(0));
                lemma_total_valid(qv.drop_first());
            }
            let mut process = queue.remove(0);
            proof {
                assert(views(queue@) =~= qv.drop_first());
                assert(process@ == qv[0]);
            }
            if process.burst_time > quantum {
                process.burst_time = process.burst_time - quantum;
                self.time = self.time + quantum as i64;
                let snap = process.snapshot();
                self.timestamps.push(Timestamp { time: self.time, process: snap });
                let ghost cut = process@;
                next_queue.push(process);
                proof {
                    let e = event(self.time as int, cut);
                    let later = stage_events(qv.drop_first(), self.time as int, quantum as int);
                    let down = stage_demoted(qv.drop_first(), quantum as int);
                    assert(trace_view(self.timestamps@) =~= tv.push(e));
                    assert(views(next_queue@) =~= nv.push(cut));
                    assert(tv.push(e) + later =~= tv + (seq![e] + later));
                    assert(nv.push(cut) + down =~= nv + (seq![cut] + down));
                }
            } else {
                self.time = self.time + process.burst_time as i64;
                process.burst_time = 0;
                let ghost gone = process@;
                self.timestamps.push(Timestamp { time: self.time, process });
                proof {
                    let e = event(self.time as int, gone);
                    let later = stage_events(qv.drop_first(), self.time as int, quantum as int);
                    assert(trace_view(self.timestamps@) =~= tv.push(e));
                    assert(tv.push(e) + later =~= tv + (seq![e] + later));
                }
            }
        }
        proof {
            assert(views(queue@) =~= Seq::<ProcessView>::empty());
            assert(views(next_queue@) + Seq::<ProcessView>::empty() =~= views(next_queue@));
            assert(trace_view(self.timestamps@) + Seq::<TimestampView>::empty() =~= trace_view(
                self.timestamps@,
            ));
        }
    }

    /// Drains `queue` first come, first served: each process runs to its end.
    fn fcfs(&mut self, queue: &mut Vec<Process>)
        requires
            all_valid(views(old(queue)@)),
            old(self).time + total_burst(views(old(queue)@)) <= i64::MAX,
        ensures
            final(queue)@.len() == 0,
            final(self).time == old(self).time + total_burst(views(old(queue)@)),
            trace_view(final(self).timestamps@) == trace_view(old(self).timestamps@) + fcfs_events(
                views(old(queue)@),
                old(self).time as int,
            ),
    {
        let ghost q0 = views(queue@);
        let ghost t0 = self.time as int;
        let ghost tv0 = trace_view(self.timestamps@);
        while queue.len() > 0
            invariant
                all_valid(views(queue@)),
                self.time + total_burst(views(queue@)) == t0 + total_burst(q0),
                t0 + total_burst(q0) <= i64::MAX,
                trace_view(self.timestamps@) + fcfs_events(views(queue@), self.time as int) == tv0
                    + fcfs_events(q0, t0),
            decreases queue.len(),
        {
            let ghost qv = views(queue@);
            let ghost tv = trace_view(self.timestamps@);
            proof {
                lemma_removed(qv, 0, 0);
                assert(qv.drop_first() =~= qv.remove(0));
                lemma_total_valid(qv.drop_first());
            }
            let mut process = queue.remove(0);
            proof {
                assert(views(queue@) =~= qv.drop_first());
                assert(process@ == qv[0]);
            }
            self.time = self.time + process.burst_time as i64;
            process.burst_time = 0;
            let ghost gone = process@;
            self.timestamps.push(Timestamp { time: self.time, process });
            proof {
                let e = event(self.time as int, gone);
                let later = fcfs_events(qv.drop_first(), self.time as int);
                assert(trace_view(self.timestamps@) =~= tv.push(e));
                assert(tv.push(e) + later =~= tv + (seq![e] + later));
            }
        }
        proof {
            assert(views(queue@) =~= Seq::<ProcessView>::empty());
            assert(total_burst(views(queue@)) == 0);
            assert(trace_view(self.timestamps@) + Seq::<TimestampView>::empty() =~= trace_view(
                self.timestamps@,
            ));
        }
    }

    /// The feedback queue: runs `processes` from the scheduler's time on and
    /// adds their events to its trace. The first two tiers give each process
    /// one slice, of `queue1_quantum` and of `queue2_quantum`; the third runs
    /// what is left to its end.
    ///
    /// Refused, with the scheduler as it was, where a quantum is not
    /// positive, where a process is not valid, and where the clock cannot
    /// hold the end of the simulation. The events added for every other input
    /// are each no earlier than the arrival of its process, their times never
    /// go back, and each process has one of them, and no more, at which it
    /// has no burst time left; and what they record as run by a process is
    /// the burst time that the process had.
    pub fn multi_level_feedback_queue(
        &mut self,
        processes: &Vec<Process>,
        queue1_quantum: i32,
        queue2_quantum: i32,
    ) -> (r: Result<(), ScheduleError>)
        ensures
            match r {
                Ok(_) => {
                    let added = mlfq_trace(
                        views(processes@),
                        old(self).time as int,
                        queue1_quantum as int,
                        queue2_quantum as int,
                    );
                    &&& refusal(
                        views(processes@),
                        old(self).time as int,
                        queue1_quantum > 0 && queue2_quantum > 0,
                    ) is None
                    &&& trace_view(final(self).timestamps@) == trace_view(old(self).timestamps@) + added
                    &&& final(self).time == mlfq_end(by_arrival(views(processes@)), old(self).time as int)
                    &&& causal(added)
                    &&& chronological(added)
                    &&& not_before(added, old(self).time as int)
                    &&& not_after(added, final(self).time as int)
                    &&& completions(added) == processes.len()
                    &&& ended(added) == roster(views(processes@))
                    &&& conserved(views(processes@), added)
                },
                Err(e) => {
                    &&& refusal(
                        views(processes@),
                        old(self).time as int,
                        queue1_quantum > 0 && queue2_quantum > 0,
                    ) == Some(e)
                    &&& final(self).time == old(self).time
                    &&& final(self).timestamps@ == old(self).timestamps@
                },
            },
    {
        if queue1_quantum <= 0 || queue2_quantum <= 0 {
            return Err(ScheduleError::InvalidParameter);
        }
        match screen(processes, self.time) {
            Err(e) => {
                return Err(e);
            },
            Ok(_) => {},
        }
        let ghost input = views(processes@);
        let ghost start = self.time as int;
        let ghost tv0 = trace_view(self.timestamps@);
        let ghost latest = latest_arrival(input);
        let ghost work = total_burst(input);
        let ghost q1 = queue1_quantum as int;
        let ghost q2 = queue2_quantum as int;
        let ghost mut added = Seq::<TimestampView>::empty();
        let mut backlog = sort_by_arrival(processes);
        let mut queue1: Vec<Process> = Vec::new();
        let mut queue2: Vec<Process> = Vec::new();
        let mut queue3: Vec<Process> = Vec::new();
        proof {
            lemma_by_arrival_keeps(input);
            let sorted = views(backlog@);
            assert forall|i: int| 0 <= i < sorted.len() implies (#[trigger] sorted[i]).arrival_time <= latest by {
                lemma_latest_bounds(sorted, i);
            }
            if input.len() > 0 {
                lemma_latest_bounds(input, 0);
            }
            assert(tv0 + added =~= tv0);
            assert(added + mlfq_trace(input, start, q1, q2) =~= mlfq_trace(input, start, q1, q2));
            lemma_roster_by_arrival(input);
            lemma_accounted_start(input);
            assert(ended(added).add(roster(views(backlog@))) =~= roster(input));
        }
        while backlog.len() > 0
            invariant
                q1 == queue1_quantum,
                q2 == queue2_quantum,
                q1 > 0,
                q2 > 0,
                queue1@.len() == 0,
                queue2@.len() == 0,
                queue3@.len() == 0,
                all_valid(views(backlog@)),
                trace_view(self.timestamps@) == tv0 + added,
                added + mlfq_run(views(backlog@), self.time as int, q1, q2) == mlfq_trace(input, start, q1, q2),
                mlfq_end(views(backlog@), self.time as int) == mlfq_end(by_arrival(input), start),
                start <= self.time,
                0 <= latest,
                self.time + total_burst(views(backlog@)) <= i64::MAX,
                latest + total_burst(views(backlog@)) <= i64::MAX,
                all_arrived(views(backlog@), latest),
                causal(added),
                chronological(added),
                not_before(added, start),
                not_after(added, self.time as int),
                completions(added) + backlog.len() == processes.len(),
                ended(added).add(roster(views(backlog@))) == roster(input),
                accounted(input, added, views(backlog@), Seq::empty()),
            decreases total_burst(views(backlog@)), idle_gap(views(backlog@), self.time as int),
        {
            let ghost b = views(backlog@);
            let ghost t0 = self.time as int;
            proof {
                lemma_total_valid(b);
                assert(b[0] == backlog@[0]@);
                assert(views(queue1@) =~= Seq::<ProcessView>::empty());
                assert(views(queue2@) =~= Seq::<ProcessView>::empty());
                assert(views(queue3@) =~= Seq::<ProcessView>::empty());
                lemma_moved(b, Seq::empty(), t0, latest);
            }
            take_arrivals(&mut backlog, &mut queue1, self.time);
            if queue1.len() == 0 {
                proof {
                    assert(arrived(b, t0) == 0);
                    assert(b[0].arrival_time > t0);
                    assert(views(backlog@) =~= b);
                    lemma_not_after_later(added, t0, t0 + 1);
                }
                self.time = self.time + 1;
            } else {
                let ghost tier1 = views(queue1@);
                let ghost tier2 = stage_demoted(tier1, q1);
                let ghost tier3 = stage_demoted(tier2, q2);
                proof {
                    assert(b[0].arrival_time <= t0);
                    lemma_mlfq_step(b, t0);
                    lemma_pass(tier1, t0, q1, q2);
                }
                self.mlfq_rr_processor(&mut queue1, &mut queue2, queue1_quantum);
                proof {
                    assert(views(queue2@) =~= tier2);
                }
                self.mlfq_rr_processor(&mut queue2, &mut queue3, queue2_quantum);
                proof {
                    assert(views(queue3@) =~= tier3);
                }
                self.fcfs(&mut queue3);
                proof {
                    let pass = pass_events(tier1, t0, q1, q2);
                    assert(trace_view(self.timestamps@) =~= tv0 + (added + pass));
                    lemma_trace_concat(added, pass, t0);
                    lemma_pass_roster(b, t0, q1, q2, added);
                    lemma_pass_accounted(input, added, b, t0, q1, q2);
                    assert((added + pass) + mlfq_run(views(backlog@), self.time as int, q1, q2) =~= added + (
                    pass + mlfq_run(views(backlog@), self.time as int, q1, q2)));
                    added = added + pass;
                }
            }
        }
        proof {
            assert(mlfq_run(views(backlog@), self.time as int, q1, q2) =~= Seq::<TimestampView>::empty());
            assert(added + Seq::<TimestampView>::empty() =~= added);
            assert(ended(added).add(roster(views(backlog@))) =~= ended(added));
            assert(views(backlog@) =~= Seq::<ProcessView>::empty());
            lemma_accounted_end(input, added);
        }
        Ok(())
    }
}

} // verus!
