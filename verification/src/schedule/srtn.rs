//! Shortest remaining time next.

use vstd::prelude::*;
use crate::schedule::scheduler::{
    Process, ProcessView, Timestamp, TimestampView, ScheduleError, views, trace_view, all_valid,
    valid_process, with_burst, event,
};
use crate::schedule::totals::{total_burst, latest_arrival, idle_gap, arrived, lemma_total_valid, lemma_latest_bounds};
use crate::schedule::order::{by_arrival, sort_by_arrival, lemma_by_arrival_keeps};
use crate::schedule::intake::{
    screen, take_arrivals, joined, waiting, refusal, all_arrived, lemma_moved, lemma_removed,
    lemma_updated, lemma_arrived_later,
};
use crate::schedule::roster::{
    roster, ended, identity, lemma_roster_remove, lemma_roster_update, lemma_roster_moved,
    lemma_roster_by_arrival, lemma_ended_push,
};
use crate::schedule::ledger::{
    conserved, accounted, lemma_accounted_start, lemma_accounted_moved, lemma_accounted_step,
    lemma_accounted_end, lemma_within, lemma_demand_update,
};
use crate::schedule::trace::{causal, chronological, not_after, completions, lemma_trace_push, lemma_not_after_later};

verus! {

/// The place, among the first `n` of `ready`, of the process that needs the
/// least burst time; of several such, the first.
pub open spec fn shortest(ready: Seq<ProcessView>, n: int) -> int
    decreases n,
{
    if n <= 1 {
        0
    } else {
        let best = shortest(ready, n - 1);
        if ready[n - 1].burst_time < ready[best].burst_time {
            n - 1
        } else {
            best
        }
    }
}

/// The process chosen needs no more than any other, and less than each
/// process ahead of it.
pub proof fn lemma_shortest(ready: Seq<ProcessView>, n: int)
    requires
        0 < n <= ready.len(),
    ensures
        0 <= shortest(ready, n) < n,
        forall|j: int| 0 <= j < n ==> ready[shortest(ready, n)].burst_time <= (#[trigger] ready[j]).burst_time,
        forall|j: int| 0 <= j < shortest(ready, n) ==> ready[shortest(ready, n)].burst_time < (#[trigger] ready[j]).burst_time,
    decreases n,
{
    if n > 1 {
        lemma_shortest(ready, n - 1);
    }
}

/// The queue once the process at `i` has run for one tick: it leaves where
/// it needs no more, and else stays in its place with what it still needs.
pub open spec fn after_tick(queue: Seq<ProcessView>, i: int) -> Seq<ProcessView> {
    if queue[i].burst_time - 1 <= 0 {
        queue.remove(i)
    } else {
        queue.update(i, with_burst(queue[i], queue[i].burst_time - 1))
    }
}

/// The events of shortest remaining time next from the moment `time` on,
/// with `backlog` still to arrive and `ready` eligible: one event for each
/// tick in which a process runs.
pub open spec fn srtn_run(backlog: Seq<ProcessView>, ready: Seq<ProcessView>, time: int) -> Seq<TimestampView>
    decreases total_burst(backlog) + total_burst(ready), idle_gap(backlog, time),
    when all_valid(backlog) && all_valid(ready)
    via srtn_run_decreases
{
    if backlog.len() == 0 && ready.len() == 0 {
        Seq::empty()
    } else if ready.len() == 0 && backlog[0].arrival_time > time {
        srtn_run(backlog, ready, time + 1)
    } else {
        let queue = joined(backlog, ready, time);
        let i = shortest(queue, queue.len() as int);
        let cut = with_burst(queue[i], queue[i].burst_time - 1);
        seq![event(time + 1, cut)] + srtn_run(waiting(backlog, time), after_tick(queue, i), time + 1)
    }
}

#[via_fn]
proof fn srtn_run_decreases(backlog: Seq<ProcessView>, ready: Seq<ProcessView>, time: int) {
    if backlog.len() == 0 && ready.len() == 0 {
    } else if ready.len() == 0 && backlog[0].arrival_time > time {
    } else {
        lemma_srtn_step(backlog, ready, time);
    }
}

/// What one tick of shortest remaining time next does to the work that is left.
pub proof fn lemma_srtn_step(backlog: Seq<ProcessView>, ready: Seq<ProcessView>, time: int)
    requires
        all_valid(backlog),
        all_valid(ready),
        ready.len() > 0 || (backlog.len() > 0 && backlog[0].arrival_time <= time),
    ensures
        ({
            let queue = joined(backlog, ready, time);
            let rest = waiting(backlog, time);
            let i = shortest(queue, queue.len() as int);
            &&& queue.len() > 0
            &&& 0 <= i < queue.len()
            &&& valid_process(queue[i])
            &&& all_valid(rest)
            &&& all_valid(after_tick(queue, i))
            &&& total_burst(rest) + total_burst(after_tick(queue, i)) == total_burst(backlog) + total_burst(
                ready,
            ) - 1
            &&& 0 <= total_burst(rest) + total_burst(after_tick(queue, i))
        }),
{
    let queue = joined(backlog, ready, time);
    let rest = waiting(backlog, time);
    lemma_moved(backlog, ready, time, 0);
    if ready.len() == 0 {
        assert(arrived(backlog, time) > 0);
    }
    let i = shortest(queue, queue.len() as int);
    lemma_shortest(queue, queue.len() as int);
    assert(valid_process(queue[i]));
    lemma_removed(queue, i, time);
    lemma_updated(queue, i, with_burst(queue[i], queue[i].burst_time - 1), time);
    lemma_total_valid(rest);
    lemma_total_valid(after_tick(queue, i));
}

/// The trace of shortest remaining time next over `s`.
pub open spec fn srtn_trace(s: Seq<ProcessView>) -> Seq<TimestampView> {
    srtn_run(by_arrival(s), Seq::empty(), 0)
}

impl Timestamp {
    /// Shortest remaining time next, tick by tick: the trace of `processes`.
    ///
    /// Refused where a process is not valid, and where the clock cannot hold
    /// the end of the simulation. The trace of every other input has each
    /// event no earlier than the arrival of its process, times that never go
    /// back, and for each process one event, and no more, at which it has no
    /// burst time left; and what it records as run by a process is the burst
    /// time that the process had.
    pub fn shortest_remaining_time_next(processes: &Vec<Process>) -> (r: Result<Vec<Timestamp>, ScheduleError>)
        ensures
            match r {
                Ok(trace) => {
                    &&& refusal(views(processes@), 0, true) is None
                    &&& trace_view(trace@) == srtn_trace(views(processes@))
                    &&& causal(trace_view(trace@))
                    &&& chronological(trace_view(trace@))
                    &&& completions(trace_view(trace@)) == processes.len()
                    &&& ended(trace_view(trace@)) == roster(views(processes@))
                    &&& conserved(views(processes@), trace_view(trace@))
                },
                Err(e) => refusal(views(processes@), 0, true) == Some(e),
            },
    {
        match screen(processes, 0) {
            Err(e) => {
                return Err(e);
            },
            Ok(_) => {},
        }
        let ghost input = views(processes@);
        let ghost latest = latest_arrival(input);
        let ghost work = total_burst(input);
        let mut backlog = sort_by_arrival(processes);
        let mut queue: Vec<Process> = Vec::new();
        let mut trace: Vec<Timestamp> = Vec::new();
        let mut time: i64 = 0;
        proof {
            lemma_by_arrival_keeps(input);
            let sorted = views(backlog@);
            assert forall|i: int| 0 <= i < sorted.len() implies (#[trigger] sorted[i]).arrival_time <= latest by {
                lemma_latest_bounds(sorted, i);
            }
            if input.len() > 0 {
                lemma_latest_bounds(input, 0);
            }
            assert(views(queue@) =~= Seq::<ProcessView>::empty());
            assert(trace_view(trace@) =~= Seq::<TimestampView>::empty());
            assert(trace_view(trace@) + srtn_trace(input) =~= srtn_trace(input));
            lemma_roster_by_arrival(input);
            lemma_accounted_start(input);
            assert(ended(trace_view(trace@)).add(roster(views(backlog@)).add(roster(views(queue@)))) =~= roster(
                input,
            ));
        }
        while backlog.len() > 0 || queue.len() > 0
            invariant
                all_valid(views(backlog@)),
                all_valid(views(queue@)),
                trace_view(trace@) + srtn_run(views(backlog@), views(queue@), time as int) == srtn_trace(input),
                0 <= time,
                0 <= latest,
                time + total_burst(views(backlog@)) + total_burst(views(queue@)) <= latest + work,
                total_burst(views(backlog@)) + total_burst(views(queue@)) <= work,
                latest + work <= i64::MAX,
                all_arrived(views(backlog@), latest),
                all_arrived(views(queue@), time as int),
                causal(trace_view(trace@)),
                chronological(trace_view(trace@)),
                not_after(trace_view(trace@), time as int),
                completions(trace_view(trace@)) + backlog.len() + queue.len() == processes.len(),
                ended(trace_view(trace@)).add(roster(views(backlog@)).add(roster(views(queue@)))) == roster(input),
                accounted(input, trace_view(trace@), views(backlog@), views(queue@)),
            decreases
                total_burst(views(backlog@)) + total_burst(views(queue@)),
                idle_gap(views(backlog@), time as int),
        {
            let ghost b = views(backlog@);
            let ghost r = views(queue@);
            let ghost t0 = time as int;
            let ghost tv = trace_view(trace@);
            proof {
                lemma_moved(b, r, t0, latest);
                lemma_total_valid(b);
                lemma_total_valid(r);
                assert(backlog@.len() > 0 ==> b[0] == backlog@[0]@);
            }
            take_arrivals(&mut backlog, &mut queue, time);
            if queue.len() > 0 {
                let ghost qv = views(queue@);
                let ghost rest = views(backlog@);
                proof {
                    lemma_srtn_step(b, r, t0);
                    lemma_roster_moved(b, r, t0);
                    lemma_accounted_moved(input, tv, b, r, t0);
                    lemma_within(input, tv, rest, qv);
                }
                let mut best: usize = 0;
                let mut i: usize = 1;
                while i < queue.len()
                    invariant
                        1 <= i <= queue.len(),
                        qv == views(queue@),
                        best == shortest(qv, i as int),
                        best < i,
                    decreases queue.len() - i,
                {
                    proof {
                        assert(qv[i as int] == queue@[i as int]@);
                        assert(qv[best as int] == queue@[best as int]@);
                    }
                    if queue[i].burst_time < queue[best].burst_time {
                        best = i;
                    }
                    i += 1;
                }
                proof {
                    lemma_removed(qv, best as int, t0);
                }
                let mut process = queue.remove(best);
                proof {
                    assert(views(queue@) =~= qv.remove(best as int));
                    assert(process@ == qv[best as int]);
                }
                process.burst_time = process.burst_time - 1;
                time = time + 1;
                let ghost cut = process@;
                let snap = process.snapshot();
                trace.push(Timestamp { time, process: snap });
                proof {
                    assert(cut == with_burst(qv[best as int], qv[best as int].burst_time - 1));
                    assert(trace_view(trace@) =~= tv.push(event(time as int, cut)));
                    lemma_trace_push(tv, event(time as int, cut), t0);
                    lemma_updated(qv, best as int, cut, t0);
                    lemma_ended_push(tv, event(time as int, cut));
                    lemma_roster_remove(qv, best as int);
                    lemma_roster_update(qv, best as int, cut);
                    if cut.burst_time == 0 {
                        assert(ended(tv).insert(identity(cut)).add(
                            roster(rest).add(roster(qv.remove(best as int))),
                        ) =~= ended(tv).add(roster(rest).add(roster(qv))));
                    }
                }
                if process.burst_time > 0 {
                    let ghost gap = views(queue@);
                    queue.insert(best, process);
                    proof {
                        assert(views(queue@) =~= gap.insert(best as int, cut));
                        assert(gap.insert(best as int, cut) =~= qv.update(best as int, cut));
                    }
                }
                proof {
                    assert(views(queue@) == after_tick(qv, best as int));
                    lemma_demand_update(qv, best as int, cut);
                    lemma_accounted_step(
                        input,
                        tv,
                        rest,
                        qv,
                        best as int,
                        event(time as int, cut),
                        rest,
                        after_tick(qv, best as int),
                    );
                    lemma_arrived_later(views(queue@), t0, time as int);
                    assert(tv.push(event(time as int, cut)) =~= tv + seq![event(time as int, cut)]);
                    assert(srtn_run(b, r, t0) == seq![event(time as int, cut)] + srtn_run(
                        views(backlog@),
                        views(queue@),
                        time as int,
                    ));
                    assert(trace_view(trace@) + srtn_run(views(backlog@), views(queue@), time as int) =~= tv
                        + srtn_run(b, r, t0));
                }
            } else {
                proof {
                    assert(r.len() == 0);
                    assert(arrived(b, t0) == 0);
                    assert(b[0].arrival_time > t0);
                    assert(views(backlog@) =~= b);
                    assert(views(queue@) =~= r);
                    lemma_not_after_later(tv, t0, t0 + 1);
                }
                time = time + 1;
            }
        }
        proof {
            assert(srtn_run(views(backlog@), views(queue@), time as int) =~= Seq::<TimestampView>::empty());
            assert(trace_view(trace@) + Seq::<TimestampView>::empty() =~= trace_view(trace@));
            assert(ended(trace_view(trace@)).add(roster(views(backlog@)).add(roster(views(queue@)))) =~= ended(
                trace_view(trace@),
            ));
            assert(views(backlog@) =~= Seq::<ProcessView>::empty());
            assert(views(queue@) =~= Seq::<ProcessView>::empty());
            lemma_accounted_end(input, trace_view(trace@));
        }
        Ok(trace)
    }
}

} // verus!
