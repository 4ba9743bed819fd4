//! Round robin.

use vstd::prelude::*;
use crate::schedule::scheduler::{
    Process, ProcessView, Timestamp, TimestampView, ScheduleError, views, trace_view, all_valid,
    valid_process, with_burst, event,
};
use crate::schedule::totals::{total_burst, latest_arrival, idle_gap, arrived, lemma_total_valid, lemma_latest_bounds};
use crate::schedule::order::{by_arrival, sort_by_arrival, lemma_by_arrival_keeps};
use crate::schedule::intake::{
    screen, take_arrivals, joined, waiting, refusal, all_arrived, lemma_moved, lemma_removed,
    lemma_pushed, lemma_arrived_later,
};
use crate::schedule::roster::{
    roster, ended, identity, lemma_roster_push, lemma_roster_remove, lemma_roster_moved, lemma_roster_by_arrival,
    lemma_ended_push,
};
use crate::schedule::mlfq::slice;
use crate::schedule::ledger::{
    conserved, accounted, lemma_accounted_start, lemma_accounted_moved, lemma_accounted_step,
    lemma_accounted_end, lemma_within, lemma_demand_moved, lemma_demand_push,
};
use crate::schedule::trace::{causal, chronological, not_after, completions, lemma_trace_push, lemma_not_after_later};

verus! {

/// The events of round robin from the moment `time` on, with `backlog` still
/// to arrive and `ready` queued. The head of the queue runs for a quantum, or
/// for what it still needs where that is no more; a process that was cut
/// short goes behind those that arrived while it ran.
pub open spec fn rr_run(
    backlog: Seq<ProcessView>,
    ready: Seq<ProcessView>,
    time: int,
    quantum: int,
) -> Seq<TimestampView>
    decreases total_burst(backlog) + total_burst(ready), idle_gap(backlog, time),
    when quantum > 0 && all_valid(backlog) && all_valid(ready)
    via rr_run_decreases
{
    if backlog.len() == 0 && ready.len() == 0 {
        Seq::empty()
    } else if ready.len() == 0 && backlog[0].arrival_time > time {
        rr_run(backlog, ready, time + 1, quantum)
    } else {
        let queue = joined(backlog, ready, time);
        let rest = waiting(backlog, time);
        let p = queue[0];
        if p.burst_time > quantum {
            let now = time + quantum;
            let cut = with_burst(p, p.burst_time - quantum);
            seq![event(now, cut)] + rr_run(
                waiting(rest, now),
                joined(rest, queue.drop_first(), now).push(cut),
                now,
                quantum,
            )
        } else {
            let now = time + p.burst_time;
            seq![event(now, with_burst(p, 0))] + rr_run(rest, queue.drop_first(), now, quantum)
        }
    }
}

#[via_fn]
proof fn rr_run_decreases(backlog: Seq<ProcessView>, ready: Seq<ProcessView>, time: int, quantum: int) {
    if backlog.len() == 0 && ready.len() == 0 {
    } else if ready.len() == 0 && backlog[0].arrival_time > time {
    } else {
        lemma_rr_step(backlog, ready, time, quantum);
    }
}

/// What one dispatch of round robin does to the work that is left.
pub proof fn lemma_rr_step(backlog: Seq<ProcessView>, ready: Seq<ProcessView>, time: int, quantum: int)
    requires
        quantum > 0,
        all_valid(backlog),
        all_valid(ready),
        ready.len() > 0 || (backlog.len() > 0 && backlog[0].arrival_time <= time),
    ensures
        ({
            let queue = joined(backlog, ready, time);
            let rest = waiting(backlog, time);
            let p = queue[0];
            let cut = with_burst(p, p.burst_time - quantum);
            let now = time + quantum;
            let next = joined(rest, queue.drop_first(), now).push(cut);
            &&& queue.len() > 0
            &&& valid_process(p)
            &&& all_valid(rest)
            &&& all_valid(queue.drop_first())
            &&& total_burst(rest) + total_burst(queue.drop_first()) == total_burst(backlog) + total_burst(
                ready,
            ) - p.burst_time
            &&& total_burst(backlog) + total_burst(ready) >= p.burst_time
            &&& p.burst_time > quantum ==> {
                &&& all_valid(waiting(rest, now))
                &&& all_valid(next)
                &&& total_burst(waiting(rest, now)) + total_burst(next) == total_burst(backlog)
                    + total_burst(ready) - quantum
            }
        }),
{
    let queue = joined(backlog, ready, time);
    let rest = waiting(backlog, time);
    lemma_moved(backlog, ready, time, 0);
    if ready.len() == 0 {
        assert(arrived(backlog, time) > 0);
    }
    let p = queue[0];
    assert(queue.drop_first() =~= queue.remove(0));
    lemma_removed(queue, 0, time);
    lemma_total_valid(rest);
    lemma_total_valid(queue.drop_first());
    if p.burst_time > quantum {
        let cut = with_burst(p, p.burst_time - quantum);
        let now = time + quantum;
        lemma_moved(rest, queue.drop_first(), now, 0);
        lemma_pushed(joined(rest, queue.drop_first(), now), cut, now);
    }
}

/// The wait of a queued process once nothing is left to arrive. The event
/// at place `k` of what follows is that of the process at place `k` of the
/// queue, after its slice; and that slice starts no more than `k` quanta
/// from now. So of `n` queued processes none waits longer than `n - 1`
/// quanta for its next slice.
pub proof fn lemma_rr_wait_bound(ready: Seq<ProcessView>, time: int, quantum: int, k: int)
    requires
        quantum > 0,
        all_valid(ready),
        0 <= k < ready.len(),
    ensures
        k < rr_run(Seq::empty(), ready, time, quantum).len(),
        rr_run(Seq::empty(), ready, time, quantum)[k].process == with_burst(
            ready[k],
            ready[k].burst_time - slice(ready[k], quantum),
        ),
        time <= rr_run(Seq::empty(), ready, time, quantum)[k].time - slice(ready[k], quantum) <= time + k
            * quantum,
        k * quantum <= (ready.len() - 1) * quantum,
    decreases k,
{
    assert(k * quantum <= (ready.len() - 1) * quantum) by (nonlinear_arith)
        requires
            0 <= k <= ready.len() - 1,
            quantum > 0,
    ;
    let none = Seq::<ProcessView>::empty();
    let p = ready[0];
    let rest = ready.drop_first();
    assert(valid_process(p));
    assert(joined(none, ready, time) =~= ready);
    assert(waiting(none, time) =~= none);
    lemma_rr_step(none, ready, time, quantum);
    let now = time + slice(p, quantum);
    let next = if p.burst_time > quantum {
        rest.push(with_burst(p, p.burst_time - quantum))
    } else {
        rest
    };
    let e = event(now, with_burst(p, p.burst_time - slice(p, quantum)));
    assert(waiting(none, now) =~= none);
    assert(joined(none, rest, now) =~= rest);
    let later = rr_run(none, next, now, quantum);
    assert(rr_run(none, ready, time, quantum) == seq![e] + later);
    if k > 0 {
        assert(next[k - 1] == ready[k]);
        lemma_rr_wait_bound(next, now, quantum, k - 1);
        assert((seq![e] + later)[k] == later[k - 1]);
        assert((k - 1) * quantum + quantum == k * quantum) by (nonlinear_arith);
    } else {
        assert((seq![e] + later)[0] == e);
    }
}

/// The trace of round robin over `s` with the quantum `quantum`.
pub open spec fn rr_trace(s: Seq<ProcessView>, quantum: int) -> Seq<TimestampView> {
    rr_run(by_arrival(s), Seq::empty(), 0, quantum)
}

impl Timestamp {
    /// Round robin: the trace of `processes` under the quantum `quantum`.
    ///
    /// Refused where the quantum is not positive, where a process is not
    /// valid, and where the clock cannot hold the end of the simulation. The
    /// trace of every other input has each event no earlier than the arrival
    /// of its process, times that never go back, and for each process one
    /// event, and no more, at which it has no burst time left; and what it
    /// records as run by a process is the burst time that the process had.
    pub fn rr(processes: &Vec<Process>, quantum: i32) -> (r: Result<Vec<Timestamp>, ScheduleError>)
        ensures
            match r {
                Ok(trace) => {
                    &&& refusal(views(processes@), 0, quantum > 0) is None
                    &&& trace_view(trace@) == rr_trace(views(processes@), quantum as int)
                    &&& causal(trace_view(trace@))
                    &&& chronological(trace_view(trace@))
                    &&& completions(trace_view(trace@)) == processes.len()
                    &&& ended(trace_view(trace@)) == roster(views(processes@))
                    &&& conserved(views(processes@), trace_view(trace@))
                },
                Err(e) => refusal(views(processes@), 0, quantum > 0) == Some(e),
            },
    {
        if quantum <= 0 {
            return Err(ScheduleError::InvalidParameter);
        }
        match screen(processes, 0) {
            Err(e) => {
                return Err(e);
            },
            Ok(_) => {},
        }
        let ghost input = views(processes@);
        let ghost latest = latest_arrival(input);
        let ghost work = total_burst(input);
        let mut backlog = sort_by_arrival(processes);
        let mut queue: Vec<Process> = Vec::new();
        let mut trace: Vec<Timestamp> = Vec::new();
        let mut time: i64 = 0;
        proof {
            lemma_by_arrival_keeps(input);
            let sorted = views(backlog@);
            assert forall|i: int| 0 <= i < sorted.len() implies (#[trigger] sorted[i]).arrival_time <= latest by {
                lemma_latest_bounds(sorted, i);
            }
            if input.len() > 0 {
                lemma_latest_bounds(input, 0);
            }
            assert(views(queue@) =~= Seq::<ProcessView>::empty());
            assert(trace_view(trace@) =~= Seq::<TimestampView>::empty());
            assert(trace_view(trace@) + rr_trace(input, quantum as int) =~= rr_trace(input, quantum as int));
            lemma_roster_by_arrival(input);
            lemma_accounted_start(input);
            assert(ended(trace_view(trace@)).add(roster(views(backlog@)).add(roster(views(queue@)))) =~= roster(
                input,
            ));
        }
        while backlog.len() > 0 || queue.len() > 0
            invariant
                quantum > 0,
                all_valid(views(backlog@)),
                all_valid(views(queue@)),
                trace_view(trace@) + rr_run(views(backlog@), views(queue@), time as int, quantum as int)
                    == rr_trace(input, quantum as int),
                0 <= time,
                0 <= latest,
                time + total_burst(views(backlog@)) + total_burst(views(queue@)) <= latest + work,
                total_burst(views(backlog@)) + total_burst(views(queue@)) <= work,
                latest + work <= i64::MAX,
                all_arrived(views(backlog@), latest),
                all_arrived(views(queue@), time as int),
                causal(trace_view(trace@)),
                chronological(trace_view(trace@)),
                not_after(trace_view(trace@), time as int),
                completions(trace_view(trace@)) + backlog.len() + queue.len() == processes.len(),
                ended(trace_view(trace@)).add(roster(views(backlog@)).add(roster(views(queue@)))) == roster(input),
                accounted(input, trace_view(trace@), views(backlog@), views(queue@)),
            decreases
                total_burst(views(backlog@)) + total_burst(views(queue@)),
                idle_gap(views(backlog@), time as int),
        {
            let ghost b = views(backlog@);
            let ghost r = views(queue@);
            let ghost t0 = time as int;
            let ghost tv = trace_view(trace@);
            proof {
                lemma_moved(b, r, t0, latest);
                lemma_total_valid(b);
                lemma_total_valid(r);
                assert(backlog@.len() > 0 ==> b[0] == backlog@[0]@);
            }
            take_arrivals(&mut backlog, &mut queue, time);
            if queue.len() > 0 {
                let ghost qv = views(queue@);
                let ghost rest = views(backlog@);
                proof {
                    lemma_rr_step(b, r, t0, quantum as int);
                    lemma_removed(qv, 0, t0);
                    assert(qv.drop_first() =~= qv.remove(0));
                    lemma_roster_moved(b, r, t0);
                    lemma_roster_remove(qv, 0);
                    lemma_accounted_moved(input, tv, b, r, t0);
                    lemma_within(input, tv, rest, qv);
                }
                let mut process = queue.remove(0);
                proof {
                    assert(views(queue@) =~= qv.drop_first());
                    assert(process@ == qv[0]);
                }
                if process.burst_time > quantum {
                    process.burst_time = process.burst_time - quantum;
                    time = time + quantum as i64;
                    let snap = process.snapshot();
                    trace.push(Timestamp { time, process: snap });
                    let ghost cut = process@;
                    proof {
                        assert(cut == with_burst(qv[0], qv[0].burst_time - quantum));
                        assert(trace_view(trace@) =~= tv.push(event(time as int, cut)));
                        lemma_trace_push(tv, event(time as int, cut), t0);
                        lemma_arrived_later(qv.drop_first(), t0, time as int);
                        lemma_moved(rest, qv.drop_first(), time as int, latest);
                        lemma_roster_moved(rest, qv.drop_first(), time as int);
                        lemma_ended_push(tv, event(time as int, cut));
                    }
                    take_arrivals(&mut backlog, &mut queue, time);
                    let ghost before = views(queue@);
                    queue.push(process);
                    proof {
                        assert(views(queue@) =~= before.push(cut));
                        lemma_pushed(before, cut, time as int);
                        lemma_roster_push(before, cut);
                        assert(roster(rest).add(roster(qv.drop_first())).insert(identity(cut)) =~= roster(rest).add(
                            roster(qv),
                        ));
                        assert(roster(views(backlog@)).add(roster(views(queue@))) =~= roster(views(backlog@)).add(
                            roster(before),
                        ).insert(identity(cut)));
                        lemma_demand_moved(rest, qv.drop_first(), time as int);
                        lemma_demand_push(before, cut);
                        lemma_accounted_step(
                            input,
                            tv,
                            rest,
                            qv,
                            0,
                            event(time as int, cut),
                            views(backlog@),
                            views(queue@),
                        );
                        assert(tv.push(event(time as int, cut)) =~= tv + seq![event(time as int, cut)]);
                        assert(rr_run(b, r, t0, quantum as int) == seq![event(time as int, cut)] + rr_run(
                            views(backlog@),
                            views(queue@),
                            time as int,
                            quantum as int,
                        ));
                        assert(trace_view(trace@) + rr_run(
                            views(backlog@),
                            views(queue@),
                            time as int,
                            quantum as int,
                        ) =~= tv + rr_run(b, r, t0, quantum as int));
                    }
                } else {
                    time = time + process.burst_time as i64;
                    process.burst_time = 0;
                    let ghost gone = process@;
                    trace.push(Timestamp { time, process });
                    proof {
                        assert(gone == with_burst(qv[0], 0));
                        assert(trace_view(trace@) =~= tv.push(event(time as int, gone)));
                        lemma_trace_push(tv, event(time as int, gone), t0);
                        lemma_ended_push(tv, event(time as int, gone));
                        assert(ended(tv).insert(identity(gone)).add(roster(rest).add(roster(qv.drop_first())))
                            =~= ended(tv).add(roster(rest).add(roster(qv))));
                        lemma_accounted_step(
                            input,
                            tv,
                            rest,
                            qv,
                            0,
                            event(time as int, gone),
                            rest,
                            qv.drop_first(),
                        );
                        lemma_arrived_later(qv.drop_first(), t0, time as int);
                        assert(rr_run(b, r, t0, quantum as int) == seq![event(time as int, gone)] + rr_run(
                            rest,
                            qv.drop_first(),
                            time as int,
                            quantum as int,
                        ));
                        assert(trace_view(trace@) + rr_run(
                            views(backlog@),
                            views(queue@),
                            time as int,
                            quantum as int,
                        ) =~= tv + rr_run(b, r, t0, quantum as int));
                    }
                }
            } else {
                proof {
                    assert(r.len() == 0);
                    assert(arrived(b, t0) == 0);
                    assert(b[0].arrival_time > t0);
                    assert(views(backlog@) =~= b);
                    assert(views(queue@) =~= r);
                    lemma_not_after_later(tv, t0, t0 + 1);
                }
                time = time + 1;
            }
        }
        proof {
            assert(rr_run(views(backlog@), views(queue@), time as int, quantum as int)
                =~= Seq::<TimestampView>::empty());
            assert(trace_view(trace@) + Seq::<TimestampView>::empty() =~= trace_view(trace@));
            assert(ended(trace_view(trace@)).add(roster(views(backlog@)).add(roster(views(queue@)))) =~= ended(
                trace_view(trace@),
            ));
            assert(views(backlog@) =~= Seq::<ProcessView>::empty());
            assert(views(queue@) =~= Seq::<ProcessView>::empty());
            lemma_accounted_end(input, trace_view(trace@));
        }
        Ok(trace)
    }
}

} // verus!
