//! What every discipline does before and while it runs: the test of its
//! input, and the move of the processes that have arrived.

use vstd::prelude::*;
use crate::schedule::scheduler::{Process, ProcessView, ScheduleError, views, all_valid, valid_process};
use crate::schedule::totals::{total_burst, latest_arrival, arrived, lemma_arrived, lemma_total_split, lemma_total_concat, lemma_total_remove, lemma_total_update};

verus! {

/// The time by which a simulation of `s` that starts at `start` has ended at
/// the latest: the later of `start` and the last arrival, and then every
/// burst in turn.
pub open spec fn clock_limit(s: Seq<ProcessView>, start: int) -> int {
    if latest_arrival(s) >= start {
        latest_arrival(s) + total_burst(s)
    } else {
        start + total_burst(s)
    }
}

/// Whether `s` can be simulated from `start` on, and if not, why.
pub open spec fn screening(s: Seq<ProcessView>, start: int) -> Result<(), ScheduleError> {
    if !all_valid(s) {
        Err(ScheduleError::InvalidProcess)
    } else if clock_limit(s, start) > i64::MAX {
        Err(ScheduleError::ClockOverflow)
    } else {
        Ok(())
    }
}

/// Every process of `s` has arrived by `time`.
pub open spec fn all_arrived(s: Seq<ProcessView>, time: int) -> bool {
    forall|i: int| 0 <= i < s.len() ==> (#[trigger] s[i]).arrival_time <= time
}

/// Tests that every process is valid and that the clock can hold the time
/// at which the last of them ends.
pub fn screen(processes: &Vec<Process>, start: i64) -> (r: Result<(), ScheduleError>)
    ensures
        r == screening(views(processes@), start as int),
{
    let ghost all = views(processes@);
    let mut total: i128 = 0;
    let mut latest: i64 = 0;
    let mut i: usize = 0;
    proof {
        assert(all.take(0) =~= Seq::<ProcessView>::empty());
    }
    while i < processes.len()
        invariant
            i <= processes.len(),
            all == views(processes@),
            all_valid(all.take(i as int)),
            total == total_burst(all.take(i as int)),
            0 <= total <= i * 0x7fff_ffff,
            latest == latest_arrival(all.take(i as int)),
        decreases processes.len() - i,
    {
        let ghost done = all.take(i as int);
        let ghost next = all.take(i as int + 1);
        proof {
            assert(next.drop_last() =~= done);
            assert(next.last() == processes@[i as int]@);
        }
        if processes[i].arrival_time < 0 || processes[i].burst_time <= 0 {
            proof {
                assert(!valid_process(all[i as int]));
            }
            return Err(ScheduleError::InvalidProcess);
        }
        total = total + processes[i].burst_time as i128;
        if processes[i].arrival_time > latest {
            latest = processes[i].arrival_time;
        }
        proof {
            assert forall|k: int| 0 <= k < next.len() implies valid_process(#[trigger] next[k]) by {
                if k < i {
                    assert(valid_process(done[k]));
                }
            }
        }
        i += 1;
    }
    proof {
        assert(all.take(i as int) =~= all);
    }
    let base: i64 = if latest >= start { latest } else { start };
    if base as i128 + total > i64::MAX as i128 {
        Err(ScheduleError::ClockOverflow)
    } else {
        Ok(())
    }
}

/// Moves the processes at the head of `backlog` that have arrived by `time`
/// to the back of `ready`, in their order.
pub fn take_arrivals(backlog: &mut Vec<Process>, ready: &mut Vec<Process>, time: i64)
    ensures
        views(final(backlog)@) == waiting(views(old(backlog)@), time as int),
        views(final(ready)@) == joined(views(old(backlog)@), views(old(ready)@), time as int),
{
    let ghost b0 = views(backlog@);
    let ghost r0 = views(ready@);
    let ghost mut moved: int = 0;
    proof {
        assert(b0.skip(0) =~= b0);
        assert(r0 + b0.take(0) =~= r0);
    }
    while backlog.len() > 0 && backlog[0].arrival_time <= time
        invariant
            0 <= moved <= b0.len(),
            views(backlog@) == b0.skip(moved),
            views(ready@) == r0 + b0.take(moved),
            arrived(b0, time as int) == moved + arrived(views(backlog@), time as int),
        decreases backlog.len(),
    {
        let ghost vb = views(backlog@);
        let ghost vr = views(ready@);
        let p = backlog.remove(0);
        ready.push(p);
        proof {
            assert(views(backlog@) =~= vb.drop_first());
            assert(views(ready@) =~= vr.push(p@));
            assert(vb[0] == p@);
            assert(b0.skip(moved).drop_first() =~= b0.skip(moved + 1));
            assert(vr.push(p@) =~= r0 + b0.take(moved + 1));
            moved = moved + 1;
        }
    }
    proof {
        let vb = views(backlog@);
        assert(vb.len() > 0 ==> vb[0] == backlog@[0]@);
        assert(arrived(vb, time as int) == 0);
    }
}

/// The ready processes once those of `backlog` that have arrived by `time`
/// have joined them.
pub open spec fn joined(backlog: Seq<ProcessView>, ready: Seq<ProcessView>, time: int) -> Seq<ProcessView> {
    ready + backlog.take(arrived(backlog, time) as int)
}

/// What stays of `backlog` once the processes that have arrived by `time`
/// have left it.
pub open spec fn waiting(backlog: Seq<ProcessView>, time: int) -> Seq<ProcessView> {
    backlog.skip(arrived(backlog, time) as int)
}

/// Whether a simulation is refused, and why: a quantum that is not positive
/// comes before a process that is not valid, and that before the clock.
pub open spec fn refusal(s: Seq<ProcessView>, start: int, quanta_positive: bool) -> Option<ScheduleError> {
    if !quanta_positive {
        Some(ScheduleError::InvalidParameter)
    } else {
        match screening(s, start) {
            Err(e) => Some(e),
            Ok(_) => None,
        }
    }
}

/// What the move of the arrived processes keeps: every process, the burst
/// time they need together, their validity and the bounds on their arrival.
pub proof fn lemma_moved(backlog: Seq<ProcessView>, ready: Seq<ProcessView>, time: int, latest: int)
    ensures
        arrived(backlog, time) <= backlog.len(),
        joined(backlog, ready, time).len() == ready.len() + arrived(backlog, time),
        waiting(backlog, time).len() == backlog.len() - arrived(backlog, time),
        total_burst(joined(backlog, ready, time)) + total_burst(waiting(backlog, time)) == total_burst(
            backlog,
        ) + total_burst(ready),
        all_valid(backlog) && all_valid(ready) ==> all_valid(joined(backlog, ready, time)) && all_valid(
            waiting(backlog, time),
        ),
        all_arrived(ready, time) ==> all_arrived(joined(backlog, ready, time), time),
        all_arrived(backlog, latest) ==> all_arrived(waiting(backlog, time), latest),
        arrived(waiting(backlog, time), time) == 0,
{
    lemma_arrived(backlog, time);
    let k = arrived(backlog, time) as int;
    let queue = joined(backlog, ready, time);
    let rest = waiting(backlog, time);
    lemma_total_split(backlog, k);
    lemma_total_concat(ready, backlog.take(k));
    if all_valid(backlog) && all_valid(ready) {
        assert forall|i: int| 0 <= i < queue.len() implies valid_process(#[trigger] queue[i]) by {
            if i < ready.len() {
                assert(valid_process(ready[i]));
            } else {
                assert(valid_process(backlog[i - ready.len()]));
            }
        }
        assert forall|i: int| 0 <= i < rest.len() implies valid_process(#[trigger] rest[i]) by {
            assert(valid_process(backlog[i + k]));
        }
    }
    if all_arrived(ready, time) {
        assert forall|i: int| 0 <= i < queue.len() implies (#[trigger] queue[i]).arrival_time <= time by {
            if i < ready.len() {
                assert(queue[i] == ready[i]);
            } else {
                assert(queue[i] == backlog[i - ready.len()]);
            }
        }
    }
    if all_arrived(backlog, latest) {
        assert forall|i: int| 0 <= i < rest.len() implies (#[trigger] rest[i]).arrival_time <= latest by {
            assert(rest[i] == backlog[i + k]);
        }
    }
    if k < backlog.len() {
        assert(rest[0] == backlog[k]);
    }
}

/// What the removal of the process at `i` keeps of a list.
pub proof fn lemma_removed(s: Seq<ProcessView>, i: int, time: int)
    requires
        0 <= i < s.len(),
    ensures
        total_burst(s.remove(i)) == total_burst(s) - s[i].burst_time,
        all_valid(s) ==> all_valid(s.remove(i)) && valid_process(s[i]),
        all_arrived(s, time) ==> all_arrived(s.remove(i), time) && s[i].arrival_time <= time,
{
    lemma_total_remove(s, i);
    let r = s.remove(i);
    if all_valid(s) {
        assert(valid_process(s[i]));
        assert forall|j: int| 0 <= j < r.len() implies valid_process(#[trigger] r[j]) by {
            if j < i {
                assert(valid_process(s[j]));
            } else {
                assert(valid_process(s[j + 1]));
            }
        }
    }
    if all_arrived(s, time) {
        assert(s[i].arrival_time <= time);
        assert forall|j: int| 0 <= j < r.len() implies (#[trigger] r[j]).arrival_time <= time by {
            if j < i {
                assert(r[j] == s[j]);
            } else {
                assert(r[j] == s[j + 1]);
            }
        }
    }
}

/// What a process put in the place of the one at `i` does to a list.
pub proof fn lemma_updated(s: Seq<ProcessView>, i: int, p: ProcessView, time: int)
    requires
        0 <= i < s.len(),
    ensures
        total_burst(s.update(i, p)) == total_burst(s) - s[i].burst_time + p.burst_time,
        all_valid(s) && valid_process(p) ==> all_valid(s.update(i, p)),
        all_arrived(s, time) && p.arrival_time <= time ==> all_arrived(s.update(i, p), time),
{
    lemma_total_update(s, i, p);
    let r = s.update(i, p);
    if all_valid(s) && valid_process(p) {
        assert forall|j: int| 0 <= j < r.len() implies valid_process(#[trigger] r[j]) by {
            if j != i {
                assert(valid_process(s[j]));
            }
        }
    }
    if all_arrived(s, time) && p.arrival_time <= time {
        assert forall|j: int| 0 <= j < r.len() implies (#[trigger] r[j]).arrival_time <= time by {
            if j != i {
                assert(r[j] == s[j]);
            }
        }
    }
}

/// What one more process at the back does to a list.
pub proof fn lemma_pushed(s: Seq<ProcessView>, p: ProcessView, time: int)
    ensures
        total_burst(s.push(p)) == total_burst(s) + p.burst_time,
        all_valid(s) && valid_process(p) ==> all_valid(s.push(p)),
        all_arrived(s, time) && p.arrival_time <= time ==> all_arrived(s.push(p), time),
{
    let r = s.push(p);
    assert(r.drop_last() =~= s);
    if all_valid(s) && valid_process(p) {
        assert forall|j: int| 0 <= j < r.len() implies valid_process(#[trigger] r[j]) by {
            if j < s.len() {
                assert(valid_process(s[j]));
            }
        }
    }
    if all_arrived(s, time) && p.arrival_time <= time {
        assert forall|j: int| 0 <= j < r.len() implies (#[trigger] r[j]).arrival_time <= time by {
            if j < s.len() {
                assert(r[j] == s[j]);
            }
        }
    }
}

/// Processes that have arrived by `time` have arrived by any later time.
pub proof fn lemma_arrived_later(s: Seq<ProcessView>, time: int, later: int)
    requires
        all_arrived(s, time),
        time <= later,
    ensures
        all_arrived(s, later),
{
    assert forall|j: int| 0 <= j < s.len() implies (#[trigger] s[j]).arrival_time <= later by {
        assert(s[j].arrival_time <= time);
    }
}

} // verus!
