//! Highest response ratio next.

use vstd::prelude::*;
use crate::schedule::scheduler::{
    Process, ProcessView, Timestamp, TimestampView, ScheduleError, views, trace_view, all_valid,
    valid_process, with_burst, with_waiting, event,
};
use crate::schedule::totals::{total_burst, latest_arrival, idle_gap, lemma_total_valid, lemma_latest_bounds};
use crate::schedule::order::{by_arrival, sort_by_arrival, lemma_by_arrival_keeps};
use crate::schedule::intake::{screen, refusal, all_arrived, lemma_removed};
use crate::schedule::roster::{
    Identity, roster, ended, identity, lemma_roster_remove, lemma_roster_by_arrival, lemma_ended_push,
};
use crate::schedule::ledger::{
    conserved, accounted, demand, lemma_accounted_start, lemma_accounted_step, lemma_accounted_end, lemma_within,
};
use crate::schedule::trace::{causal, chronological, not_after, completions, lemma_trace_push, lemma_not_after_later};

verus! {

/// The best process of a scan so far: whether any process had arrived, the
/// place of the best, and the greatest response ratio as a time waited over
/// a burst time needed.
pub struct Favourite {
    pub found: bool,
    pub index: int,
    pub waited: int,
    pub burst: int,
}

/// Whether the response ratio of `p` is greater than `waited / burst`, for
/// burst times above zero. The two fractions are compared exactly.
pub open spec fn exceeds(p: ProcessView, waited: int, burst: int) -> bool {
    p.waiting_time * burst > waited * p.burst_time
}

/// The scan of the first `n` processes of `list` at `time`. It starts from
/// the ratio zero and moves to each process that has arrived and whose ratio
/// is greater than the best before it; until a ratio is above zero, it
/// stays at the first process that has arrived.
pub open spec fn favourite(list: Seq<ProcessView>, time: int, n: int) -> Favourite
    decreases n,
{
    if n <= 0 {
        Favourite { found: false, index: 0, waited: 0, burst: 1 }
    } else {
        let best = favourite(list, time, n - 1);
        let p = list[n - 1];
        if p.arrival_time > time {
            best
        } else if exceeds(p, best.waited, best.burst) {
            Favourite { found: true, index: n - 1, waited: p.waiting_time, burst: p.burst_time }
        } else if !best.found {
            Favourite { found: true, index: n - 1, ..best }
        } else {
            best
        }
    }
}

/// No process of `list` has arrived by `time`.
pub open spec fn none_arrived(list: Seq<ProcessView>, time: int) -> bool {
    forall|i: int| 0 <= i < list.len() ==> (#[trigger] list[i]).arrival_time > time
}

/// The waiting time of `p` at `now`: the time since it arrived, and 0 where
/// it has not.
pub open spec fn waited_at(p: ProcessView, now: int) -> int {
    if p.arrival_time <= now {
        now - p.arrival_time
    } else {
        0
    }
}

/// The processes of `s` with their waiting times set anew at `now`.
pub open spec fn rewaited(s: Seq<ProcessView>, now: int) -> Seq<ProcessView> {
    Seq::new(s.len(), |i: int| with_waiting(s[i], waited_at(s[i], now)))
}

/// The events of highest response ratio next from the moment `time` on, with
/// `list` still to run: the favourite of a scan runs to its end, and the
/// others then have their waiting times set anew.
pub open spec fn hrrn_run(list: Seq<ProcessView>, time: int) -> Seq<TimestampView>
    decreases total_burst(list), idle_gap(list, time),
    when all_valid(list)
    via hrrn_run_decreases
{
    if list.len() == 0 {
        Seq::empty()
    } else if none_arrived(list, time) {
        hrrn_run(list, time + 1)
    } else {
        let i = favourite(list, time, list.len() as int).index;
        let now = time + list[i].burst_time;
        seq![event(now, with_burst(list[i], 0))] + hrrn_run(rewaited(list.remove(i), now), now)
    }
}

#[via_fn]
proof fn hrrn_run_decreases(list: Seq<ProcessView>, time: int) {
    if list.len() == 0 {
    } else if none_arrived(list, time) {
        assert(list[0].arrival_time > time);
    } else {
        lemma_hrrn_step(list, time);
    }
}

/// The favourite stands in the list and has arrived, where any of the
/// processes scanned has; the greatest ratio has a burst time above zero.
pub proof fn lemma_favourite(list: Seq<ProcessView>, time: int, n: int)
    requires
        0 <= n <= list.len(),
        all_valid(list),
        list.len() > 0,
    ensures
        0 <= favourite(list, time, n).index < list.len(),
        favourite(list, time, n).burst > 0,
        favourite(list, time, n).found ==> list[favourite(list, time, n).index].arrival_time <= time,
        !favourite(list, time, n).found ==> forall|k: int| 0 <= k < n ==> (#[trigger] list[k]).arrival_time > time,
    decreases n,
{
    if n > 0 {
        lemma_favourite(list, time, n - 1);
        assert(valid_process(list[n - 1]));
    }
}

/// Fractions with denominators above zero are ordered transitively.
proof fn lemma_ratio_order(w0: int, b0: int, w1: int, b1: int, w2: int, b2: int)
    requires
        b0 > 0,
        b1 > 0,
        b2 > 0,
        w0 * b1 <= w1 * b0,
        w1 * b2 <= w2 * b1,
    ensures
        w0 * b2 <= w2 * b0,
{
    assert(w0 * b1 * b2 <= w1 * b0 * b2) by (nonlinear_arith)
        requires
            w0 * b1 <= w1 * b0,
            b2 > 0,
    ;
    assert(w1 * b2 * b0 <= w2 * b1 * b0) by (nonlinear_arith)
        requires
            w1 * b2 <= w2 * b1,
            b0 > 0,
    ;
    assert(w1 * b0 * b2 == w1 * b2 * b0) by (nonlinear_arith);
    assert(w0 * b1 * b2 == (w0 * b2) * b1) by (nonlinear_arith);
    assert(w2 * b1 * b0 == (w2 * b0) * b1) by (nonlinear_arith);
    assert(w0 * b2 <= w2 * b0) by (nonlinear_arith)
        requires
            (w0 * b2) * b1 <= (w2 * b0) * b1,
            b1 > 0,
    ;
}

/// No process that has arrived has a response ratio above the greatest of
/// the scan, which is zero or the ratio of the favourite.
pub proof fn lemma_favourite_greatest(list: Seq<ProcessView>, time: int, n: int)
    requires
        0 <= n <= list.len(),
        all_valid(list),
    ensures
        favourite(list, time, n).burst > 0,
        favourite(list, time, n).waited >= 0,
        !favourite(list, time, n).found ==> favourite(list, time, n).waited == 0,
        forall|k: int|
            0 <= k < n && (#[trigger] list[k]).arrival_time <= time ==> !exceeds(
                list[k],
                favourite(list, time, n).waited,
                favourite(list, time, n).burst,
            ),
        favourite(list, time, n).waited > 0 ==> {
            &&& 0 <= favourite(list, time, n).index < n
            &&& favourite(list, time, n).waited == list[favourite(list, time, n).index].waiting_time
            &&& favourite(list, time, n).burst == list[favourite(list, time, n).index].burst_time
        },
    decreases n,
{
    if n > 0 {
        lemma_favourite_greatest(list, time, n - 1);
        let before = favourite(list, time, n - 1);
        let now = favourite(list, time, n);
        let p = list[n - 1];
        assert(valid_process(p));
        if p.arrival_time <= time && exceeds(p, before.waited, before.burst) {
            assert(p.waiting_time > 0) by (nonlinear_arith)
                requires
                    p.waiting_time * before.burst > before.waited * p.burst_time,
                    before.burst > 0,
                    before.waited >= 0,
                    p.burst_time > 0,
            ;
            assert forall|k: int| 0 <= k < n && (#[trigger] list[k]).arrival_time <= time implies !exceeds(
                list[k],
                now.waited,
                now.burst,
            ) by {
                if k < n - 1 {
                    assert(valid_process(list[k]));
                    lemma_ratio_order(
                        list[k].waiting_time,
                        list[k].burst_time,
                        before.waited,
                        before.burst,
                        now.waited,
                        now.burst,
                    );
                }
            }
        }
    }
}

/// Where no process has waited, the favourite is the first process that has
/// arrived: ratios that tie at zero move the scan no further.
pub proof fn lemma_favourite_tie(list: Seq<ProcessView>, time: int, n: int, first: int)
    requires
        0 <= first < n <= list.len(),
        all_valid(list),
        forall|k: int| 0 <= k < list.len() ==> (#[trigger] list[k]).waiting_time <= 0,
        list[first].arrival_time <= time,
        forall|k: int| 0 <= k < first ==> (#[trigger] list[k]).arrival_time > time,
    ensures
        favourite(list, time, n) == (Favourite { found: true, index: first, waited: 0, burst: 1 }),
    decreases n,
{
    if n - 1 > first {
        lemma_favourite_tie(list, time, n - 1, first);
    } else {
        lemma_favourite_none(list, time, first);
    }
    assert(list[n - 1].waiting_time <= 0);
    assert(!exceeds(list[n - 1], 0, 1));
}

/// A scan over processes that have not arrived stays where it started.
proof fn lemma_favourite_none(list: Seq<ProcessView>, time: int, n: int)
    requires
        0 <= n <= list.len(),
        forall|k: int| 0 <= k < n ==> (#[trigger] list[k]).arrival_time > time,
    ensures
        favourite(list, time, n) == (Favourite { found: false, index: 0, waited: 0, burst: 1 }),
    decreases n,
{
    if n > 0 {
        lemma_favourite_none(list, time, n - 1);
        assert(list[n - 1].arrival_time > time);
    }
}

/// Setting the waiting times anew keeps the burst times, the validity and
/// the arrival times.
pub proof fn lemma_rewaited(s: Seq<ProcessView>, now: int, latest: int)
    ensures
        rewaited(s, now).len() == s.len(),
        total_burst(rewaited(s, now)) == total_burst(s),
        all_valid(s) ==> all_valid(rewaited(s, now)),
        all_arrived(s, latest) ==> all_arrived(rewaited(s, now), latest),
    decreases s.len(),
{
    let r = rewaited(s, now);
    if s.len() > 0 {
        lemma_rewaited(s.drop_last(), now, latest);
        assert(r.drop_last() =~= rewaited(s.drop_last(), now));
    }
    if all_valid(s) {
        assert forall|i: int| 0 <= i < r.len() implies valid_process(#[trigger] r[i]) by {
            assert(valid_process(s[i]));
        }
    }
    if all_arrived(s, latest) {
        assert forall|i: int| 0 <= i < r.len() implies (#[trigger] r[i]).arrival_time <= latest by {
            assert(s[i].arrival_time <= latest);
        }
    }
}

/// Setting the waiting times anew changes nothing in what `id` needs.
proof fn lemma_demand_rewaited_of(s: Seq<ProcessView>, now: int, id: Identity)
    ensures
        demand(rewaited(s, now), id) == demand(s, id),
    decreases s.len(),
{
    if s.len() > 0 {
        lemma_demand_rewaited_of(s.drop_last(), now, id);
        assert(rewaited(s, now).drop_last() =~= rewaited(s.drop_last(), now));
    }
}

/// Setting the waiting times anew changes nothing in what each process needs.
pub proof fn lemma_demand_rewaited(s: Seq<ProcessView>, now: int)
    ensures
        forall|id: Identity| #[trigger] demand(rewaited(s, now), id) == demand(s, id),
{
    assert forall|id: Identity| #[trigger] demand(rewaited(s, now), id) == demand(s, id) by {
        lemma_demand_rewaited_of(s, now, id);
    }
}

/// Setting the waiting times anew keeps every process.
pub proof fn lemma_roster_rewaited(s: Seq<ProcessView>, now: int)
    ensures
        roster(rewaited(s, now)) == roster(s),
    decreases s.len(),
{
    if s.len() > 0 {
        lemma_roster_rewaited(s.drop_last(), now);
        assert(rewaited(s, now).drop_last() =~= rewaited(s.drop_last(), now));
    }
}

/// What one dispatch of highest response ratio next does to the work that
/// is left.
pub proof fn lemma_hrrn_step(list: Seq<ProcessView>, time: int)
    requires
        all_valid(list),
        list.len() > 0,
    ensures
        ({
            let i = favourite(list, time, list.len() as int).index;
            let now = time + list[i].burst_time;
            let next = rewaited(list.remove(i), now);
            &&& 0 <= i < list.len()
            &&& valid_process(list[i])
            &&& all_valid(next)
            &&& next.len() == list.len() - 1
            &&& total_burst(next) == total_burst(list) - list[i].burst_time
            &&& 0 <= total_burst(next)
            &&& none_arrived(list, time) <==> !favourite(list, time, list.len() as int).found
            &&& !none_arrived(list, time) ==> list[i].arrival_time <= time
        }),
{
    lemma_favourite(list, time, list.len() as int);
    let i = favourite(list, time, list.len() as int).index;
    let now = time + list[i].burst_time;
    lemma_removed(list, i, now);
    lemma_rewaited(list.remove(i), now, 0);
    lemma_total_valid(rewaited(list.remove(i), now));
}

/// The trace of highest response ratio next over `s`.
pub open spec fn hrrn_trace(s: Seq<ProcessView>) -> Seq<TimestampView> {
    hrrn_run(by_arrival(s), 0)
}

/// The product of a waiting time and a burst time is far from the limits of `i128`.
proof fn lemma_product_fits(a: int, b: int)
    requires
        -0x8000_0000_0000_0000 <= a <= 0x8000_0000_0000_0000,
        -0x8000_0000 <= b <= 0x8000_0000,
    ensures
        -0x4000_0000_0000_0000_0000_0000 <= a * b <= 0x4000_0000_0000_0000_0000_0000,
{
    assert(-0x4000_0000_0000_0000_0000_0000 <= a * b <= 0x4000_0000_0000_0000_0000_0000) by (nonlinear_arith)
        requires
            -0x8000_0000_0000_0000 <= a <= 0x8000_0000_0000_0000,
            -0x8000_0000 <= b <= 0x8000_0000,
    ;
}

/// Whether the ratio `waited / burst` is greater than `best_waited / best_burst`,
/// decided without a division.
fn ratio_exceeds(waited: i64, burst: i32, best_waited: i64, best_burst: i32) -> (r: bool)
    ensures
        r == (waited * best_burst > best_waited * burst),
{
    proof {
        lemma_product_fits(waited as int, best_burst as int);
        lemma_product_fits(best_waited as int, burst as int);
    }
    let left: i128 = (waited as i128) * (best_burst as i128);
    let right: i128 = (best_waited as i128) * (burst as i128);
    left > right
}

impl Timestamp {
    /// Highest response ratio next: the trace of `processes`, each of which
    /// runs to its end once it is chosen.
    ///
    /// Refused where a process is not valid, and where the clock cannot hold
    /// the end of the simulation. The trace of every other input has each
    /// one event for each process, at which it has no burst time left; each
    /// event is no earlier than the arrival of its process, the times never
    /// go back, and what the trace records as run by a process is the burst
    /// time that the process had.
    pub fn highest_response_ratio_next(processes: &Vec<Process>) -> (r: Result<Vec<Timestamp>, ScheduleError>)
        ensures
            match r {
                Ok(trace) => {
                    &&& refusal(views(processes@), 0, true) is None
                    &&& trace_view(trace@) == hrrn_trace(views(processes@))
                    &&& causal(trace_view(trace@))
                    &&& chronological(trace_view(trace@))
                    &&& completions(trace_view(trace@)) == processes.len()
                    &&& trace@.len() == processes.len()
                    &&& ended(trace_view(trace@)) == roster(views(processes@))
                    &&& conserved(views(processes@), trace_view(trace@))
                },
                Err(e) => refusal(views(processes@), 0, true) == Some(e),
            },
    {
        match screen(processes, 0) {
            Err(e) => {
                return Err(e);
            },
            Ok(_) => {},
        }
        let ghost input = views(processes@);
        let ghost latest = latest_arrival(input);
        let ghost work = total_burst(input);
        let mut list = sort_by_arrival(processes);
        let mut trace: Vec<Timestamp> = Vec::new();
        let mut time: i64 = 0;
        proof {
            lemma_by_arrival_keeps(input);
            let sorted = views(list@);
            assert forall|i: int| 0 <= i < sorted.len() implies (#[trigger] sorted[i]).arrival_time <= latest by {
                lemma_latest_bounds(sorted, i);
            }
            if input.len() > 0 {
                lemma_latest_bounds(input, 0);
            }
            assert(trace_view(trace@) =~= Seq::<TimestampView>::empty());
            assert(trace_view(trace@) + hrrn_trace(input) =~= hrrn_trace(input));
            lemma_roster_by_arrival(input);
            lemma_accounted_start(input);
            assert(accounted(input, trace_view(trace@), Seq::empty(), views(list@)));
            assert(ended(trace_view(trace@)).add(roster(views(list@))) =~= roster(input));
        }
        while list.len() > 0
            invariant
                all_valid(views(list@)),
                trace_view(trace@) + hrrn_run(views(list@), time as int) == hrrn_trace(input),
                0 <= time,
                0 <= latest,
                time + total_burst(views(list@)) <= latest + work,
                total_burst(views(list@)) <= work,
                latest + work <= i64::MAX,
                all_arrived(views(list@), latest),
                causal(trace_view(trace@)),
                chronological(trace_view(trace@)),
                not_after(trace_view(trace@), time as int),
                completions(trace_view(trace@)) + list.len() == processes.len(),
                trace@.len() + list.len() == processes.len(),
                ended(trace_view(trace@)).add(roster(views(list@))) == roster(input),
                accounted(input, trace_view(trace@), Seq::empty(), views(list@)),
            decreases total_burst(views(list@)), idle_gap(views(list@), time as int),
        {
            let ghost lv = views(list@);
            let ghost t0 = time as int;
            let ghost tv = trace_view(trace@);
            proof {
                lemma_total_valid(lv);
            }
            let mut best: usize = 0;
            let mut best_waited: i64 = 0;
            let mut best_burst: i32 = 1;
            let mut found = false;
            let mut i: usize = 0;
            while i < list.len()
                invariant
                    i <= list.len(),
                    lv == views(list@),
                    all_valid(lv),
                    favourite(lv, t0, i as int) == (Favourite {
                        found,
                        index: best as int,
                        waited: best_waited as int,
                        burst: best_burst as int,
                    }),
                    t0 == time,
                decreases list.len() - i,
            {
                proof {
                    assert(lv[i as int] == list@[i as int]@);
                }
                if list[i].arrival_time <= time {
                    if ratio_exceeds(list[i].waiting_time, list[i].burst_time, best_waited, best_burst) {
                        best = i;
                        best_waited = list[i].waiting_time;
                        best_burst = list[i].burst_time;
                    } else if !found {
                        best = i;
                    }
                    found = true;
                }
                i += 1;
            }
            if found {
                proof {
                    lemma_hrrn_step(lv, t0);
                    lemma_removed(lv, best as int, t0);
                }
                let mut process = list.remove(best);
                proof {
                    assert(views(list@) =~= lv.remove(best as int));
                    assert(process@ == lv[best as int]);
                    assert(process.burst_time as int <= total_burst(lv));
                }
                time = time + process.burst_time as i64;
                process.burst_time = 0;
                let ghost gone = process@;
                trace.push(Timestamp { time, process });
                let ghost rest = views(list@);
                let mut k: usize = 0;
                while k < list.len()
                    invariant
                        k <= list.len(),
                        list.len() == rest.len(),
                        all_valid(rest),
                        0 <= time,
                        forall|j: int| 0 <= j < k ==> (#[trigger] list@[j])@ == with_waiting(rest[j], waited_at(rest[j], time as int)),
                        forall|j: int| k <= j < list.len() ==> (#[trigger] list@[j])@ == rest[j],
                    decreases list.len() - k,
                {
                    let mut p = list[k].snapshot();
                    proof {
                        assert(valid_process(rest[k as int]));
                    }
                    p.waiting_time = if p.arrival_time <= time {
                        time - p.arrival_time
                    } else {
                        0
                    };
                    list.set(k, p);
                    k += 1;
                }
                proof {
                    assert(views(list@) =~= rewaited(rest, time as int));
                    assert(trace_view(trace@) =~= tv.push(event(time as int, gone)));
                    lemma_trace_push(tv, event(time as int, gone), t0);
                    lemma_rewaited(rest, time as int, latest);
                    lemma_removed(lv, best as int, latest);
                    lemma_ended_push(tv, event(time as int, gone));
                    lemma_roster_remove(lv, best as int);
                    lemma_roster_rewaited(rest, time as int);
                    assert(ended(tv).insert(identity(gone)).add(roster(rest)) =~= ended(tv).add(roster(lv)));
                    let none = Seq::<ProcessView>::empty();
                    assert(roster(none).add(roster(lv)) =~= roster(lv));
                    lemma_within(input, tv, none, lv);
                    lemma_demand_rewaited(rest, time as int);
                    lemma_accounted_step(
                        input,
                        tv,
                        none,
                        lv,
                        best as int,
                        event(time as int, gone),
                        none,
                        rewaited(rest, time as int),
                    );
                    assert(tv.push(event(time as int, gone)) =~= tv + seq![event(time as int, gone)]);
                    assert(hrrn_run(lv, t0) == seq![event(time as int, gone)] + hrrn_run(views(list@), time as int));
                    assert(trace_view(trace@) + hrrn_run(views(list@), time as int) =~= tv + hrrn_run(lv, t0));
                }
            } else {
                proof {
                    lemma_hrrn_step(lv, t0);
                    assert(lv[0].arrival_time > t0);
                    assert(lv[0].arrival_time <= latest);
                    lemma_not_after_later(tv, t0, t0 + 1);
                }
                time = time + 1;
            }
        }
        proof {
            assert(hrrn_run(views(list@), time as int) =~= Seq::<TimestampView>::empty());
            assert(trace_view(trace@) + Seq::<TimestampView>::empty() =~= trace_view(trace@));
            assert(ended(trace_view(trace@)).add(roster(views(list@))) =~= ended(trace_view(trace@)));
            assert(views(list@) =~= Seq::<ProcessView>::empty());
            lemma_accounted_end(input, trace_view(trace@));
        }
        Ok(trace)
    }
}

} // verus!
