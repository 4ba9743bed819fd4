//! The order of arrival: a stable sort by arrival time.

use vstd::prelude::*;
use crate::schedule::scheduler::{Process, ProcessView, views, all_valid, valid_process};
use crate::schedule::totals::{total_burst, latest_arrival};

verus! {

/// `s` with `p` placed behind every process that arrives no later than `p`.
pub open spec fn placed(s: Seq<ProcessView>, p: ProcessView) -> Seq<ProcessView>
    decreases s.len(),
{
    if s.len() == 0 || s.last().arrival_time <= p.arrival_time {
        s.push(p)
    } else {
        placed(s.drop_last(), p).push(s.last())
    }
}

/// The processes of `s` by arrival time, earliest first; processes that
/// arrive together keep the order they have in `s`.
pub open spec fn by_arrival(s: Seq<ProcessView>) -> Seq<ProcessView>
    decreases s.len(),
{
    if s.len() == 0 {
        s
    } else {
        placed(by_arrival(s.drop_last()), s.last())
    }
}

/// No process of `s` arrives before one that stands ahead of it.
pub open spec fn arrival_sorted(s: Seq<ProcessView>) -> bool {
    forall|i: int, j: int| 0 <= i <= j < s.len() ==> s[i].arrival_time <= s[j].arrival_time
}

/// Placing `p` is inserting it at the place behind the last process that arrives no later.
proof fn lemma_placed_at(s: Seq<ProcessView>, p: ProcessView, j: int)
    requires
        0 <= j <= s.len(),
        j > 0 ==> s[j - 1].arrival_time <= p.arrival_time,
        forall|i: int| j <= i < s.len() ==> (#[trigger] s[i]).arrival_time > p.arrival_time,
    ensures
        placed(s, p) == s.insert(j, p),
    decreases s.len(),
{
    if j == s.len() {
        assert(s.insert(j, p) =~= s.push(p));
    } else {
        assert(s[s.len() - 1].arrival_time > p.arrival_time);
        let front = s.drop_last();
        lemma_placed_at(front, p, j);
        assert(front.insert(j, p).push(s.last()) =~= s.insert(j, p));
    }
}

/// Placing a process adds it and its burst time, and keeps validity and order.
pub proof fn lemma_placed_keeps(s: Seq<ProcessView>, p: ProcessView)
    ensures
        placed(s, p).len() == s.len() + 1,
        total_burst(placed(s, p)) == total_burst(s) + p.burst_time,
        latest_arrival(placed(s, p)) == if latest_arrival(s) >= p.arrival_time {
            latest_arrival(s)
        } else {
            p.arrival_time
        },
        all_valid(s) && valid_process(p) ==> all_valid(placed(s, p)),
        all_valid(placed(s, p)) ==> all_valid(s) && valid_process(p),
        arrival_sorted(s) ==> arrival_sorted(placed(s, p)),
    decreases s.len(),
{
    if s.len() == 0 || s.last().arrival_time <= p.arrival_time {
        assert(s.push(p).drop_last() =~= s);
        let r = s.push(p);
        assert(all_valid(r) ==> all_valid(s) && valid_process(p)) by {
            if all_valid(r) {
                assert(valid_process(r[s.len() as int]));
                assert forall|i: int| 0 <= i < s.len() implies valid_process(#[trigger] s[i]) by {
                    assert(valid_process(r[i]));
                }
            }
        }
    } else {
        let front = s.drop_last();
        lemma_placed_keeps(front, p);
        let inner = placed(front, p);
        let r = inner.push(s.last());
        assert(r.drop_last() =~= inner);
        assert(all_valid(s) && valid_process(p) ==> all_valid(r)) by {
            if all_valid(s) && valid_process(p) {
                assert(valid_process(s[s.len() - 1]));
                assert forall|i: int| 0 <= i < front.len() implies valid_process(#[trigger] front[i]) by {
                    assert(valid_process(s[i]));
                }
            }
        }
        assert(all_valid(r) ==> all_valid(s) && valid_process(p)) by {
            if all_valid(r) {
                assert(valid_process(r[r.len() - 1]));
                assert forall|i: int| 0 <= i < inner.len() implies valid_process(#[trigger] inner[i]) by {
                    assert(valid_process(r[i]));
                }
                assert forall|i: int| 0 <= i < s.len() implies valid_process(#[trigger] s[i]) by {
                    if i < front.len() {
                        assert(valid_process(front[i]));
                    }
                }
            }
        }
        assert(arrival_sorted(s) ==> arrival_sorted(r)) by {
            if arrival_sorted(s) {
                assert forall|i: int, j: int| 0 <= i <= j < front.len() implies front[i].arrival_time <= front[j].arrival_time by {
                    assert(s[i].arrival_time <= s[j].arrival_time);
                }
                lemma_placed_below(front, p, s.last().arrival_time);
            }
        }
    }
}

/// Placing a process keeps a bound on the arrival times.
proof fn lemma_placed_below(s: Seq<ProcessView>, p: ProcessView, top: int)
    requires
        p.arrival_time <= top,
        forall|i: int| 0 <= i < s.len() ==> (#[trigger] s[i]).arrival_time <= top,
    ensures
        forall|i: int| 0 <= i < placed(s, p).len() ==> (#[trigger] placed(s, p)[i]).arrival_time <= top,
    decreases s.len(),
{
    let r = placed(s, p);
    if s.len() == 0 || s.last().arrival_time <= p.arrival_time {
        assert forall|i: int| 0 <= i < r.len() implies (#[trigger] r[i]).arrival_time <= top by {
            if i < s.len() {
                assert(r[i] == s[i]);
            }
        }
    } else {
        let front = s.drop_last();
        assert forall|i: int| 0 <= i < front.len() implies (#[trigger] front[i]).arrival_time <= top by {
            assert(front[i] == s[i]);
        }
        lemma_placed_below(front, p, top);
        let inner = placed(front, p);
        assert(s[s.len() - 1].arrival_time <= top);
        assert forall|i: int| 0 <= i < r.len() implies (#[trigger] r[i]).arrival_time <= top by {
            if i < inner.len() {
                assert(r[i] == inner[i]);
            }
        }
    }
}

/// Sorting keeps the processes: their number, the burst time they need
/// together, their latest arrival and their validity; and what it returns
/// is sorted.
pub proof fn lemma_by_arrival_keeps(s: Seq<ProcessView>)
    ensures
        by_arrival(s).len() == s.len(),
        total_burst(by_arrival(s)) == total_burst(s),
        latest_arrival(by_arrival(s)) == latest_arrival(s),
        all_valid(by_arrival(s)) <==> all_valid(s),
        arrival_sorted(by_arrival(s)),
    decreases s.len(),
{
    if s.len() > 0 {
        let front = s.drop_last();
        lemma_by_arrival_keeps(front);
        lemma_placed_keeps(by_arrival(front), s.last());
        if all_valid(s) {
            assert(valid_process(s[s.len() - 1]));
            assert forall|i: int| 0 <= i < front.len() implies valid_process(#[trigger] front[i]) by {
                assert(valid_process(s[i]));
            }
        }
        if all_valid(front) && valid_process(s.last()) {
            assert forall|i: int| 0 <= i < s.len() implies valid_process(#[trigger] s[i]) by {
                if i < front.len() {
                    assert(valid_process(front[i]));
                }
            }
        }
    }
}

/// The processes by arrival time, earliest first, those that arrive
/// together in the order given.
pub fn sort_by_arrival(processes: &Vec<Process>) -> (sorted: Vec<Process>)
    ensures
        views(sorted@) == by_arrival(views(processes@)),
{
    let mut sorted: Vec<Process> = Vec::new();
    let mut i: usize = 0;
    proof {
        assert(views(processes@).take(0) =~= Seq::<ProcessView>::empty());
        assert(views(sorted@) =~= Seq::<ProcessView>::empty());
    }
    while i < processes.len()
        invariant
            i <= processes.len(),
            views(sorted@) == by_arrival(views(processes@).take(i as int)),
            sorted.len() == i,
        decreases processes.len() - i,
    {
        let p = processes[i].snapshot();
        let mut j: usize = sorted.len();
        while j > 0 && sorted[j - 1].arrival_time > p.arrival_time
            invariant
                j <= sorted.len(),
                forall|k: int| j <= k < sorted.len() ==> (#[trigger] sorted@[k]).arrival_time > p.arrival_time,
            decreases j,
        {
            j -= 1;
        }
        proof {
            let before = views(sorted@);
            assert forall|k: int| j <= k < before.len() implies (#[trigger] before[k]).arrival_time > p@.arrival_time by {
                assert(sorted@[k].arrival_time > p.arrival_time);
            }
            lemma_placed_at(before, p@, j as int);
            let done = views(processes@).take(i as int + 1);
            assert(done.drop_last() =~= views(processes@).take(i as int));
            assert(done.last() == p@);
            assert(views(sorted@.insert(j as int, p)) =~= before.insert(j as int, p@));
        }
        sorted.insert(j, p);
        i += 1;
    }
    proof {
        assert(views(processes@).take(i as int) =~= views(processes@));
    }
    sorted
}

} // verus!
