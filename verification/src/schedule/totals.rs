//! Sums and bounds over lists of processes: the burst time they need, their
//! latest arrival, and how many have arrived.

use vstd::prelude::*;
use crate::schedule::scheduler::{ProcessView, all_valid, valid_process};

verus! {

/// The burst time that the processes of `s` need together.
pub open spec fn total_burst(s: Seq<ProcessView>) -> int
    decreases s.len(),
{
    if s.len() == 0 {
        0
    } else {
        total_burst(s.drop_last()) + s.last().burst_time
    }
}

/// The latest arrival time in `s`, and 0 where `s` is empty.
pub open spec fn latest_arrival(s: Seq<ProcessView>) -> int
    decreases s.len(),
{
    if s.len() == 0 {
        0
    } else if latest_arrival(s.drop_last()) >= s.last().arrival_time {
        latest_arrival(s.drop_last())
    } else {
        s.last().arrival_time
    }
}

/// The number of processes at the head of `backlog` that have arrived by `time`.
pub open spec fn arrived(backlog: Seq<ProcessView>, time: int) -> nat
    decreases backlog.len(),
{
    if backlog.len() == 0 || backlog[0].arrival_time > time {
        0
    } else {
        1 + arrived(backlog.drop_first(), time)
    }
}

/// The ticks until the head of `backlog` arrives, and 0 where it has arrived
/// or there is none.
pub open spec fn idle_gap(backlog: Seq<ProcessView>, time: int) -> int {
    if backlog.len() > 0 && backlog[0].arrival_time > time {
        backlog[0].arrival_time - time
    } else {
        0
    }
}

/// Two lists need together what each needs.
pub proof fn lemma_total_concat(a: Seq<ProcessView>, b: Seq<ProcessView>)
    ensures
        total_burst(a + b) == total_burst(a) + total_burst(b),
    decreases b.len(),
{
    if b.len() == 0 {
        assert(a + b =~= a);
    } else {
        lemma_total_concat(a, b.drop_last());
        assert((a + b).drop_last() =~= a + b.drop_last());
        assert((a + b).last() == b.last());
    }
}

/// A list needs what its first `k` processes and the others need.
pub proof fn lemma_total_split(s: Seq<ProcessView>, k: int)
    requires
        0 <= k <= s.len(),
    ensures
        total_burst(s) == total_burst(s.take(k)) + total_burst(s.skip(k)),
{
    lemma_total_concat(s.take(k), s.skip(k));
    assert(s.take(k) + s.skip(k) =~= s);
}

/// A single process needs its burst time.
pub proof fn lemma_total_one(p: ProcessView)
    ensures
        total_burst(seq![p]) == p.burst_time,
{
    assert(seq![p].drop_last() =~= Seq::<ProcessView>::empty());
    assert(total_burst(Seq::<ProcessView>::empty()) == 0);
}

/// Without the process at `i` a list needs that much less.
pub proof fn lemma_total_remove(s: Seq<ProcessView>, i: int)
    requires
        0 <= i < s.len(),
    ensures
        total_burst(s.remove(i)) == total_burst(s) - s[i].burst_time,
{
    lemma_total_split(s, i);
    lemma_total_split(s.skip(i), 1);
    assert(s.skip(i).take(1) =~= seq![s[i]]);
    lemma_total_one(s[i]);
    assert(s.skip(i).skip(1) =~= s.skip(i + 1));
    assert(s.remove(i) =~= s.take(i) + s.skip(i + 1));
    lemma_total_concat(s.take(i), s.skip(i + 1));
}

/// A process put in the place of the one at `i` changes what the list needs by the difference.
pub proof fn lemma_total_update(s: Seq<ProcessView>, i: int, p: ProcessView)
    requires
        0 <= i < s.len(),
    ensures
        total_burst(s.update(i, p)) == total_burst(s) - s[i].burst_time + p.burst_time,
{
    lemma_total_remove(s, i);
    lemma_total_remove(s.update(i, p), i);
    assert(s.update(i, p).remove(i) =~= s.remove(i));
}

/// Valid processes need at least one tick each.
pub proof fn lemma_total_valid(s: Seq<ProcessView>)
    requires
        all_valid(s),
    ensures
        total_burst(s) >= s.len(),
    decreases s.len(),
{
    if s.len() > 0 {
        assert(valid_process(s[s.len() - 1]));
        lemma_total_valid(s.drop_last());
    }
}

/// No process arrives later than the latest arrival, which is not negative.
pub proof fn lemma_latest_bounds(s: Seq<ProcessView>, i: int)
    requires
        0 <= i < s.len(),
    ensures
        s[i].arrival_time <= latest_arrival(s),
        0 <= latest_arrival(s),
    decreases s.len(),
{
    if i < s.len() - 1 {
        lemma_latest_bounds(s.drop_last(), i);
    } else if s.len() > 1 {
        lemma_latest_bounds(s.drop_last(), 0);
    }
}

/// The processes counted as arrived have arrived, and the one behind them has not.
pub proof fn lemma_arrived(backlog: Seq<ProcessView>, time: int)
    ensures
        arrived(backlog, time) <= backlog.len(),
        forall|i: int| 0 <= i < arrived(backlog, time) ==> (#[trigger] backlog[i]).arrival_time <= time,
        arrived(backlog, time) < backlog.len() ==> backlog[arrived(backlog, time) as int].arrival_time > time,
    decreases backlog.len(),
{
    if backlog.len() == 0 || backlog[0].arrival_time > time {
    } else {
        let rest = backlog.drop_first();
        lemma_arrived(rest, time);
        assert forall|i: int| 0 <= i < arrived(backlog, time) implies (#[trigger] backlog[i]).arrival_time <= time by {
            if i > 0 {
                assert(backlog[i] == rest[i - 1]);
            }
        }
        if arrived(backlog, time) < backlog.len() {
            assert(backlog[arrived(backlog, time) as int] == rest[arrived(rest, time) as int]);
        }
    }
}

} // verus!
