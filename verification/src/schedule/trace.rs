//! What is asked of a trace: that its times never go back and that no event
//! comes before the arrival of its process.

use vstd::prelude::*;
use crate::schedule::scheduler::TimestampView;

verus! {

/// No event of `t` is earlier than the arrival of its process.
pub open spec fn causal(t: Seq<TimestampView>) -> bool {
    forall|i: int| 0 <= i < t.len() ==> (#[trigger] t[i]).process.arrival_time <= t[i].time
}

/// The times of `t` never go back.
pub open spec fn chronological(t: Seq<TimestampView>) -> bool {
    forall|i: int, j: int| 0 <= i <= j < t.len() ==> t[i].time <= t[j].time
}

/// No event of `t` is later than `time`.
pub open spec fn not_after(t: Seq<TimestampView>, time: int) -> bool {
    forall|i: int| 0 <= i < t.len() ==> (#[trigger] t[i]).time <= time
}

/// The number of events of `t` at which a process had no burst time left.
pub open spec fn completions(t: Seq<TimestampView>) -> nat
    decreases t.len(),
{
    if t.len() == 0 {
        0
    } else if t.last().process.burst_time == 0 {
        completions(t.drop_last()) + 1
    } else {
        completions(t.drop_last())
    }
}

/// What one more event, no earlier than those before it, does to a trace.
pub proof fn lemma_trace_push(t: Seq<TimestampView>, e: TimestampView, before: int)
    requires
        causal(t),
        chronological(t),
        not_after(t, before),
        before <= e.time,
        e.process.arrival_time <= e.time,
    ensures
        causal(t.push(e)),
        chronological(t.push(e)),
        not_after(t.push(e), e.time),
        completions(t.push(e)) == completions(t) + if e.process.burst_time == 0 {
            1nat
        } else {
            0nat
        },
{
    let r = t.push(e);
    assert(r.drop_last() =~= t);
    assert forall|i: int| 0 <= i < r.len() implies (#[trigger] r[i]).time <= e.time && r[i].process.arrival_time <= r[i].time by {
        if i < t.len() {
            assert(r[i] == t[i]);
        }
    }
    assert forall|i: int, j: int| 0 <= i <= j < r.len() implies r[i].time <= r[j].time by {
        if j < t.len() {
            assert(t[i].time <= t[j].time);
        } else if i < t.len() {
            assert(r[i] == t[i]);
        }
    }
}

/// No event of `t` is earlier than `time`.
pub open spec fn not_before(t: Seq<TimestampView>, time: int) -> bool {
    forall|i: int| 0 <= i < t.len() ==> (#[trigger] t[i]).time >= time
}

/// What a trace that starts no earlier than another ends does to it when it
/// follows it.
pub proof fn lemma_trace_concat(a: Seq<TimestampView>, b: Seq<TimestampView>, mid: int)
    requires
        not_after(a, mid),
        not_before(b, mid),
    ensures
        causal(a) && causal(b) ==> causal(a + b),
        chronological(a) && chronological(b) ==> chronological(a + b),
        completions(a + b) == completions(a) + completions(b),
        forall|first: int| not_before(a, first) && first <= mid ==> not_before(a + b, first),
        forall|last: int| not_after(b, last) && mid <= last ==> not_after(a + b, last),
    decreases b.len(),
{
    let r = a + b;
    if b.len() == 0 {
        assert(r =~= a);
    } else {
        assert(r.drop_last() =~= a + b.drop_last());
        assert(r.last() == b.last());
        let front = b.drop_last();
        assert forall|i: int| 0 <= i < front.len() implies (#[trigger] front[i]).time >= mid by {
            assert(front[i] == b[i]);
        }
        lemma_trace_concat(a, front, mid);
    }
    if causal(a) && causal(b) {
        assert forall|i: int| 0 <= i < r.len() implies (#[trigger] r[i]).process.arrival_time <= r[i].time by {
            if i < a.len() {
                assert(r[i] == a[i]);
            } else {
                assert(r[i] == b[i - a.len()]);
            }
        }
    }
    if chronological(a) && chronological(b) {
        assert forall|i: int, j: int| 0 <= i <= j < r.len() implies r[i].time <= r[j].time by {
            if j < a.len() {
                assert(a[i].time <= a[j].time);
            } else if i < a.len() {
                assert(r[i] == a[i]);
                assert(r[j] == b[j - a.len()]);
            } else {
                assert(b[i - a.len()].time <= b[j - a.len()].time);
            }
        }
    }
    assert forall|first: int| not_before(a, first) && first <= mid implies not_before(a + b, first) by {
        assert forall|i: int| 0 <= i < r.len() implies (#[trigger] r[i]).time >= first by {
            if i < a.len() {
                assert(r[i] == a[i]);
            } else {
                assert(r[i] == b[i - a.len()]);
            }
        }
    }
    assert forall|last: int| not_after(b, last) && mid <= last implies not_after(a + b, last) by {
        assert forall|i: int| 0 <= i < r.len() implies (#[trigger] r[i]).time <= last by {
            if i < a.len() {
                assert(r[i] == a[i]);
            } else {
                assert(r[i] == b[i - a.len()]);
            }
        }
    }
}

/// The trace of one event.
pub proof fn lemma_trace_one(e: TimestampView)
    ensures
        causal(seq![e]) <==> e.process.arrival_time <= e.time,
        chronological(seq![e]),
        not_after(seq![e], e.time),
        not_before(seq![e], e.time),
        completions(seq![e]) == if e.process.burst_time == 0 {
            1nat
        } else {
            0nat
        },
{
    let s = seq![e];
    assert(s[0] == e);
    assert(s.drop_last() =~= Seq::<TimestampView>::empty());
    assert(completions(s.drop_last()) == 0);
}

/// A trace that is not after `time` is not after a later time.
pub proof fn lemma_not_after_later(t: Seq<TimestampView>, time: int, later: int)
    requires
        not_after(t, time),
        time <= later,
    ensures
        not_after(t, later),
{
    assert forall|i: int| 0 <= i < t.len() implies (#[trigger] t[i]).time <= later by {
        assert(t[i].time <= time);
    }
}

} // verus!
