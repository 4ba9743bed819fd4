//! Processes by identity: who is still to run and who has ended.

use vstd::prelude::*;
use vstd::multiset::Multiset;
use crate::schedule::scheduler::{ProcessView, TimestampView};
use crate::schedule::totals::{arrived, lemma_arrived};
use crate::schedule::intake::{joined, waiting};
use crate::schedule::order::{placed, by_arrival};

verus! {

/// What tells one process from another for as long as it runs: its name and
/// the time at which it arrives.
pub struct Identity {
    pub name: Seq<char>,
    pub arrival_time: int,
}

/// The identity of `p`.
pub open spec fn identity(p: ProcessView) -> Identity {
    Identity { name: p.name, arrival_time: p.arrival_time }
}

/// The processes of `s` by identity, each as often as it stands in `s`.
pub open spec fn roster(s: Seq<ProcessView>) -> Multiset<Identity>
    decreases s.len(),
{
    if s.len() == 0 {
        Multiset::empty()
    } else {
        roster(s.drop_last()).insert(identity(s.last()))
    }
}

/// The processes that end in `t`, by identity, each as often as `t` has an
/// event at which it has no burst time left.
pub open spec fn ended(t: Seq<TimestampView>) -> Multiset<Identity>
    decreases t.len(),
{
    if t.len() == 0 {
        Multiset::empty()
    } else if t.last().process.burst_time == 0 {
        ended(t.drop_last()).insert(identity(t.last().process))
    } else {
        ended(t.drop_last())
    }
}

/// One more process at the back is one more on the roster.
pub proof fn lemma_roster_push(s: Seq<ProcessView>, p: ProcessView)
    ensures
        roster(s.push(p)) == roster(s).insert(identity(p)),
{
    assert(s.push(p).drop_last() =~= s);
}

/// The roster of two lists is the rosters of both.
pub proof fn lemma_roster_concat(a: Seq<ProcessView>, b: Seq<ProcessView>)
    ensures
        roster(a + b) == roster(a).add(roster(b)),
    decreases b.len(),
{
    if b.len() == 0 {
        assert(a + b =~= a);
        assert(roster(a).add(roster(b)) =~= roster(a));
    } else {
        lemma_roster_concat(a, b.drop_last());
        assert((a + b).drop_last() =~= a + b.drop_last());
        assert((a + b).last() == b.last());
        assert(roster(a + b) =~= roster(a).add(roster(b)));
    }
}

/// The roster of a single process.
pub proof fn lemma_roster_one(p: ProcessView)
    ensures
        roster(seq![p]) == Multiset::<Identity>::empty().insert(identity(p)),
{
    let none = Seq::<ProcessView>::empty();
    assert(seq![p] =~= none.push(p));
    assert(roster(none) == Multiset::<Identity>::empty());
    lemma_roster_push(none, p);
}

/// A list holds the process at `i` and what is left without it.
pub proof fn lemma_roster_remove(s: Seq<ProcessView>, i: int)
    requires
        0 <= i < s.len(),
    ensures
        roster(s) == roster(s.remove(i)).insert(identity(s[i])),
{
    let front = s.take(i);
    let back = s.skip(i + 1);
    assert(s =~= (front + seq![s[i]]) + back);
    assert(s.remove(i) =~= front + back);
    lemma_roster_concat(front + seq![s[i]], back);
    lemma_roster_concat(front, seq![s[i]]);
    lemma_roster_one(s[i]);
    lemma_roster_concat(front, back);
    assert(roster(s) =~= roster(s.remove(i)).insert(identity(s[i])));
}

/// A process put in the place of one with the same identity leaves the
/// roster as it was.
pub proof fn lemma_roster_update(s: Seq<ProcessView>, i: int, p: ProcessView)
    requires
        0 <= i < s.len(),
        identity(p) == identity(s[i]),
    ensures
        roster(s.update(i, p)) == roster(s),
{
    lemma_roster_remove(s, i);
    lemma_roster_remove(s.update(i, p), i);
    assert(s.update(i, p).remove(i) =~= s.remove(i));
}

/// The move of the arrived processes keeps every process.
pub proof fn lemma_roster_moved(backlog: Seq<ProcessView>, ready: Seq<ProcessView>, time: int)
    ensures
        roster(waiting(backlog, time)).add(roster(joined(backlog, ready, time))) == roster(backlog).add(
            roster(ready),
        ),
{
    lemma_arrived(backlog, time);
    let k = arrived(backlog, time) as int;
    lemma_roster_concat(ready, backlog.take(k));
    lemma_roster_concat(backlog.take(k), backlog.skip(k));
    assert(backlog.take(k) + backlog.skip(k) =~= backlog);
    assert(roster(waiting(backlog, time)).add(roster(joined(backlog, ready, time))) =~= roster(backlog).add(
        roster(ready),
    ));
}

/// A process placed by its arrival is one more on the roster.
proof fn lemma_roster_placed(s: Seq<ProcessView>, p: ProcessView)
    ensures
        roster(placed(s, p)) == roster(s).insert(identity(p)),
    decreases s.len(),
{
    if s.len() == 0 || s.last().arrival_time <= p.arrival_time {
        lemma_roster_push(s, p);
    } else {
        lemma_roster_placed(s.drop_last(), p);
        lemma_roster_push(placed(s.drop_last(), p), s.last());
        assert(roster(placed(s, p)) =~= roster(s).insert(identity(p)));
    }
}

/// Sorting by arrival keeps every process.
pub proof fn lemma_roster_by_arrival(s: Seq<ProcessView>)
    ensures
        roster(by_arrival(s)) == roster(s),
    decreases s.len(),
{
    if s.len() > 0 {
        lemma_roster_by_arrival(s.drop_last());
        lemma_roster_placed(by_arrival(s.drop_last()), s.last());
    }
}

/// One more event ends its process where it shows no burst time left.
pub proof fn lemma_ended_push(t: Seq<TimestampView>, e: TimestampView)
    ensures
        ended(t.push(e)) == if e.process.burst_time == 0 {
            ended(t).insert(identity(e.process))
        } else {
            ended(t)
        },
{
    assert(t.push(e).drop_last() =~= t);
}

/// The processes that end in two traces, one after the other.
pub proof fn lemma_ended_concat(a: Seq<TimestampView>, b: Seq<TimestampView>)
    ensures
        ended(a + b) == ended(a).add(ended(b)),
    decreases b.len(),
{
    if b.len() == 0 {
        assert(a + b =~= a);
        assert(ended(a).add(ended(b)) =~= ended(a));
    } else {
        lemma_ended_concat(a, b.drop_last());
        assert((a + b).drop_last() =~= a + b.drop_last());
        assert((a + b).last() == b.last());
        assert(ended(a + b) =~= ended(a).add(ended(b)));
    }
}

/// The processes that end in a trace of one event.
pub proof fn lemma_ended_one(e: TimestampView)
    ensures
        ended(seq![e]) == if e.process.burst_time == 0 {
            Multiset::<Identity>::empty().insert(identity(e.process))
        } else {
            Multiset::<Identity>::empty()
        },
{
    let none = Seq::<TimestampView>::empty();
    assert(seq![e] =~= none.push(e));
    assert(ended(none) == Multiset::<Identity>::empty());
    lemma_ended_push(none, e);
}

} // verus!
