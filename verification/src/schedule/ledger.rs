//! The burst time that a trace records as run by each process.

use vstd::prelude::*;
use crate::schedule::scheduler::{ProcessView, TimestampView};
use crate::schedule::totals::{arrived, lemma_arrived};
use crate::schedule::intake::{joined, waiting};
use crate::schedule::order::{placed, by_arrival};
use crate::schedule::roster::{Identity, identity, roster, ended, lemma_roster_remove};

verus! {

/// The burst time that the processes of `s` with the identity `id` need
/// together.
pub open spec fn demand(s: Seq<ProcessView>, id: Identity) -> int
    decreases s.len(),
{
    if s.len() == 0 {
        0
    } else if identity(s.last()) == id {
        demand(s.drop_last(), id) + s.last().burst_time
    } else {
        demand(s.drop_last(), id)
    }
}

/// What the process `id` still needs after `t`: the burst time left at the
/// last of its events, and `start` where it has none.
pub open spec fn left(t: Seq<TimestampView>, id: Identity, start: int) -> int
    decreases t.len(),
{
    if t.len() == 0 {
        start
    } else if identity(t.last().process) == id {
        t.last().process.burst_time
    } else {
        left(t.drop_last(), id, start)
    }
}

/// The burst time that `t` records as run by the process `id`, which needed
/// `start` at first: at each of its events, what it needed before the event
/// less what it needs after it.
pub open spec fn ran(t: Seq<TimestampView>, id: Identity, start: int) -> int
    decreases t.len(),
{
    if t.len() == 0 {
        0
    } else if identity(t.last().process) == id {
        ran(t.drop_last(), id, start) + left(t.drop_last(), id, start) - t.last().process.burst_time
    } else {
        ran(t.drop_last(), id, start)
    }
}

/// Each process of `s` that no other shares its identity with has run in
/// `t` for exactly the burst time it has in `s`.
pub open spec fn conserved(s: Seq<ProcessView>, t: Seq<TimestampView>) -> bool {
    forall|i: int|
        0 <= i < s.len() && roster(s).count(identity(#[trigger] s[i])) == 1 ==> ran(
            t,
            identity(s[i]),
            s[i].burst_time,
        ) == s[i].burst_time
}

/// After `t`, each process that stands once in `input` still needs what the
/// processes of its identity in `backlog` and `ready` need.
pub open spec fn accounted(
    input: Seq<ProcessView>,
    t: Seq<TimestampView>,
    backlog: Seq<ProcessView>,
    ready: Seq<ProcessView>,
) -> bool {
    forall|id: Identity| #[trigger]
        roster(input).count(id) == 1 ==> left(t, id, demand(input, id)) == demand(backlog, id) + demand(ready, id)
}

/// No identity stands more often in `backlog` and `ready` than in `input`.
pub open spec fn within(input: Seq<ProcessView>, backlog: Seq<ProcessView>, ready: Seq<ProcessView>) -> bool {
    forall|id: Identity| #[trigger]
        roster(input).count(id) >= roster(backlog).count(id) + roster(ready).count(id)
}

/// What a trace records as run is what was needed at first less what is
/// still needed.
pub proof fn lemma_ran(t: Seq<TimestampView>, id: Identity, start: int)
    ensures
        ran(t, id, start) == start - left(t, id, start),
    decreases t.len(),
{
    if t.len() > 0 {
        lemma_ran(t.drop_last(), id, start);
    }
}

/// What two lists need for `id` is what each needs for it.
pub proof fn lemma_demand_concat(a: Seq<ProcessView>, b: Seq<ProcessView>, id: Identity)
    ensures
        demand(a + b, id) == demand(a, id) + demand(b, id),
    decreases b.len(),
{
    if b.len() == 0 {
        assert(a + b =~= a);
    } else {
        lemma_demand_concat(a, b.drop_last(), id);
        assert((a + b).drop_last() =~= a + b.drop_last());
        assert((a + b).last() == b.last());
    }
}

/// A single process needs its burst time for its own identity, and nothing for another.
pub proof fn lemma_demand_one(p: ProcessView, id: Identity)
    ensures
        demand(seq![p], id) == if identity(p) == id {
            p.burst_time
        } else {
            0
        },
{
    let none = Seq::<ProcessView>::empty();
    assert(seq![p].drop_last() =~= none);
    assert(demand(none, id) == 0);
}

/// A list needs for `id` what is left without the process at `i` needs, and what that process needs.
pub proof fn lemma_demand_remove(s: Seq<ProcessView>, i: int, id: Identity)
    requires
        0 <= i < s.len(),
    ensures
        demand(s, id) == demand(s.remove(i), id) + if identity(s[i]) == id {
            s[i].burst_time
        } else {
            0
        },
{
    let front = s.take(i);
    let back = s.skip(i + 1);
    assert(s =~= (front + seq![s[i]]) + back);
    assert(s.remove(i) =~= front + back);
    lemma_demand_concat(front + seq![s[i]], back, id);
    lemma_demand_concat(front, seq![s[i]], id);
    lemma_demand_one(s[i], id);
    lemma_demand_concat(front, back, id);
}

/// Processes among which `id` does not stand need nothing for it.
pub proof fn lemma_demand_none(s: Seq<ProcessView>, id: Identity)
    requires
        roster(s).count(id) == 0,
    ensures
        demand(s, id) == 0,
    decreases s.len(),
{
    if s.len() > 0 {
        lemma_demand_none(s.drop_last(), id);
    }
}

/// The move of the arrived processes changes nothing in what is needed for any identity.
pub proof fn lemma_demand_moved(backlog: Seq<ProcessView>, ready: Seq<ProcessView>, time: int)
    ensures
        forall|id: Identity| #[trigger]
            demand(waiting(backlog, time), id) + demand(joined(backlog, ready, time), id) == demand(backlog, id)
                + demand(ready, id),
{
    lemma_arrived(backlog, time);
    let k = arrived(backlog, time) as int;
    assert(backlog.take(k) + backlog.skip(k) =~= backlog);
    assert forall|id: Identity| #[trigger]
        demand(waiting(backlog, time), id) + demand(joined(backlog, ready, time), id) == demand(backlog, id)
            + demand(ready, id) by {
        lemma_demand_concat(ready, backlog.take(k), id);
        lemma_demand_concat(backlog.take(k), backlog.skip(k), id);
    }
}

/// One more process at the back adds what it needs, for its own identity.
pub proof fn lemma_demand_push(s: Seq<ProcessView>, p: ProcessView)
    ensures
        forall|id: Identity| #[trigger]
            demand(s.push(p), id) == demand(s, id) + if identity(p) == id {
                p.burst_time
            } else {
                0
            },
{
    assert(s.push(p).drop_last() =~= s);
}

/// A process put in the place of the one at `i` needs what it needs in place of the other.
pub proof fn lemma_demand_update(s: Seq<ProcessView>, i: int, p: ProcessView)
    requires
        0 <= i < s.len(),
    ensures
        forall|id: Identity| #[trigger]
            demand(s.update(i, p), id) == demand(s.remove(i), id) + if identity(p) == id {
                p.burst_time
            } else {
                0
            },
{
    assert(s.update(i, p).remove(i) =~= s.remove(i));
    assert forall|id: Identity| #[trigger]
        demand(s.update(i, p), id) == demand(s.remove(i), id) + if identity(p) == id {
            p.burst_time
        } else {
            0
        } by {
        lemma_demand_remove(s.update(i, p), i, id);
    }
}

/// A process placed by its arrival adds what it needs, for its own identity.
proof fn lemma_demand_placed(s: Seq<ProcessView>, p: ProcessView, id: Identity)
    ensures
        demand(placed(s, p), id) == demand(s, id) + if identity(p) == id {
            p.burst_time
        } else {
            0
        },
    decreases s.len(),
{
    if s.len() == 0 || s.last().arrival_time <= p.arrival_time {
        assert(s.push(p).drop_last() =~= s);
    } else {
        lemma_demand_placed(s.drop_last(), p, id);
        assert(placed(s.drop_last(), p).push(s.last()).drop_last() =~= placed(s.drop_last(), p));
    }
}

/// Sorting by arrival changes nothing in what is needed for `id`.
proof fn lemma_demand_by_arrival(s: Seq<ProcessView>, id: Identity)
    ensures
        demand(by_arrival(s), id) == demand(s, id),
    decreases s.len(),
{
    if s.len() > 0 {
        lemma_demand_by_arrival(s.drop_last(), id);
        lemma_demand_placed(by_arrival(s.drop_last()), s.last(), id);
    }
}

/// Where the processes that ended and those still there are the processes
/// given, none stands more often among those still there than it was given.
pub proof fn lemma_within(
    input: Seq<ProcessView>,
    t: Seq<TimestampView>,
    backlog: Seq<ProcessView>,
    ready: Seq<ProcessView>,
)
    requires
        ended(t).add(roster(backlog).add(roster(ready))) == roster(input),
    ensures
        within(input, backlog, ready),
{
    assert forall|id: Identity| #[trigger]
        roster(input).count(id) >= roster(backlog).count(id) + roster(ready).count(id) by {
        assert(ended(t).add(roster(backlog).add(roster(ready))).count(id) == ended(t).count(id) + roster(
            backlog,
        ).add(roster(ready)).count(id));
    }
}

/// Before anything has run, each process needs what it was given.
pub proof fn lemma_accounted_start(input: Seq<ProcessView>)
    ensures
        accounted(input, Seq::empty(), by_arrival(input), Seq::empty()),
{
    assert forall|id: Identity| #[trigger]
        roster(input).count(id) == 1 implies left(Seq::<TimestampView>::empty(), id, demand(input, id)) == demand(
        by_arrival(input),
        id,
    ) + demand(Seq::<ProcessView>::empty(), id) by {
        lemma_demand_by_arrival(input, id);
    }
}

/// The move of the arrived processes changes nothing in what each process
/// still needs.
pub proof fn lemma_accounted_moved(
    input: Seq<ProcessView>,
    t: Seq<TimestampView>,
    backlog: Seq<ProcessView>,
    ready: Seq<ProcessView>,
    time: int,
)
    requires
        accounted(input, t, backlog, ready),
    ensures
        accounted(input, t, waiting(backlog, time), joined(backlog, ready, time)),
{
    lemma_demand_moved(backlog, ready, time);
    assert forall|id: Identity| #[trigger]
        roster(input).count(id) == 1 implies left(t, id, demand(input, id)) == demand(waiting(backlog, time), id)
        + demand(joined(backlog, ready, time), id) by {
        assert(demand(waiting(backlog, time), id) + demand(joined(backlog, ready, time), id) == demand(backlog, id)
            + demand(ready, id));
    }
}

/// One event of the process at place `i` of `ready`, after which it needs
/// what the event shows, and the other processes what they needed.
pub proof fn lemma_accounted_step(
    input: Seq<ProcessView>,
    t: Seq<TimestampView>,
    backlog: Seq<ProcessView>,
    ready: Seq<ProcessView>,
    i: int,
    e: TimestampView,
    backlog2: Seq<ProcessView>,
    ready2: Seq<ProcessView>,
)
    requires
        accounted(input, t, backlog, ready),
        within(input, backlog, ready),
        0 <= i < ready.len(),
        identity(e.process) == identity(ready[i]),
        forall|id: Identity| #[trigger]
            demand(backlog2, id) + demand(ready2, id) == demand(backlog, id) + demand(ready.remove(i), id) + if id
                == identity(ready[i]) {
                e.process.burst_time
            } else {
                0
            },
    ensures
        accounted(input, t.push(e), backlog2, ready2),
{
    let after = t.push(e);
    assert(after.drop_last() =~= t);
    let own = identity(ready[i]);
    lemma_roster_remove(ready, i);
    assert forall|id: Identity| #[trigger]
        roster(input).count(id) == 1 implies left(after, id, demand(input, id)) == demand(backlog2, id) + demand(
        ready2,
        id,
    ) by {
        lemma_demand_remove(ready, i, id);
        assert(demand(backlog2, id) + demand(ready2, id) == demand(backlog, id) + demand(ready.remove(i), id) + if id
            == own {
            e.process.burst_time
        } else {
            0
        });
        if id == own {
            assert(roster(input).count(id) >= roster(backlog).count(id) + roster(ready).count(id));
            lemma_demand_none(backlog, id);
            lemma_demand_none(ready.remove(i), id);
        }
    }
}

/// Once nothing is left to run, each process that stands once among those
/// given has run for what it was given.
pub proof fn lemma_accounted_end(input: Seq<ProcessView>, t: Seq<TimestampView>)
    requires
        accounted(input, t, Seq::empty(), Seq::empty()),
    ensures
        conserved(input, t),
{
    assert forall|i: int| 0 <= i < input.len() && roster(input).count(identity(#[trigger] input[i])) == 1 implies ran(
        t,
        identity(input[i]),
        input[i].burst_time,
    ) == input[i].burst_time by {
        let id = identity(input[i]);
        lemma_demand_remove(input, i, id);
        lemma_roster_remove(input, i);
        lemma_demand_none(input.remove(i), id);
        lemma_ran(t, id, input[i].burst_time);
        assert(demand(Seq::<ProcessView>::empty(), id) == 0);
    }
}

} // verus!
