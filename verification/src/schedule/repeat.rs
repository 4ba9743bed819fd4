//! Runs that are repeated.

use vstd::prelude::*;
use crate::schedule::scheduler::{Process, views};
use crate::schedule::intake::refusal;
use crate::schedule::round_robin::rr_trace;
use crate::schedule::srtn::srtn_trace;
use crate::schedule::hrrn::hrrn_trace;
use crate::schedule::mlfq::{mlfq_trace, mlfq_end};
use crate::schedule::order::by_arrival;

verus! {

/// A second run gives what the first gave: two lists of processes of equal
/// value are refused alike, and have the same trace under each discipline
/// with the same quanta and the same start.
pub proof fn lemma_rerun(first: Seq<Process>, second: Seq<Process>, quantum1: int, quantum2: int, start: int)
    requires
        views(first) == views(second),
    ensures
        refusal(views(first), start, quantum1 > 0 && quantum2 > 0) == refusal(
            views(second),
            start,
            quantum1 > 0 && quantum2 > 0,
        ),
        rr_trace(views(first), quantum1) == rr_trace(views(second), quantum1),
        srtn_trace(views(first)) == srtn_trace(views(second)),
        hrrn_trace(views(first)) == hrrn_trace(views(second)),
        mlfq_trace(views(first), start, quantum1, quantum2) == mlfq_trace(views(second), start, quantum1, quantum2),
        mlfq_end(by_arrival(views(first)), start) == mlfq_end(by_arrival(views(second)), start),
{
}

} // verus!
