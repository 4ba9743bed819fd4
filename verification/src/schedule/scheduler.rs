//! Processes, events and the scheduler, with their mathematical values.

use vstd::prelude::*;
use crate::config::parser::{Config, MAX_PROCESSES};

verus! {

/// The mathematical value of a [`Process`].
pub struct ProcessView {
    pub name: Seq<char>,
    pub burst_time: int,
    pub arrival_time: int,
    pub waiting_time: int,
}

/// A simulated task: its label, the burst time it still needs, the time at
/// which it becomes eligible and the time it has waited.
#[derive(Clone, Debug)]
pub struct Process {
    pub name: String,
    pub burst_time: i32,
    pub arrival_time: i64,
    pub waiting_time: i64,
}

impl View for Process {
    type V = ProcessView;

    open spec fn view(&self) -> ProcessView {
        ProcessView {
            name: self.name@,
            burst_time: self.burst_time as int,
            arrival_time: self.arrival_time as int,
            waiting_time: self.waiting_time as int,
        }
    }
}

/// The mathematical value of a [`Timestamp`].
pub struct TimestampView {
    pub time: int,
    pub process: ProcessView,
}

/// One event of a trace: the simulated time at which a slice ended and the
/// process as it stood at that moment.
#[derive(Debug)]
pub struct Timestamp {
    pub time: i64,
    pub process: Process,
}

impl View for Timestamp {
    type V = TimestampView;

    open spec fn view(&self) -> TimestampView {
        TimestampView { time: self.time as int, process: self.process@ }
    }
}

/// The engine of the feedback queue: the simulated clock and the trace so far.
pub struct Scheduler {
    pub time: i64,
    pub timestamps: Vec<Timestamp>,
}

/// Why a simulation was refused.
#[derive(Clone, Copy, Debug, PartialEq, Eq, Structural)]
pub enum ScheduleError {
    /// A quantum was zero or negative.
    InvalidParameter,
    /// A process has a negative arrival time or no burst time left.
    InvalidProcess,
    /// The simulated clock would pass the largest time that it can hold.
    ClockOverflow,
}

/// The values of a list of processes, in the list's order.
pub open spec fn views(s: Seq<Process>) -> Seq<ProcessView> {
    s.map_values(|p: Process| p@)
}

/// The values of a trace's events, in the trace's order.
pub open spec fn trace_view(s: Seq<Timestamp>) -> Seq<TimestampView> {
    s.map_values(|t: Timestamp| t@)
}

/// The process `p` with `left` as its remaining burst time.
pub open spec fn with_burst(p: ProcessView, left: int) -> ProcessView {
    ProcessView { burst_time: left, ..p }
}

/// The process `p` with `waited` as its waiting time.
pub open spec fn with_waiting(p: ProcessView, waited: int) -> ProcessView {
    ProcessView { waiting_time: waited, ..p }
}

/// The event that `p` stood as it is at `time`.
pub open spec fn event(time: int, p: ProcessView) -> TimestampView {
    TimestampView { time, process: p }
}

/// A process that may be scheduled: it arrives at a time that is not
/// negative and still needs the processor.
pub open spec fn valid_process(p: ProcessView) -> bool {
    p.arrival_time >= 0 && p.burst_time > 0
}

/// Every process of `s` is valid.
pub open spec fn all_valid(s: Seq<ProcessView>) -> bool {
    forall|i: int| 0 <= i < s.len() ==> valid_process(#[trigger] s[i])
}

/// The letter that names the process configured at place `i`: `A` for the
/// first, `B` for the second, and so on.
pub open spec fn letter(i: int) -> char {
    ((65 + i) as u8) as char
}

/// The string that holds `c` and nothing else.
///
/// Calls `to_string` of std on a `char`, which this contract takes to return
/// the string of that one character.
#[verifier::external_body]
fn letter_name(c: char) -> (s: String)
    ensures
        s@ == seq![c],
{
    c.to_string()
}

impl Process {
    /// The processes of a configuration, in its order: each named by its
    /// letter, with its service time still to run and no time waited.
    pub fn from(config: &Config) -> (processes: Vec<Process>)
        requires
            config.service_times@.len() <= MAX_PROCESSES,
            config.service_times@.len() <= config.arrival_times@.len(),
        ensures
            processes@.len() == config.service_times@.len(),
            forall|i: int|
                0 <= i < processes@.len() ==> (#[trigger] processes@[i])@ == (ProcessView {
                    name: seq![letter(i)],
                    burst_time: config.service_times@[i] as int,
                    arrival_time: config.arrival_times@[i] as int,
                    waiting_time: 0,
                }),
    {
        let mut processes: Vec<Process> = Vec::new();
        let mut i: usize = 0;
        while i < config.service_times.len()
            invariant
                i <= config.service_times@.len(),
                config.service_times@.len() <= MAX_PROCESSES,
                config.service_times@.len() <= config.arrival_times@.len(),
                processes@.len() == i,
                forall|k: int|
                    0 <= k < i ==> (#[trigger] processes@[k])@ == (ProcessView {
                        name: seq![letter(k)],
                        burst_time: config.service_times@[k] as int,
                        arrival_time: config.arrival_times@[k] as int,
                        waiting_time: 0,
                    }),
            decreases config.service_times@.len() - i,
        {
            let code: u8 = 65u8 + i as u8;
            processes.push(
                Process {
                    name: letter_name(code as char),
                    burst_time: config.service_times[i],
                    arrival_time: config.arrival_times[i],
                    waiting_time: 0,
                },
            );
            i += 1;
        }
        processes
    }

    /// A copy of the process as it stands now.
    pub fn snapshot(&self) -> (r: Process)
        ensures
            r == *self,
    {
        Process {
            name: self.name.clone(),
            burst_time: self.burst_time,
            arrival_time: self.arrival_time,
            waiting_time: self.waiting_time,
        }
    }
}

} // verus!
