//! The scheduling disciplines, their traces and what holds of them.

pub mod scheduler;
pub mod totals;
pub mod order;
pub mod trace;
pub mod intake;
pub mod roster;
pub mod ledger;
pub mod round_robin;
pub mod srtn;
pub mod hrrn;
pub mod mlfq;
pub mod repeat;
