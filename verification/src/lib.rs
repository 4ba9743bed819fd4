//! Simulation of classical CPU-scheduling disciplines over a fixed set of
//! processes, each discipline producing an ordered trace of events.

pub mod cli;
pub mod config;
pub mod schedule;
