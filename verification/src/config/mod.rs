//! The configuration of a simulation.

pub mod parser;
