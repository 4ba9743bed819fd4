//! What the command line selects.

pub mod operations;
