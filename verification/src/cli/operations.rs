//! The options of the command line.

use vstd::prelude::*;

verus! {

/// What the command line selects: the place of the configuration, if one was given.
#[derive(Debug)]
pub struct Operations {
    pub config: Option<String>,
}

} // verus!
