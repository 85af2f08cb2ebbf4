//! The `run` command: start the server on a descriptor directory.
use vstd::prelude::*;

verus! {

/// Options of the `run` command; it takes none of its own.
pub struct Run {}

impl Run {
    /// The run command runs the server with the given configuration.
    pub fn new() -> (r: Self)
        ensures
            r == (Run {}),
    {
        Self {}
    }
}

impl Default for Run {
    fn default() -> (r: Self)
        ensures
            r == (Run {}),
    {
        Self::new()
    }
}

} // verus!
