//! The top-level error: everything a whole run can fail with.

use vstd::prelude::*;

verus! {

/// A run fails on I/O around task files, in the waiter, or in the runner.
#[derive(Debug)]
pub enum Error {
    IOError(String),
    WaiterError(crate::waiter::error::Error),
    RunnerError(crate::runner::error::Error),
}

} // verus!
