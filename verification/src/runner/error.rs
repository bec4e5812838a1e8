//! Errors raised while resolving, launching and supervising processes.

use vstd::prelude::*;

verus! {

/// A launch or supervision failure, carried as a message.
#[derive(Debug, PartialEq, Eq)]
pub struct ExecError {
    pub message: String,
}

impl ExecError {
    pub fn new(msg: &str) -> (r: ExecError)
        ensures
            r.message@ == msg@,
    {
        ExecError { message: msg.to_owned() }
    }
}

/// A failure of dependency resolution: either the declared dependencies form
/// a cycle, or one of them names no process in the pod.
#[derive(Debug, PartialEq, Eq)]
pub enum DependencyError {
    /// The dependency chain that closed on itself, joined for display.
    Cycle(String),
    /// The dependency label that no process in the pod is known under.
    Unknown(String),
}

/// Everything a pod run can fail with.
#[derive(Debug)]
pub enum Error {
    IOError(String),
    WaiterError(crate::waiter::error::Error),
    ExecError(ExecError),
    DependencyError(DependencyError),
    CanceledError,
    NeverInitializedError(String),
}

} // verus!
