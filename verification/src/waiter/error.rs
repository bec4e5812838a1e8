//! Errors raised while waiting on readiness checks.

use vstd::prelude::*;

verus! {

/// A terminal failure of the waiter itself: an unsupported scheme, or a
/// deadline that expired before the probe passed.
#[derive(Debug, PartialEq, Eq)]
pub struct AwaitError {
    pub message: String,
}

impl AwaitError {
    pub fn new(msg: &str) -> (r: AwaitError)
        ensures
            r.message@ == msg@,
    {
        AwaitError { message: msg.to_owned() }
    }
}

/// Everything a readiness wait can fail with. Failures that originate outside
/// this crate (I/O, the HTTP client, the system clock) are carried as the
/// message they were reported with.
#[derive(Debug)]
pub enum Error {
    IOError(String),
    AwaitError(AwaitError),
    ParseURLError(String),
    ReqwestError(String),
    CommandError(String),
    SystemTimeError(String),
}

} // verus!
