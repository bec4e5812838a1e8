//! psctl is an operator for small fleets of interdependent local processes.
//!
//! A pod of processes is declared either inline (`label +deps: command=check`)
//! or through a task file. The dependency resolver orders startup so that every
//! declared dependency is available before its dependents start, the waiter
//! decides when a process counts as available from its readiness checks, and
//! the pod supervises the running fleet until the first exit or a cancellation.
//!
//! This crate holds the decision logic: parsing, ordering, readiness and
//! supervision policies, each with a proved contract. Spawning, signalling and
//! stream plumbing are left to the embedding program.

mod strutil;

pub mod config;
pub mod error;
pub mod runner;
pub mod waiter;
