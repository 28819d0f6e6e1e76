//! Core of a personal reminder daemon: a task registry with durable,
//! line-oriented persistence, a clock model deciding when reminders fire,
//! a scheduler model tracking which tasks hold a live timer, and the
//! context-switch rules that activate and deactivate subsets of tasks.
//!
//! Everything here is pure logic over plain values. Reading the system
//! clock, generating fresh task ids, file handling, sockets and desktop
//! notifications are left to the surrounding program, which hands results
//! in and out as plain values.

pub mod clock;
pub mod codec;
pub mod comm;
pub mod scheduler;
pub mod store;
pub mod strutil;
pub mod sys;
pub mod task;
pub mod task_manager;
pub mod textenc;

use vstd::prelude::*;

verus! {

/// Failures the library surfaces. `Validation` rejects malformed
/// client input before it reaches the manager; `NotFound` and
/// `Persistence` are ordinary, recoverable errors; `SchedulerUnavailable`
/// means the background scheduling context has died and the daemon
/// should stop accepting scheduling requests rather than lose them.
#[derive(Debug)]
pub enum FmnError {
    Validation(String),
    NotFound(String),
    Persistence(String),
    SchedulerUnavailable,
}

/// The message text carried by each error variant.
pub open spec fn spec_message(e: FmnError) -> Seq<char> {
    match e {
        FmnError::Validation(what) => "invalid input: "@ + what@,
        FmnError::NotFound(what) => "not found: "@ + what@,
        FmnError::Persistence(what) => "fail to persist: "@ + what@,
        FmnError::SchedulerUnavailable => "the scheduler is unavailable"@,
    }
}

impl FmnError {
    /// A human-readable description, naming what failed.
    pub fn message(&self) -> (r: String)
        ensures
            r@ == spec_message(*self),
    {
        match self {
            FmnError::Validation(what) => {
                String::from_str("invalid input: ").concat(what.as_str())
            },
            FmnError::NotFound(what) => {
                String::from_str("not found: ").concat(what.as_str())
            },
            FmnError::Persistence(what) => {
                String::from_str("fail to persist: ").concat(what.as_str())
            },
            FmnError::SchedulerUnavailable => {
                String::from_str("the scheduler is unavailable")
            },
        }
    }
}

} // verus!
