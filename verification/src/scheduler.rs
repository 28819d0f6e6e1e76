//! The scheduling model: which task ids hold a live timer, the queue of
//! commands bound for the dispatch loop, and the per-task timer state
//! machine. The surrounding program drains the command queue into its
//! dispatch channel and runs one concurrent timer unit per task; every
//! decision a timer unit takes goes through `timer_step`, so what a
//! timer may do is fixed here.

use vstd::prelude::*;

use crate::FmnError;
use crate::clock::{ClockType, spec_is_due};
use crate::task::{Task, TaskID};

verus! {

/// What a timer unit can receive over its cancellation channel.
#[derive(Clone, Copy, Debug, PartialEq, Eq, Structural)]
pub enum TaskCommand {
    Stop,
    Cancel,
}

/// One request serialized through the scheduler's dispatch path.
pub enum SchedulerCommand {
    Add(Task),
    Cancel(Task),
}

#[verifier::external_type_specification]
#[verifier::external_body]
pub struct ExRecvError(tokio::sync::broadcast::error::RecvError);

/// Whether the outcome of a receive on the cancellation channel ends
/// the timer unit: every command does, and so does a channel error
/// (a closed or lagged channel means the timer can no longer be
/// cancelled, so it must not keep running).
pub fn is_removed(val: Result<TaskCommand, tokio::sync::broadcast::error::RecvError>) -> (r: bool)
    ensures
        r == match val {
            Ok(TaskCommand::Stop) => true,
            Ok(TaskCommand::Cancel) => true,
            Err(_) => true,
        },
{
    match val {
        Ok(command) => match command {
            TaskCommand::Stop => true,
            TaskCommand::Cancel => true,
        },
        Err(_) => true,
    }
}

// ---------------------------------------------------------------------
// The per-task timer state machine.
// ---------------------------------------------------------------------

/// The lifecycle of one timer unit. `Fired` and `Cancelled` are
/// terminal: the unit exits and its task can never notify again. Only
/// a one-shot clock ever reaches `Fired`; daily and periodic clocks
/// recur, so they leave `Armed` only through cancellation.
#[derive(Clone, Copy, Debug, PartialEq, Eq, Structural)]
pub enum TimerState {
    Armed,
    Fired,
    Cancelled,
}

/// The two events an armed timer races: its cancellation signal, and
/// the end of one bounded sleep.
#[derive(Clone, Copy, Debug, PartialEq, Eq, Structural)]
pub enum TimerEvent {
    Signal,
    Wake,
}

/// Whether a wake at `now` makes the timer notify. A periodic clock
/// notifies on every wake, because its sleep interval is the period
/// itself; a one-shot clock notifies once its time has passed; a daily
/// clock notifies during the local minute it names.
pub open spec fn spec_fires_on_wake(c: ClockType, now: int, offset: int) -> bool {
    match c {
        ClockType::Period(_) => true,
        _ => spec_is_due(c, now, offset),
    }
}

/// The outcome of one timer transition: the next state, and whether a
/// notification is produced now.
pub struct TimerStep {
    pub state: TimerState,
    pub notify: bool,
}

/// One transition of an armed timer on `event`, at time `now` under
/// timezone `offset`. Cancellation always wins: a signal never
/// notifies, even when the clock is simultaneously due. A one-shot
/// clock that notifies becomes `Fired` and never runs again; a daily
/// clock notifies and re-arms, so it fires again the next day; a
/// periodic clock notifies on every wake. Both recurring clocks stay
/// armed until cancelled.
pub fn timer_step(clock: &ClockType, event: TimerEvent, now: i64, offset: i64) -> (r: TimerStep)
    ensures
        event == TimerEvent::Signal ==> r.state == TimerState::Cancelled && !r.notify,
        event == TimerEvent::Wake ==> r.notify == spec_fires_on_wake(*clock, now as int,
        offset as int),
        event == TimerEvent::Wake && r.notify && (clock is Once) ==> r.state == TimerState::Fired,
        event == TimerEvent::Wake && (!(clock is Once) || !r.notify) ==> r.state
            == TimerState::Armed,
{
    match event {
        TimerEvent::Signal => TimerStep { state: TimerState::Cancelled, notify: false },
        TimerEvent::Wake => {
            match clock {
                ClockType::Period(_) => TimerStep { state: TimerState::Armed, notify: true },
                ClockType::OncePerDay(_, _) => TimerStep {
                    state: TimerState::Armed,
                    notify: clock.is_due(now, offset),
                },
                ClockType::Once(_) => {
                    if clock.is_due(now, offset) {
                        TimerStep { state: TimerState::Fired, notify: true }
                    } else {
                        TimerStep { state: TimerState::Armed, notify: false }
                    }
                },
            }
        },
    }
}

/// Seconds to the timer's next wake: never more than thirty seconds
/// for a one-shot clock (so a system suspend cannot push a firing far
/// past its time), one minute for a daily clock, and the period itself
/// for a periodic clock.
pub fn wake_interval(clock: &ClockType, now: i64) -> (r: u64)
    ensures
        match *clock {
            ClockType::Once(fire_at) => r == if fire_at - now <= 0 {
                0int
            } else if fire_at - now < 30 {
                fire_at - now
            } else {
                30int
            },
            ClockType::OncePerDay(_, _) => r == 60,
            ClockType::Period(secs) => r == secs,
        },
{
    match clock {
        ClockType::Once(fire_at) => {
            let diff: i128 = *fire_at as i128 - now as i128;
            if diff <= 0 {
                0
            } else if diff < 30 {
                diff as u64
            } else {
                30
            }
        },
        ClockType::OncePerDay(_, _) => 60,
        ClockType::Period(secs) => *secs,
    }
}

// ---------------------------------------------------------------------
// The scheduler: single-writer dispatch over a table of live timers.
// ---------------------------------------------------------------------

/// The scheduler's decision state. `pending` is the queue of commands
/// bound for the dispatch loop, which the surrounding program drains
/// after every operation. `live` abstracts the table of timers: the set
/// of task ids that have been activated and not cancelled, i.e. the
/// ids whose timer may still fire.
pub struct Scheduler {
    pub pending: Vec<SchedulerCommand>,
    pub live: Ghost<Set<Seq<char>>>,
}

impl Scheduler {
    /// The ids whose timer may still fire.
    pub open spec fn live_ids(&self) -> Set<Seq<char>> {
        self.live@
    }

    /// A scheduler with no live timers and nothing queued.
    pub fn new() -> (s: Self)
        ensures
            s.live_ids() == Set::<Seq<char>>::empty(),
            s.pending@.len() == 0,
    {
        Scheduler { pending: Vec::new(), live: Ghost(Set::empty()) }
    }

    /// Register a live timer for `task`: at most one per task id, so a
    /// second registration of the same id changes nothing.
    pub fn add_task(&mut self, task: Task) -> (r: Result<(), FmnError>)
        ensures
            r is Ok,
            final(self).live_ids() == old(self).live_ids().insert(task@.task_id),
            final(self).pending@ == old(self).pending@.push(SchedulerCommand::Add(task)),
    {
        proof {
            self.live@ = self.live@.insert(task@.task_id);
        }
        self.pending.push(SchedulerCommand::Add(task));
        Ok(())
    }

    /// Signal the timer for `task` to stop. Cancelling an id without a
    /// live timer (already fired, already cancelled, or never known) is
    /// a no-op, not an error.
    pub fn cancel_task(&mut self, task: Task) -> (r: Result<(), FmnError>)
        ensures
            r is Ok,
            final(self).live_ids() == old(self).live_ids().remove(task@.task_id),
            final(self).pending@ == old(self).pending@.push(SchedulerCommand::Cancel(task)),
    {
        proof {
            self.live@ = self.live@.remove(task@.task_id);
        }
        self.pending.push(SchedulerCommand::Cancel(task));
        Ok(())
    }

    /// Note that the timers of some ids have reached a terminal state
    /// on their own (a one-shot timer fires once and exits), shrinking
    /// the live table to `target`. No command is queued: a terminal
    /// timer needs no signal.
    pub fn retire_to(&mut self, target: Ghost<Set<Seq<char>>>)
        requires
            target@.subset_of(old(self).live_ids()),
        ensures
            final(self).live_ids() == target@,
            final(self).pending@ == old(self).pending@,
    {
        proof {
            self.live@ = target@;
        }
    }

    /// Hand the queued commands to the dispatch loop.
    pub fn take_pending(&mut self) -> (r: Vec<SchedulerCommand>)
        ensures
            r@ == old(self).pending@,
            final(self).pending@.len() == 0,
            final(self).live_ids() == old(self).live_ids(),
    {
        let mut drained: Vec<SchedulerCommand> = Vec::new();
        core::mem::swap(&mut drained, &mut self.pending);
        drained
    }
}

} // verus!
