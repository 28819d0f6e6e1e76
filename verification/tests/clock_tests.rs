use task_reminder::clock::ClockType;
use task_reminder::scheduler::{
    timer_step, wake_interval, Scheduler, SchedulerCommand, TimerEvent, TimerState,
};
use task_reminder::task::Task;
use task_reminder::scheduler::{is_removed, TaskCommand};
use task_reminder::sys::local_offset_seconds;
use task_reminder::FmnError;
use tokio::sync::broadcast::error::RecvError;

// 1_700_000_000 seconds after the epoch is 22:13:20 UTC.
const NOW: i64 = 1_700_000_000;

#[test]
fn once_is_due_when_time_has_passed() {
    let clock = ClockType::Once(NOW + 10);
    assert!(!clock.is_due(NOW, 0));
    assert!(!clock.is_due(NOW + 9, 0));
    assert!(clock.is_due(NOW + 10, 0));
    assert!(clock.is_due(NOW + 11, 0));
}

#[test]
fn period_is_never_due() {
    let clock = ClockType::Period(1);
    assert!(!clock.is_due(NOW, 0));
    assert!(!clock.is_due(NOW + 1_000_000, 0));
}

#[test]
fn once_per_day_matches_the_local_minute() {
    let clock = ClockType::OncePerDay(22, 13);
    assert!(clock.is_due(NOW, 0));
    assert!(clock.is_due(NOW + 39, 0)); // still 22:13
    assert!(!clock.is_due(NOW + 60, 0)); // 22:14
    // one hour east of UTC the wall clock reads 23:13
    assert!(!clock.is_due(NOW, 3600));
    assert!(ClockType::OncePerDay(23, 13).is_due(NOW, 3600));
}

#[test]
fn once_per_day_with_negative_offset_wraps_the_day() {
    // at the epoch, one hour west of UTC, the wall clock reads 23:00
    let clock = ClockType::OncePerDay(23, 0);
    assert!(clock.is_due(0, -3600));
    // and timestamps before the epoch behave the same way
    assert!(clock.is_due(-86400, -3600));
}

#[test]
fn timer_cancel_wins_over_a_due_clock() {
    // the clock is overdue, but a cancellation signal must not notify
    let clock = ClockType::Once(NOW - 5);
    let step = timer_step(&clock, TimerEvent::Signal, NOW, 0);
    assert_eq!(step.state, TimerState::Cancelled);
    assert!(!step.notify);
}

#[test]
fn timer_once_fires_once_and_exits() {
    let clock = ClockType::Once(NOW + 5);
    let early = timer_step(&clock, TimerEvent::Wake, NOW, 0);
    assert_eq!(early.state, TimerState::Armed);
    assert!(!early.notify);
    let due = timer_step(&clock, TimerEvent::Wake, NOW + 5, 0);
    assert_eq!(due.state, TimerState::Fired);
    assert!(due.notify);
}

#[test]
fn timer_period_notifies_and_stays_armed() {
    let clock = ClockType::Period(1);
    let step = timer_step(&clock, TimerEvent::Wake, NOW, 0);
    assert_eq!(step.state, TimerState::Armed);
    assert!(step.notify);
}

#[test]
fn timer_daily_fires_at_its_minute_and_rearms() {
    let clock = ClockType::OncePerDay(22, 13);
    let step = timer_step(&clock, TimerEvent::Wake, NOW, 0);
    assert_eq!(step.state, TimerState::Armed);
    assert!(step.notify);
    let off = timer_step(&clock, TimerEvent::Wake, NOW + 120, 0);
    assert_eq!(off.state, TimerState::Armed);
    assert!(!off.notify);
    // still armed, it fires again at the same wall-clock minute the
    // next day
    let next_day = timer_step(&clock, TimerEvent::Wake, NOW + 86400, 0);
    assert_eq!(next_day.state, TimerState::Armed);
    assert!(next_day.notify);
    // and it leaves `Armed` only through cancellation
    let cancelled = timer_step(&clock, TimerEvent::Signal, NOW + 86400, 0);
    assert_eq!(cancelled.state, TimerState::Cancelled);
    assert!(!cancelled.notify);
}

#[test]
fn wake_interval_is_bounded() {
    assert_eq!(wake_interval(&ClockType::Once(NOW + 7), NOW), 7);
    assert_eq!(wake_interval(&ClockType::Once(NOW + 700), NOW), 30);
    assert_eq!(wake_interval(&ClockType::Once(NOW - 700), NOW), 0);
    assert_eq!(wake_interval(&ClockType::OncePerDay(8, 0), NOW), 60);
    assert_eq!(wake_interval(&ClockType::Period(90), NOW), 90);
}

#[test]
fn scheduler_queues_commands_in_order() {
    let mut scheduler = Scheduler::new();
    let t = Task::new("ping".to_owned(), ClockType::Period(5));
    let id = t.task_id.clone();
    scheduler.add_task(t.clone()).unwrap();
    scheduler.cancel_task(t).unwrap();
    let drained = scheduler.take_pending();
    assert_eq!(drained.len(), 2);
    match &drained[0] {
        SchedulerCommand::Add(task) => assert_eq!(task.task_id, id),
        _ => panic!("the first queued command must be the add"),
    }
    match &drained[1] {
        SchedulerCommand::Cancel(task) => assert_eq!(task.task_id, id),
        _ => panic!("the second queued command must be the cancel"),
    }
    assert_eq!(scheduler.take_pending().len(), 0);
}

#[test]
fn any_received_command_or_error_removes_the_timer() {
    assert!(is_removed(Ok(TaskCommand::Stop)));
    assert!(is_removed(Ok(TaskCommand::Cancel)));
    assert!(is_removed(Err(RecvError::Closed)));
    assert!(is_removed(Err(RecvError::Lagged(3))));
}

#[test]
fn every_error_variant_names_itself() {
    assert_eq!(
        FmnError::Validation("x".to_owned()).message(),
        "invalid input: x"
    );
    assert_eq!(FmnError::NotFound("y".to_owned()).message(), "not found: y");
    assert_eq!(
        FmnError::Persistence("z".to_owned()).message(),
        "fail to persist: z"
    );
    assert_eq!(
        FmnError::SchedulerUnavailable.message(),
        "the scheduler is unavailable"
    );
}

#[test]
fn local_offset_is_bounded_when_known() {
    if let Some(off) = local_offset_seconds() {
        assert!(-86400 < off && off < 86400);
    }
}
