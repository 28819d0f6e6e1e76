use task_reminder::clock::ClockType;
use task_reminder::scheduler::{timer_step, Scheduler, SchedulerCommand, TimerEvent, TimerState};
use task_reminder::task::Task;
use task_reminder::task_manager::TaskManager;

const NOW: i64 = 1_700_000_000;

fn fresh_manager() -> TaskManager {
    TaskManager::new(Vec::new(), Vec::new(), Scheduler::new()).unwrap()
}

// A one-shot clock firing in one second: two seconds later the sweep
// has retired it and the listing is empty.
#[test]
fn once_clock() {
    let mut tm = fresh_manager();
    let task = Task::new("foo".to_owned(), ClockType::Once(NOW + 1));
    tm.add_task(task).unwrap();
    assert_eq!(tm.get_tasks().len(), 1);
    tm.refresh_at(NOW + 2).unwrap();
    assert_eq!(tm.get_tasks().len(), 0);
}

// A periodic clock never expires: it is still listed after its period
// has passed twice.
#[test]
fn periodic_clock() {
    let mut tm = fresh_manager();
    let task = Task::new("foo".to_owned(), ClockType::Period(1));
    let id = task.task_id.clone();
    tm.add_task(task).unwrap();
    let tasks = tm.get_tasks();
    assert_eq!(tasks.len(), 1);
    tm.refresh_at(NOW + 2).unwrap();
    let tasks = tm.get_tasks();
    assert_eq!(tasks.len(), 1);
    assert_eq!(tasks[0].task_id, id);
}

// A cancelled periodic task: its timer's next event is the cancel
// signal, which never produces a notification, and the listing is
// empty.
#[test]
fn cancel_periodic_clock() {
    let mut tm = fresh_manager();
    let clock = ClockType::Period(1);
    let task = Task::new("foo".to_owned(), clock);
    let id = task.task_id.clone();
    tm.add_task(task).unwrap();
    assert_eq!(tm.get_tasks().len(), 1);
    tm.cancel_task(id).unwrap();
    // the timer unit sees the signal at its next scheduling point
    let step = timer_step(&clock, TimerEvent::Signal, NOW + 2, 0);
    assert_eq!(step.state, TimerState::Cancelled);
    assert!(!step.notify);
    tm.refresh_at(NOW + 2).unwrap();
    assert_eq!(tm.get_tasks().len(), 0);
}

#[test]
fn scheduler_once_clock() {
    let mut tm = fresh_manager();
    let clock_type = ClockType::Once(NOW + 1);
    let new_task = Task::new("just a test".to_owned(), clock_type);
    tm.add_task(new_task).unwrap();
    tm.refresh_at(NOW + 2).unwrap();
    assert_eq!(tm.get_tasks().len(), 0);
}

#[test]
fn scheduler_periodic_clock() {
    let mut tm = fresh_manager();
    let clock_type = ClockType::Period(1);
    let new_task = Task::new("".to_owned(), clock_type);
    tm.add_task(new_task).unwrap();
    tm.refresh_at(NOW + 3).unwrap();
    assert_eq!(tm.get_tasks().len(), 1);
}

#[test]
fn cancel_clock() {
    let mut tm = fresh_manager();
    let clock_type = ClockType::Period(1);
    let new_task = Task::new("".to_owned(), clock_type);
    let task_id = new_task.task_id.clone();
    tm.add_task(new_task).unwrap();
    tm.refresh_at(NOW + 2).unwrap();
    tm.cancel_task(task_id)
        .expect("fail to cancel periodic_clock in test");
    tm.refresh_at(NOW + 4).unwrap();
    assert_eq!(tm.get_tasks().len(), 0);
}

// The expiry sweep removes a matured one-shot task from the listing and
// from the rewritten store file alike, and leaves the rest alone.
#[test]
fn expiry_sweep_cleans_store_and_listing() {
    let mut tm = fresh_manager();
    let gone = Task::new("past".to_owned(), ClockType::Once(NOW - 10));
    let stays_once = Task::new("future".to_owned(), ClockType::Once(NOW + 100));
    let stays_daily = Task::new("daily".to_owned(), ClockType::OncePerDay(8, 0));
    let gone_id = gone.task_id.clone();
    tm.add_task(gone).unwrap();
    tm.add_task(stays_once).unwrap();
    tm.add_task(stays_daily).unwrap();
    tm.refresh_at(NOW).unwrap();
    let tasks = tm.get_tasks();
    assert_eq!(tasks.len(), 2);
    assert!(tasks.iter().all(|t| t.task_id != gone_id));
    let reloaded = task_reminder::codec::parse_tasks(&tm.render_task_store()).unwrap();
    assert_eq!(reloaded.len(), 2);
    assert!(reloaded.iter().all(|t| t.task_id != gone_id));
}

// Tasks of a non-current context are persisted but not activated; a
// switch activates exactly them. The scheduler's command stream shows
// which timers are started and stopped.
#[test]
fn context_isolation_commands() {
    let mut tm = fresh_manager();
    tm.define_context("work".to_owned()).unwrap();
    let home_task = Task::new("dishes".to_owned(), ClockType::Period(60));
    let home_id = home_task.task_id.clone();
    tm.add_task(home_task).unwrap();
    tm.switch_context("work".to_owned()).unwrap();
    let work_task = Task::new("standup".to_owned(), ClockType::Period(60));
    let work_id = work_task.task_id.clone();
    tm.add_task(work_task).unwrap();
    // both tasks are stored ...
    assert_eq!(tm.get_tasks().len(), 2);
    // ... and the command stream first started the home task, then on
    // the switch stopped it and started nothing else, then started the
    // work task.
    let cmds = tm.scheduler.take_pending();
    assert_eq!(cmds.len(), 3);
    assert!(matches!(&cmds[0], SchedulerCommand::Add(t) if t.task_id == home_id));
    assert!(matches!(&cmds[1], SchedulerCommand::Cancel(t) if t.task_id == home_id));
    assert!(matches!(&cmds[2], SchedulerCommand::Add(t) if t.task_id == work_id));
    // switching back activates exactly the home task again
    tm.switch_context("default".to_owned()).unwrap();
    let cmds = tm.scheduler.take_pending();
    assert_eq!(cmds.len(), 2);
    assert!(matches!(&cmds[0], SchedulerCommand::Cancel(t) if t.task_id == work_id));
    assert!(matches!(&cmds[1], SchedulerCommand::Add(t) if t.task_id == home_id));
}

// A manager loaded from stores activates the tasks of the current
// context only.
#[test]
fn load_activates_current_context_only() {
    let mut first = Task::new("one".to_owned(), ClockType::Period(60));
    first = first.with_context("work".to_owned());
    let second = Task::new("two".to_owned(), ClockType::Period(60));
    let second_id = second.task_id.clone();
    let mut tm = TaskManager::new(
        vec![first, second],
        vec!["default".to_owned(), "work".to_owned()],
        Scheduler::new(),
    )
    .unwrap();
    let cmds = tm.scheduler.take_pending();
    assert_eq!(cmds.len(), 1);
    assert!(matches!(&cmds[0], SchedulerCommand::Add(t) if t.task_id == second_id));
}
