use task_reminder::clock::ClockType;
use task_reminder::codec::{parse_contexts, parse_tasks};
use task_reminder::comm::{handle_context_command, handle_request, ContextCommand, Request, Response};
use task_reminder::scheduler::Scheduler;
use task_reminder::task::Task;
use task_reminder::task_manager::TaskManager;

fn fresh_manager() -> TaskManager {
    TaskManager::new(Vec::new(), Vec::new(), Scheduler::new()).unwrap()
}

fn names(contexts: &[String]) -> Vec<&str> {
    contexts.iter().map(|c| c.as_str()).collect()
}

#[test]
fn test_list_context() {
    let mut tm = fresh_manager();
    handle_context_command(ContextCommand::Define { context: "a".to_owned() }, &mut tm);
    handle_context_command(ContextCommand::Define { context: "b".to_owned() }, &mut tm);
    assert_eq!(names(&tm.list_context()), vec!["default", "a", "b"]);
    handle_context_command(ContextCommand::Define { context: "c".to_owned() }, &mut tm);
    assert_eq!(names(&tm.list_context()), vec!["default", "a", "b", "c"]);
    let reloaded = parse_contexts(&tm.render_context_store()).unwrap();
    assert_eq!(reloaded.len(), 3 + 1);
}

#[test]
fn test_switch_context() {
    let mut tm = fresh_manager();
    tm.define_context("foo".to_owned()).unwrap();
    tm.switch_context("foo".to_owned()).unwrap();
    assert_eq!(names(&tm.list_context()), vec!["foo", "default"]);
}

#[test]
fn test_rm_context() {
    let mut tm = fresh_manager();
    tm.define_context("foo".to_owned()).unwrap();
    tm.switch_context("foo".to_owned()).unwrap();
    tm.remove_context("foo".to_owned()).unwrap();
    assert_eq!(names(&tm.list_context()), vec!["default"]);
}

#[test]
fn switch_to_unknown_context_fails() {
    let mut tm = fresh_manager();
    assert!(tm.switch_context("nowhere".to_owned()).is_err());
    assert_eq!(names(&tm.list_context()), vec!["default"]);
}

#[test]
fn switch_to_current_context_is_a_noop() {
    let mut tm = fresh_manager();
    tm.switch_context("default".to_owned()).unwrap();
    assert_eq!(names(&tm.list_context()), vec!["default"]);
}

// `DefineContext("work")`, `SwitchContext("work")`: the context list
// then starts with the new current context.
#[test]
fn context_switch_puts_target_first() {
    let mut tm = fresh_manager();
    tm.define_context("work".to_owned()).unwrap();
    tm.switch_context("work".to_owned()).unwrap();
    assert_eq!(names(&tm.list_context()), vec!["work", "default"]);
}

#[test]
fn duplicate_context_definitions_are_kept() {
    let mut tm = fresh_manager();
    tm.define_context("twice".to_owned()).unwrap();
    tm.define_context("twice".to_owned()).unwrap();
    assert_eq!(names(&tm.list_context()), vec!["default", "twice", "twice"]);
}

#[test]
fn remove_context_deletes_its_tasks() {
    let mut tm = fresh_manager();
    tm.define_context("work".to_owned()).unwrap();
    tm.switch_context("work".to_owned()).unwrap();
    let r = handle_request(
        Request::Add("standup".to_owned(), ClockType::Period(60), None, None),
        &mut tm,
    );
    assert!(matches!(r, Response::AddSuccess));
    tm.switch_context("default".to_owned()).unwrap();
    let in_default = Task::new("laundry".to_owned(), ClockType::Period(60));
    let kept_id = in_default.task_id.clone();
    tm.add_task(in_default).unwrap();
    tm.remove_context("work".to_owned()).unwrap();
    let tasks = tm.get_tasks();
    assert_eq!(tasks.len(), 1);
    assert_eq!(tasks[0].task_id, kept_id);
    assert_eq!(names(&tm.list_context()), vec!["default"]);
}

#[test]
fn remove_unknown_context_is_harmless() {
    let mut tm = fresh_manager();
    tm.remove_context("ghost".to_owned()).unwrap();
    assert_eq!(names(&tm.list_context()), vec!["default"]);
}

#[test]
fn remove_default_context_keeps_the_entry() {
    let mut tm = fresh_manager();
    let t = Task::new("chore".to_owned(), ClockType::Period(30));
    tm.add_task(t).unwrap();
    tm.remove_context("default".to_owned()).unwrap();
    assert_eq!(names(&tm.list_context()), vec!["default"]);
    assert_eq!(tm.get_tasks().len(), 0);
}

#[test]
fn remove_task() {
    let mut tm = fresh_manager();
    let task1 = Task::new("rm1".to_owned(), ClockType::Period(60));
    let task2 = Task::new("rm2".to_owned(), ClockType::Period(60));
    let task3 = Task::new("rm3".to_owned(), ClockType::Period(60));
    tm.add_task(task1).unwrap();
    tm.add_task(task2).unwrap();
    tm.add_task(task3).unwrap();
    let tasks = tm.get_tasks();
    assert_eq!(tasks.len(), 3);
    tm.cancel_task(tasks[1].task_id.clone()).unwrap();
    let tasks = tm.get_tasks();
    assert_eq!(tasks.len(), 2);
    assert_eq!(tasks[0].description, "rm1");
    assert_eq!(tasks[1].description, "rm3");
}

#[test]
fn task_remove_task() {
    let mut tm = fresh_manager();

    let clock_type = ClockType::Once(1641093133);
    let new_task = Task::new("".to_owned(), clock_type);
    let new_task_id_1 = new_task.task_id.clone();
    tm.add_task(new_task).unwrap();
    let tasks = parse_tasks(&tm.render_task_store()).unwrap();
    assert_eq!(tasks[0].task_id, new_task_id_1);

    let clock_type = ClockType::Once(1641093134);
    let new_task = Task::new("".to_owned(), clock_type);
    let new_task_id = new_task.task_id.clone();
    tm.add_task(new_task).unwrap();
    let tasks = parse_tasks(&tm.render_task_store()).unwrap();
    assert_eq!(tasks[1].task_id, new_task_id);

    let clock_type = ClockType::Once(1641093135);
    let new_task = Task::new("".to_owned(), clock_type);
    let new_task_id_3 = new_task.task_id.clone();
    tm.add_task(new_task).unwrap();
    let tasks = parse_tasks(&tm.render_task_store()).unwrap();
    assert_eq!(tasks[2].task_id, new_task_id_3);

    tm.cancel_task(new_task_id).unwrap();

    let tasks = parse_tasks(&tm.render_task_store()).unwrap();
    assert_eq!(tasks.len(), 2);
    assert_eq!(tasks[0].task_id, new_task_id_1);
    assert_eq!(tasks[1].task_id, new_task_id_3);
}

#[test]
fn empty_store() {
    let mut tm = fresh_manager();
    let clock_type = ClockType::Once(1641093133);
    let new_task = Task::new("".to_owned(), clock_type);
    let new_task_id = new_task.task_id.clone();
    tm.add_task(new_task).unwrap();
    let tasks = parse_tasks(&tm.render_task_store()).unwrap();
    assert_eq!(tasks[0].task_id, new_task_id);
    assert_eq!(tasks[0].clock_type, ClockType::Once(1641093133));
}

#[test]
fn cancel_by_prefix_takes_first_match() {
    let mut tm = fresh_manager();
    let t1 = Task::new("first".to_owned(), ClockType::Period(60));
    let t2 = Task::new("second".to_owned(), ClockType::Period(60));
    let prefix: String = t1.task_id.chars().take(6).collect();
    tm.add_task(t1).unwrap();
    tm.add_task(t2).unwrap();
    tm.cancel_task(prefix).unwrap();
    let tasks = tm.get_tasks();
    assert_eq!(tasks.len(), 1);
    assert_eq!(tasks[0].description, "second");
}

// Cancelling a task id twice, or cancelling an unknown id, fails as an
// ordinary `NotFound` and never touches the other tasks.
#[test]
fn cancel_is_idempotent() {
    let mut tm = fresh_manager();
    let t1 = Task::new("stays".to_owned(), ClockType::Period(60));
    let t2 = Task::new("goes".to_owned(), ClockType::Period(60));
    let keep_id = t1.task_id.clone();
    let gone_id = t2.task_id.clone();
    tm.add_task(t1).unwrap();
    tm.add_task(t2).unwrap();
    tm.cancel_task(gone_id.clone()).unwrap();
    let again = tm.cancel_task(gone_id);
    assert!(matches!(
        again,
        Err(task_reminder::FmnError::NotFound(_))
    ));
    let unknown = tm.cancel_task("no-such-id".to_owned());
    assert!(unknown.is_err());
    let tasks = tm.get_tasks();
    assert_eq!(tasks.len(), 1);
    assert_eq!(tasks[0].task_id, keep_id);
}

#[test]
fn loading_duplicate_ids_is_rejected() {
    let one = Task::new("a".to_owned(), ClockType::Period(60));
    let mut two = Task::new("b".to_owned(), ClockType::Period(60));
    two.task_id = one.task_id.clone();
    let r = TaskManager::new(vec![one, two], Vec::new(), Scheduler::new());
    assert!(matches!(r, Err(task_reminder::FmnError::Persistence(_))));
}

#[test]
fn loaded_contexts_gain_default_at_the_end() {
    let tm = TaskManager::new(Vec::new(), vec!["work".to_owned()], Scheduler::new()).unwrap();
    assert_eq!(names(&tm.list_context()), vec!["work", "default"]);
}

// 1_700_000_000 seconds after the epoch is 22:13:20 UTC.
const NOW: i64 = 1_700_000_000;

fn utc_hour(t: i64) -> i64 {
    (((t % 86400) + 86400) % 86400) / 3600
}

#[test]
fn check_clock_type_after() {
    let mut tm = fresh_manager();
    let delay = task_reminder::comm::parse_duration("1h0m3s").unwrap() as i64;
    let r = handle_request(
        Request::Add("foo".to_owned(), ClockType::Once(NOW + delay), None, None),
        &mut tm,
    );
    assert!(matches!(r, Response::AddSuccess));
    let tasks = tm.get_tasks();
    assert_eq!(tasks.len(), 1);
    assert_eq!(tasks[0].description, "foo");
    if let ClockType::Once(moment) = tasks[0].clock_type {
        assert_eq!(utc_hour(NOW) + 1, utc_hour(moment));
    } else {
        panic!("wrong clock type");
    }
}

#[test]
fn check_clock_type_at() {
    let mut tm = fresh_manager();
    let hour = 22;
    let (h, m) = task_reminder::comm::parse_at(&format!("{}:0", hour)).unwrap();
    assert_eq!((h, m), (22, 0));
    let r = handle_request(
        Request::Add("foo".to_owned(), ClockType::OncePerDay(h, m), None, None),
        &mut tm,
    );
    assert!(matches!(r, Response::AddSuccess));
    let tasks = tm.get_tasks();
    assert_eq!(tasks.len(), 1);
    assert_eq!(tasks[0].description, "foo");
    if let ClockType::OncePerDay(stored_h, stored_m) = tasks[0].clock_type {
        assert_eq!(stored_h, hour);
        assert_eq!(stored_m, 0);
    } else {
        panic!("wrong clock type");
    }
}

#[test]
fn check_clock_type_per() {
    let mut tm = fresh_manager();
    let input_period = "1h";
    let secs = task_reminder::comm::parse_duration(input_period).unwrap();
    let r = handle_request(
        Request::Add("foo".to_owned(), ClockType::Period(secs), None, None),
        &mut tm,
    );
    assert!(matches!(r, Response::AddSuccess));
    let tasks = tm.get_tasks();
    assert_eq!(tasks.len(), 1);
    assert_eq!(tasks[0].description, "foo");
    if let ClockType::Period(period) = tasks[0].clock_type {
        assert_eq!(period, 3600);
    } else {
        panic!("wrong clock type");
    }
}

#[test]
fn handle_show_lists_all_tasks() {
    let mut tm = fresh_manager();
    tm.define_context("other".to_owned()).unwrap();
    let visible = Task::new("current one".to_owned(), ClockType::Period(60));
    tm.add_task(visible).unwrap();
    tm.switch_context("other".to_owned()).unwrap();
    let r = handle_request(Request::Show, &mut tm);
    match r {
        Response::GetTasks(tasks) => {
            // all stored tasks are shown, whatever their context
            assert_eq!(tasks.len(), 1);
            assert_eq!(tasks[0].description, "current one");
        },
        _ => panic!("show must answer with the task list"),
    }
}

#[test]
fn handle_add_and_cancel() {
    let mut tm = fresh_manager();
    let r = handle_request(
        Request::Add(
            "water the plants".to_owned(),
            ClockType::OncePerDay(9, 30),
            Some("plants.png".to_owned()),
            None,
        ),
        &mut tm,
    );
    assert!(matches!(r, Response::AddSuccess));
    let tasks = tm.get_tasks();
    assert_eq!(tasks.len(), 1);
    assert_eq!(tasks[0].get_image(), Some("plants.png"));
    assert_eq!(tasks[0].get_sound(), None);
    assert_eq!(tasks[0].context, "default");
    assert_eq!(tasks[0].task_id.len(), 21);
    let r = handle_request(Request::Cancel(tasks[0].task_id.clone()), &mut tm);
    assert!(matches!(r, Response::RemoveSuccess));
    let r = handle_request(Request::Cancel("absent".to_owned()), &mut tm);
    assert!(matches!(r, Response::Fail(_)));
}
