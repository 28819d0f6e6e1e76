use task_reminder::clock::ClockType;
use task_reminder::codec::{encode_task, encode_tasks, parse_contexts, parse_tasks};
use task_reminder::scheduler::Scheduler;
use task_reminder::task::Task;
use task_reminder::task_manager::TaskManager;

fn sample_task(description: &str, clock: ClockType) -> Task {
    Task {
        created_at: 1641093133,
        description: description.to_owned(),
        task_id: "0123456789abcdefghijk".to_owned(),
        clock_type: clock,
        context: "default".to_owned(),
        image_path: None,
        sound_path: None,
    }
}

#[test]
fn task_record_round_trips() {
    let mut task = sample_task("call home", ClockType::Once(1641093133));
    task.image_path = Some("ring.png".to_owned());
    task.sound_path = Some("ring.ogg".to_owned());
    let encoded = encode_tasks(&vec![task.clone()]);
    let back = parse_tasks(&encoded).unwrap();
    assert_eq!(back.len(), 1);
    assert_eq!(back[0].task_id, task.task_id);
    assert_eq!(back[0].description, task.description);
    assert_eq!(back[0].context, task.context);
    assert_eq!(back[0].clock_type, task.clock_type);
    assert_eq!(back[0].created_at, task.created_at);
    assert_eq!(back[0].image_path, Some("ring.png".to_owned()));
    assert_eq!(back[0].sound_path, Some("ring.ogg".to_owned()));
}

#[test]
fn awkward_characters_survive_the_codec() {
    let descriptions = vec![
        "tabs\tand\nnewlines",
        "back\\slashes \\n not an escape",
        "unicode: déjà vu ✓",
        "",
    ];
    let mut tasks: Vec<Task> = Vec::new();
    for (i, d) in descriptions.iter().enumerate() {
        let mut t = sample_task(d, ClockType::Period(60));
        t.task_id = format!("id-number-{}-aaaaaaaaa", i);
        t.context = "we\tird\\ctx".to_owned();
        tasks.push(t);
    }
    let encoded = encode_tasks(&tasks);
    let back = parse_tasks(&encoded).unwrap();
    assert_eq!(back.len(), tasks.len());
    for (orig, reloaded) in tasks.iter().zip(back.iter()) {
        assert_eq!(orig.description, reloaded.description);
        assert_eq!(orig.task_id, reloaded.task_id);
        assert_eq!(orig.context, reloaded.context);
    }
}

#[test]
fn every_clock_kind_round_trips() {
    let clocks = vec![
        ClockType::Once(0),
        ClockType::Once(-12345),
        ClockType::Once(i64::MAX),
        ClockType::Once(i64::MIN),
        ClockType::OncePerDay(0, 0),
        ClockType::OncePerDay(23, 59),
        ClockType::Period(1),
        ClockType::Period(u64::MAX),
    ];
    let mut tasks: Vec<Task> = Vec::new();
    for (i, c) in clocks.iter().enumerate() {
        let mut t = sample_task("clock case", *c);
        t.task_id = format!("clock-id-{}-aaaaaaaaaa", i);
        tasks.push(t);
    }
    let back = parse_tasks(&encode_tasks(&tasks)).unwrap();
    for (orig, reloaded) in tasks.iter().zip(back.iter()) {
        assert_eq!(orig.clock_type, reloaded.clock_type);
    }
}

#[test]
fn empty_file_is_an_empty_store() {
    assert_eq!(parse_tasks("").unwrap().len(), 0);
    assert_eq!(parse_contexts("").unwrap().len(), 0);
}

#[test]
fn malformed_lines_are_fatal() {
    // a truncated record
    assert!(parse_tasks("only-three\tfields\there\n").is_none());
    // a file that does not end in a newline
    let task = sample_task("x", ClockType::Period(5));
    let good = encode_tasks(&vec![task]);
    let clipped = &good[..good.len() - 1];
    assert!(parse_tasks(clipped).is_none());
    // a bad escape inside a context name
    assert!(parse_contexts("bad\\zescape\n").is_none());
}

#[test]
fn contexts_round_trip() {
    let cs = vec!["default".to_owned(), "wo rk".to_owned(), "pl\nay".to_owned()];
    let tm = TaskManager::new(Vec::new(), cs.clone(), Scheduler::new()).unwrap();
    let back = parse_contexts(&tm.render_context_store()).unwrap();
    assert_eq!(back, cs);
}

#[test]
fn to_bytes_is_the_record_line() {
    let task = sample_task("note", ClockType::Period(60));
    let bytes = task.to_bytes();
    assert_eq!(bytes, encode_task(&task).into_bytes());
    // the record is one line: framing adds the newline
    assert!(!bytes.contains(&b'\n'));
}

// Reloading the rendered store after every operation yields exactly the
// in-memory task set.
#[test]
fn store_round_trips_after_every_operation() {
    let mut tm = TaskManager::new(Vec::new(), Vec::new(), Scheduler::new()).unwrap();
    let mut cancel_ids: Vec<String> = Vec::new();
    for i in 0..4 {
        let t = Task::new(format!("task {}", i), ClockType::Period(60 + i));
        if i % 2 == 0 {
            cancel_ids.push(t.task_id.clone());
        }
        tm.add_task(t).unwrap();
        let reloaded = parse_tasks(&tm.render_task_store()).unwrap();
        let live = tm.get_tasks();
        assert_eq!(reloaded.len(), live.len());
        for (a, b) in live.iter().zip(reloaded.iter()) {
            assert_eq!(a.task_id, b.task_id);
            assert_eq!(a.description, b.description);
            assert_eq!(a.clock_type, b.clock_type);
        }
    }
    for id in cancel_ids {
        tm.cancel_task(id).unwrap();
        let reloaded = parse_tasks(&tm.render_task_store()).unwrap();
        let live = tm.get_tasks();
        assert_eq!(reloaded.len(), live.len());
        for (a, b) in live.iter().zip(reloaded.iter()) {
            assert_eq!(a.task_id, b.task_id);
            assert_eq!(a.description, b.description);
            assert_eq!(a.clock_type, b.clock_type);
        }
    }
}

#[test]
fn fresh_ids_are_twenty_one_characters() {
    let t = Task::new("x".to_owned(), ClockType::Period(1));
    assert_eq!(t.task_id.chars().count(), 21);
    let u = Task::new("y".to_owned(), ClockType::Period(1));
    assert_eq!(u.task_id.len(), 21);
}

#[test]
fn error_message_names_what_was_not_found() {
    let mut tm = TaskManager::new(Vec::new(), Vec::new(), Scheduler::new()).unwrap();
    let err = tm.cancel_task("zzz".to_owned()).unwrap_err();
    assert_eq!(err.message(), "not found: no such task found: zzz");
    let err = tm.switch_context("nope".to_owned()).unwrap_err();
    assert_eq!(err.message(), "not found: no such context: nope");
}
