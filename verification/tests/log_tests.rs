use allesatt::data::{Span, TaskId, TodoCompleted, TodoDate, TodoId};
use allesatt::datetext::{format_date, parse_date};
use allesatt::engine::AllesattInner;
use allesatt::logger::{play_back, replay_record, ReplayError};
use allesatt::logline::{parse_line, render_record, LogRecord};
use allesatt::mem_store::MemStore;

fn now_date() -> TodoDate {
    TodoDate { nanos: time::OffsetDateTime::now_utc().unix_timestamp_nanos() }
}

fn chars_of(s: &str) -> Vec<char> {
    s.chars().collect()
}

#[test]
fn deserialize_completed() {
    assert!(parse_date(&chars_of("2017-04-15T12:00:00")).is_some());
    assert!(parse_date(&chars_of("2019-05-04T09:41:17.942422315")).is_some());
    assert!(parse_date(&chars_of("2021-03-30T8:04:24.237224778")).is_some());
}

#[test]
fn date_text_round_trips() {
    let n = parse_date(&chars_of("2019-05-04T09:41:17.942422315")).unwrap();
    let written: String = format_date(n).into_iter().collect();
    assert_eq!(written, "2019-05-04T09:41:17.942422315");
    let text = "2017-04-15T12:00:00";
    let n2 = parse_date(&chars_of(text)).unwrap();
    let written2: String = format_date(n2).into_iter().collect();
    assert_eq!(written2, "2017-04-15T12:00:00.0");
    assert_eq!(parse_date(&chars_of(&written2)), Some(n2));
    // cross-check one instant against an independent calendar
    let odt = time::Date::from_calendar_date(2019, time::Month::May, 4)
        .unwrap()
        .with_hms_nano(9, 41, 17, 942_422_315)
        .unwrap()
        .assume_utc();
    assert_eq!(n, odt.unix_timestamp_nanos());
}

#[test]
fn create_line_has_exact_shape() {
    let rec = LogRecord::CreateTask {
        title: "task".into(),
        due_every: Some(Span { nanos: 2_592_000_000_000_000 }),
        task_id: TaskId(1),
        todo_id: TodoId(1),
    };
    let line = render_record(&rec);
    assert_eq!(
        line,
        "create_task1: [\"task\", {\"secs\":2592000,\"nanos\":0}, 1, 1]"
    );
}

#[test]
fn lines_parse_back() {
    let cases: Vec<LogRecord> = vec![
        LogRecord::CreateTask {
            title: "wash \"the\" cat\n".into(),
            due_every: None,
            task_id: TaskId(3),
            todo_id: TodoId(7),
        },
        LogRecord::CloneTask {
            task_id: TaskId(1),
            title: "again".into(),
            new_task_id: TaskId(2),
            todo_id: TodoId(5),
        },
        LogRecord::TodoLater { todo_id: TodoId(2) },
        LogRecord::PauseTask { task_id: TaskId(1) },
        LogRecord::UnpauseTask { task_id: TaskId(1) },
    ];
    for rec in cases {
        let line = render_record(&rec);
        let back = parse_line(&line).unwrap();
        let line2 = render_record(&back);
        assert_eq!(line, line2);
    }
    let completed = LogRecord::CompleteTodo {
        todo_id: TodoId(1),
        completed: TodoCompleted::new(TodoDate { nanos: 1_556_962_877_942_422_315 }),
    };
    let line = render_record(&completed);
    assert_eq!(line, "complete_todo1: [1, \"2019-05-04T09:41:17.942422315\"]");
    let back = parse_line(&line).unwrap();
    assert_eq!(render_record(&back), line);
}

#[test]
fn unknown_prefix_is_fatal() {
    assert!(parse_line("create_task2: [\"x\", null, 1, 1]").is_none());
    assert!(parse_line("no colon here").is_none());
    assert!(parse_line("create_task1: [\"x\", null, 1, 1] trailing").is_none());
    assert!(parse_line("").is_none());
}

#[test]
fn replay_checks_recorded_ids() {
    let mut engine = AllesattInner::new(MemStore::new());
    let rec = LogRecord::CreateTask {
        title: "t".into(),
        due_every: None,
        task_id: TaskId(2),
        todo_id: TodoId(1),
    };
    let err = replay_record(&mut engine, &rec, now_date()).unwrap_err();
    assert_eq!(err, ReplayError::IdMismatch);
    let ok = LogRecord::CreateTask {
        title: "t".into(),
        due_every: None,
        task_id: TaskId(1),
        todo_id: TodoId(1),
    };
    replay_record(&mut engine, &ok, now_date()).unwrap();
    assert!(engine.get_store().get_task(&TaskId(1)).is_some());
}

#[test]
fn play_back_reproduces_state() {
    let lines: Vec<String> = vec![
        "create_task1: [\"task\", {\"secs\":2592000,\"nanos\":0}, 1, 1]".into(),
        "complete_todo1: [1, \"2019-05-04T09:41:17.942422315\"]".into(),
        "pause_task1: [1]".into(),
        "unpause_task1: [1]".into(),
    ];
    let mut engine = AllesattInner::new(MemStore::new());
    play_back(&mut engine, &lines).unwrap();
    let store = engine.get_store();
    assert!(store.get_task(&TaskId(1)).is_some());
    let open = store.find_open_todo(&TaskId(1)).unwrap();
    assert!(open.completed.is_none());
    let done = store.get_todos(Some(&TaskId(1)), Some(true));
    assert_eq!(done.len(), 1);
    assert_eq!(done[0].completed.unwrap().date.nanos, 1_556_962_877_942_422_315);

    let mut engine2 = AllesattInner::new(MemStore::new());
    play_back(&mut engine2, &lines).unwrap();
    let done2 = engine2.get_store().get_todos(Some(&TaskId(1)), Some(true));
    assert_eq!(done2.len(), done.len());
    assert_eq!(done2[0].id, done[0].id);
    assert_eq!(
        done2[0].completed.unwrap().date,
        done[0].completed.unwrap().date
    );

    let bad: Vec<String> = vec!["create_task1: [\"task\", null, 2, 1]".into()];
    let mut engine3 = AllesattInner::new(MemStore::new());
    assert_eq!(play_back(&mut engine3, &bad).unwrap_err(), ReplayError::IdMismatch);
}
