use allesatt::data::{Span, TodoCompleted, TodoDate};
use allesatt::engine::AllesattInner;
use allesatt::listing::{get_todos, write_paused_task};
use allesatt::mem_store::{EngineError, MemStore};

fn now_date() -> TodoDate {
    TodoDate { nanos: time::OffsetDateTime::now_utc().unix_timestamp_nanos() }
}

fn days(n: i128) -> i128 {
    n * 86_400_000_000_000
}

#[test]
fn default_duration_after_pausing() {
    let now = now_date();
    let day = days(1);
    let mut engine = AllesattInner::new(MemStore::new());
    let (task_id, todo_id) = engine.create_task("x".into(), Some(Span { nanos: days(7) }));
    engine
        .complete_todo(&todo_id, TodoCompleted::new(TodoDate { nanos: now.nanos - 28 * day }))
        .unwrap();
    engine.pause_task(&task_id).unwrap();
    let todo_id = engine.unpause_task(&task_id);
    let due = engine.get_store().get_todo(&todo_id).unwrap().due;
    assert!(due.nanos > now.nanos - day);
    assert!(due.nanos < now.nanos + day);
    engine
        .complete_todo(&todo_id, TodoCompleted::new(TodoDate { nanos: now.nanos - 7 * day }))
        .unwrap();
    let due = engine.get_store().find_open_todo(&task_id).unwrap().due;
    assert!(due.nanos > now.nanos - day);
    assert!(due.nanos < now.nanos + day);
}

#[test]
fn clone_copies_history_and_open_due() {
    let mut engine = AllesattInner::new(MemStore::new());
    let (task_id, todo_id) = engine.create_task("chore".into(), Some(Span { nanos: days(5) }));
    let base = now_date();
    engine
        .complete_todo(&todo_id, TodoCompleted::new(TodoDate { nanos: base.nanos - days(9) }))
        .unwrap();
    let open = engine.get_store().find_open_todo(&task_id).unwrap();
    engine
        .complete_todo(&open.id, TodoCompleted::new(TodoDate { nanos: base.nanos - days(4) }))
        .unwrap();
    let source_open = engine.get_store().find_open_todo(&task_id).unwrap();
    let (clone_id, clone_todo) = engine.clone_task(&task_id, "chore again".into()).unwrap();
    let source_done = engine.get_store().get_todos(Some(&task_id), Some(true));
    let done = engine
        .get_store()
        .get_todos(Some(&clone_id), Some(true));
    assert_eq!(done.len(), 2);
    assert_eq!(done[0].due, source_done[0].due);
    assert_eq!(done[1].due, source_done[1].due);
    assert_eq!(done[0].completed.unwrap().date.nanos, base.nanos - days(9));
    assert_eq!(done[1].completed.unwrap().date.nanos, base.nanos - days(4));
    let cloned_open = engine.get_store().get_todo(&clone_todo).unwrap();
    assert_eq!(cloned_open.due, source_open.due);
    assert!(cloned_open.completed.is_none());
}

#[test]
fn clone_paused_is_unsupported_not_missing() {
    let mut engine = AllesattInner::new(MemStore::new());
    let (task_id, _) = engine.create_task("t".into(), None);
    engine.pause_task(&task_id).unwrap();
    let err = engine.clone_task(&task_id, "again".into()).unwrap_err();
    assert_eq!(err, EngineError::TaskPaused);
    let missing = allesatt::data::TaskId(99);
    let err2 = engine.clone_task(&missing, "none".into()).unwrap_err();
    assert_eq!(err2, EngineError::TaskNotFound);
}

#[test]
fn complete_creates_next_open_todo_from_guess() {
    let mut engine = AllesattInner::new(MemStore::new());
    let (task_id, todo_id) = engine.create_task("t".into(), Some(Span { nanos: days(5) }));
    let base = now_date();
    engine
        .complete_todo(&todo_id, TodoCompleted::new(base))
        .unwrap();
    let open = engine.get_store().find_open_todo(&task_id).unwrap();
    assert_eq!(open.due.nanos, base.nanos + days(5));
    engine
        .complete_todo(&open.id, TodoCompleted::new(TodoDate { nanos: base.nanos + days(2) }))
        .unwrap();
    let open = engine.get_store().find_open_todo(&task_id).unwrap();
    assert_eq!(open.due.nanos, base.nanos + days(2) + days(2));
}

#[test]
fn pause_then_unpause_is_due_now() {
    let mut engine = AllesattInner::new(MemStore::new());
    let (task_id, todo_id) = engine.create_task("t".into(), Some(Span { nanos: days(40) }));
    let base = now_date();
    engine
        .complete_todo(&todo_id, TodoCompleted::new(TodoDate { nanos: base.nanos - days(80) }))
        .unwrap();
    engine.pause_task(&task_id).unwrap();
    assert!(engine.get_store().find_open_todo(&task_id).is_none());
    let revived = engine.unpause_task(&task_id);
    let due = engine.get_store().get_todo(&revived).unwrap().due;
    assert!(due.nanos > base.nanos - days(1));
    assert!(due.nanos < base.nanos + days(1));
}

#[test]
fn todo_later_moves_by_sixth_of_default() {
    let mut engine = AllesattInner::new(MemStore::new());
    let (task_id, todo_id) = engine.create_task("t".into(), None);
    let before = engine.get_store().get_todo(&todo_id).unwrap().due;
    engine.todo_later(&todo_id).unwrap();
    let after = engine.get_store().get_todo(&todo_id).unwrap().due;
    assert!(after.nanos >= before.nanos + days(6));
    let now = now_date();
    assert!(after.nanos <= now.nanos + days(6));
    assert_eq!(
        engine.get_store().find_open_todo(&task_id).unwrap().id,
        todo_id
    );
}

#[test]
fn listing_splits_paused_tasks() {
    let mut engine = AllesattInner::new(MemStore::new());
    let (t1, _) = engine.create_task("one".into(), None);
    let (_t2, _) = engine.create_task("two".into(), None);
    engine.pause_task(&t1).unwrap();
    let (pairs, paused, more) = get_todos(engine.get_store(), true);
    assert_eq!(pairs.len(), 1);
    assert_eq!(pairs[0].1.title, "two");
    assert_eq!(paused.len(), 1);
    assert_eq!(paused[0].title, "one");
    assert!(!more);
    let line = write_paused_task(3, &paused[0]);
    assert_eq!(line, "  1 one\n");
}

#[test]
fn listing_orders_due_first() {
    let mut engine = AllesattInner::new(MemStore::new());
    let (_t1, td1) = engine.create_task("soon".into(), Some(Span { nanos: days(30) }));
    let (_t2, _) = engine.create_task("right away".into(), None);
    let base = now_date();
    engine
        .complete_todo(&td1, TodoCompleted::new(base))
        .unwrap();
    let (pairs, _, more) = get_todos(engine.get_store(), true);
    assert_eq!(pairs.len(), 2);
    assert_eq!(pairs[0].1.title, "right away");
    assert_eq!(pairs[1].1.title, "soon");
    assert!(!more);
}
