use allesatt::data::{Span, TodoCompleted, TodoDate};
use allesatt::due_guesser::DueGuesser;
use allesatt::mem_store::MemStore;

fn now_date() -> TodoDate {
    TodoDate { nanos: time::OffsetDateTime::now_utc().unix_timestamp_nanos() }
}

fn days(n: i128) -> i128 {
    n * 86_400_000_000_000
}

#[test]
fn ignores_fixed_after_two_completions() {
    let mut due_guesser = DueGuesser::new();
    let mut store = MemStore::new();
    let task_id = store.create_task("Task".into());
    let now = now_date();
    let todo1_id = store.create_todo(&task_id, now);
    due_guesser.init_task(&store, &task_id, Some(Span { nanos: days(5) }));
    let completed = TodoCompleted::new(now);
    due_guesser.handle_completion(&store, &todo1_id, &completed);
    assert_eq!(
        due_guesser.guess_due(&store, &task_id),
        TodoDate { nanos: now.nanos + days(5) }
    );
    store.set_todo_completed(&todo1_id, Some(completed)).unwrap();
    let todo2_id = store.create_todo(&task_id, now);
    due_guesser.handle_completion(
        &store,
        &todo2_id,
        &TodoCompleted::new(TodoDate { nanos: now.nanos + days(2) }),
    );
    assert_eq!(
        due_guesser.guess_due(&store, &task_id),
        TodoDate { nanos: now.nanos + days(4) }
    );
}

#[test]
fn makes_a_good_guess() {
    let mut due_guesser = DueGuesser::new();
    let mut store = MemStore::new();
    let task_id = store.create_task("Task".into());
    due_guesser.init_task(&store, &task_id, None);

    let mut now = now_date();
    let completed = TodoCompleted::new(now);
    let todo1_id = store.create_todo(&task_id, now);
    due_guesser.handle_completion(&store, &todo1_id, &completed);
    store.set_todo_completed(&todo1_id, Some(completed)).unwrap();

    now = TodoDate { nanos: now.nanos + days(2) };
    let completed = TodoCompleted::new(now);
    let todo2_id = store.create_todo(&task_id, now);
    due_guesser.handle_completion(&store, &todo2_id, &TodoCompleted::new(now));
    store.set_todo_completed(&todo2_id, Some(completed)).unwrap();

    now = TodoDate { nanos: now.nanos + days(4) };
    let completed = TodoCompleted::new(now);
    let todo3_id = store.create_todo(&task_id, now);
    due_guesser.handle_completion(&store, &todo3_id, &TodoCompleted::new(now));
    store.set_todo_completed(&todo3_id, Some(completed)).unwrap();
    assert_eq!(
        due_guesser.guess_due(&store, &task_id),
        TodoDate { nanos: now.nanos + days(3) }
    );
}

#[test]
fn makes_a_good_later() {
    let mut due_guesser = DueGuesser::new();
    let mut store = MemStore::new();
    let task_id = store.create_task("Task".into());
    due_guesser.init_task(&store, &task_id, None);
    let mut now = now_date();
    let todo_id = store.create_todo(&task_id, now);
    let later = due_guesser.guess_later(&store, &todo_id);
    assert!(later.nanos >= now.nanos + days(6));
    now = now_date();
    assert!(later.nanos <= now.nanos + days(6));

    now = TodoDate { nanos: now.nanos + days(10) };
    let completed = TodoCompleted::new(now);
    due_guesser.handle_completion(&store, &todo_id, &completed);
    store.set_todo_completed(&todo_id, Some(completed)).unwrap();

    now = TodoDate { nanos: now.nanos + days(30) };
    let completed = TodoCompleted::new(now);
    let todo_id = store.create_todo(&task_id, now);
    due_guesser.handle_completion(&store, &todo_id, &TodoCompleted::new(now));
    store.set_todo_completed(&todo_id, Some(completed)).unwrap();

    now = TodoDate { nanos: now.nanos + days(50) };
    let completed = TodoCompleted::new(now);
    let todo_id = store.create_todo(&task_id, now);
    due_guesser.handle_completion(&store, &todo_id, &TodoCompleted::new(now));
    store.set_todo_completed(&todo_id, Some(completed)).unwrap();

    let later = due_guesser.guess_later(&store, &todo_id);
    assert!(later.nanos >= now.nanos + days(8));
    let real_now = now_date();
    assert!(later.nanos <= real_now.nanos + days(90) + days(8));
}

#[test]
fn set_todo_completed_clears_too() {
    let mut store = MemStore::new();
    let task_id = store.create_task("Task".into());
    let now = now_date();
    let todo_id = store.create_todo(&task_id, now);
    store
        .set_todo_completed(&todo_id, Some(TodoCompleted::new(now)))
        .unwrap();
    assert!(store.get_todo(&todo_id).unwrap().completed.is_some());
    assert!(store.find_open_todo(&task_id).is_none());
    store.set_todo_completed(&todo_id, None).unwrap();
    assert!(store.get_todo(&todo_id).unwrap().completed.is_none());
    assert!(store.find_open_todo(&task_id).is_some());
}
