//! The task lifecycle engine: storage plus predictor, with one transition
//! function per operation.
//!
//! Every mutating operation is specified as a function from the engine's
//! mathematical state to the next state, so a replayed operation provably
//! reproduces the live one.  The engine owns the invariant that each task
//! has at most one open todo; operations establish the store's precondition
//! before creating a todo, so the fatal double-open case of the storage
//! contract can never be reached from here.

use vstd::prelude::*;
use crate::clock::now_nanos;
use crate::data::{
    Span, TaskId, Todo, TodoCompleted, TodoDate, TodoId, TodoV, TaskV, clock_in_range,
    date_in_range, due_in_range, fixed_span_in_range,
};
use crate::due_guesser::{
    DueGuesser, DueIn, DueInfo, completed_info, interval_of, spec_guess_due,
    spec_guess_later,
};
use crate::mem_store::{
    EngineError, MemStore, StoreV, idx_of, lemma_idx_of, lemma_idx_of_is, lemma_open_idx,
    lemma_open_idx_is, matches_filters, open_idx,
};

verus! {

/// Mathematical image of the engine: the store plus the predictor map.
#[verifier::ext_equal]
pub ghost struct EngineV {
    pub store: StoreV,
    pub guesser: Map<u64, DueInfo>,
}

/// The predictor state recorded at task creation.
pub open spec fn init_info(due_every: Option<Span>) -> DueInfo {
    DueInfo {
        due_in: match due_every {
            Some(d) => Some(DueIn::Fixed(d)),
            None => None,
        },
        last_completed: None,
    }
}

/// Creating a task: a fresh task record, its predictor state, and one open
/// todo due at `now`.
pub open spec fn tr_create_task(s: EngineV, title: Seq<char>, due_every: Option<Span>, now: int)
    -> EngineV {
    let tid = (s.store.tasks.len() + 1) as u64;
    let oid = (s.store.last_todo_id + 1) as u64;
    EngineV {
        store: StoreV {
            tasks: s.store.tasks.push(TaskV { id: tid, title }),
            todos: s.store.todos.push(TodoV { id: oid, task: tid, due: now, completed: None }),
            last_task_id: tid,
            last_todo_id: oid,
        },
        guesser: s.guesser.insert(tid, init_info(due_every)),
    }
}

/// The completed todos of a task, in store order.
pub open spec fn completed_of(todos: Seq<TodoV>, source: u64) -> Seq<TodoV> {
    todos.filter(|t: TodoV| matches_filters(t, Some(source), Some(true)))
}

/// Cloning a task: a fresh task with the source's predictor state, a copy of
/// every completed todo of the source (same due and completion instants, new
/// ids in order), and one open todo due when the source's open todo is due.
pub open spec fn tr_clone_task(s: EngineV, source: u64, title: Seq<char>) -> EngineV {
    let tid = (s.store.tasks.len() + 1) as u64;
    let completed = completed_of(s.store.todos, source);
    let cloned = Seq::new(
        completed.len(),
        |i: int| TodoV {
            id: (s.store.last_todo_id + 1 + i) as u64,
            task: tid,
            due: completed[i].due,
            completed: completed[i].completed,
        },
    );
    let oid = (s.store.last_todo_id + completed.len() + 1) as u64;
    let open_due = s.store.todos[open_idx(s.store.todos, source)].due;
    EngineV {
        store: StoreV {
            tasks: s.store.tasks.push(TaskV { id: tid, title }),
            todos: s.store.todos + cloned + seq![
                TodoV { id: oid, task: tid, due: open_due, completed: None },
            ],
            last_task_id: tid,
            last_todo_id: oid,
        },
        guesser: s.guesser.insert(tid, s.guesser[source]),
    }
}

/// Completing a todo: the predictor absorbs the completion, the todo is
/// marked completed, and the task immediately gets its next open todo due at
/// the completion instant plus the (updated) predicted interval.
pub open spec fn tr_complete_todo(s: EngineV, todo: u64, completed: TodoDate) -> EngineV {
    let i = idx_of(s.store.todos, todo);
    let task = s.store.todos[i].task;
    let info2 = completed_info(s.guesser[task], completed);
    let g2 = s.guesser.insert(task, info2);
    let due = completed.nanos as int + interval_of(info2.due_in);
    let oid = (s.store.last_todo_id + 1) as u64;
    EngineV {
        store: StoreV {
            tasks: s.store.tasks,
            todos: s.store.todos.update(
                i,
                TodoV { completed: Some(completed.nanos as int), ..s.store.todos[i] },
            ).push(TodoV { id: oid, task, due, completed: None }),
            last_task_id: s.store.last_task_id,
            last_todo_id: oid,
        },
        guesser: g2,
    }
}

/// Postponing a todo: only its due instant moves, to the postponed guess.
pub open spec fn tr_todo_later(s: EngineV, todo: u64, now: int) -> EngineV {
    let i = idx_of(s.store.todos, todo);
    let due2 = spec_guess_later(s.guesser, s.store, todo, now);
    EngineV {
        store: StoreV {
            todos: s.store.todos.update(i, TodoV { due: due2, ..s.store.todos[i] }),
            ..s.store
        },
        guesser: s.guesser,
    }
}

/// Pausing a task: its open todo is deleted and the predictor's completion
/// anchor for the task is cleared (the learned interval is kept).
pub open spec fn tr_pause_task(s: EngineV, task: u64) -> EngineV {
    let i = open_idx(s.store.todos, task);
    EngineV {
        store: StoreV { todos: s.store.todos.remove(i), ..s.store },
        guesser: if s.guesser.contains_key(task) {
            s.guesser.insert(
                task,
                DueInfo { due_in: s.guesser[task].due_in, last_completed: None },
            )
        } else {
            s.guesser
        },
    }
}

/// Unpausing a task: one fresh open todo due at `now`.
pub open spec fn tr_unpause_task(s: EngineV, task: u64, now: int) -> EngineV {
    let oid = (s.store.last_todo_id + 1) as u64;
    EngineV {
        store: StoreV {
            todos: s.store.todos.push(TodoV { id: oid, task, due: now, completed: None }),
            last_todo_id: oid,
            ..s.store
        },
        guesser: s.guesser,
    }
}

/// The engine proper: storage plus predictor.
#[derive(Debug)]
pub struct AllesattInner {
    store: MemStore,
    due_guesser: DueGuesser,
}

impl View for AllesattInner {
    type V = EngineV;

    closed spec fn view(&self) -> EngineV {
        EngineV { store: self.store@, guesser: self.due_guesser@ }
    }
}

impl AllesattInner {
    /// Well-formedness: the store's invariants hold, the predictor's do, and
    /// the predictor tracks every existing task.
    pub closed spec fn wf(&self) -> bool {
        &&& self.store@.wf()
        &&& self.due_guesser.wf()
        &&& forall|t: u64|
            1 <= t <= self.store@.tasks.len() ==> self.due_guesser@.contains_key(t)
    }

    /// The store invariants are part of the engine's well-formedness.
    pub proof fn lemma_wf_store(&self)
        requires
            self.wf(),
        ensures
            self@.store.wf(),
            forall|t: u64| 1 <= t <= self@.store.tasks.len() ==> self@.guesser.contains_key(t),
    {
    }

    /// A fresh engine around an empty store.
    pub fn new(store: MemStore) -> (r: Self)
        requires
            store@.wf(),
            store@.tasks.len() == 0,
            store@.todos.len() == 0,
        ensures
            r.wf(),
            r@.store == store@,
            r@.guesser =~= Map::<u64, DueInfo>::empty(),
    {
        AllesattInner { store, due_guesser: DueGuesser::new() }
    }

    /// The id allocation marks and the number of stored todos.
    pub fn counts(&self) -> (r: (u64, u64, usize))
        requires
            self.wf(),
        ensures
            r.0 == self@.store.last_task_id && r.0 == self@.store.tasks.len(),
            r.1 == self@.store.last_todo_id,
            r.2 == self@.store.todos.len(),
    {
        self.store.counts()
    }

    /// Read-only access to the store for presentation.
    pub fn get_store(&self) -> (r: &MemStore)
        ensures
            r@ == self@.store,
    {
        &self.store
    }

    /// Creates a task with one open todo due at `now`; the predictor starts
    /// from the fixed interval if one is given.  Cannot fail.
    pub fn create_task_at(&mut self, title: String, due_every: Option<Span>, now: TodoDate)
        -> (r: (TaskId, TodoId))
        requires
            old(self).wf(),
            old(self)@.store.tasks.len() < u64::MAX,
            old(self)@.store.last_todo_id < u64::MAX,
            match due_every {
                Some(d) => fixed_span_in_range(d.nanos as int),
                None => true,
            },
            clock_in_range(now.nanos as int),
        ensures
            final(self).wf(),
            final(self)@ =~~= tr_create_task(old(self)@, title@, due_every, now.nanos as int),
            r.0.0 == old(self)@.store.tasks.len() + 1,
            r.1.0 == old(self)@.store.last_todo_id + 1,
    {
        let ghost s0 = self@;
        let ghost title_v = title@;
        let task_id = self.store.create_task(title);
        self.due_guesser.init_task(&self.store, &task_id, due_every);
        proof {
            lemma_open_idx(self.store@.todos, task_id.0);
            if open_idx(self.store@.todos, task_id.0) != -1 {
                let r = open_idx(self.store@.todos, task_id.0);
                assert(s0.store.todos[r].task <= s0.store.tasks.len());
                assert(false);
            }
        }
        let todo_id = self.store.create_todo(&task_id, now);
        proof {
            assert(self@ =~~= tr_create_task(s0, title_v, due_every, now.nanos as int));
            assert forall|t: u64|
                1 <= t <= self.store@.tasks.len() implies self.due_guesser@.contains_key(
                t,
            ) by {
                if t <= s0.store.tasks.len() {
                    assert(s0.guesser.contains_key(t));
                }
            }
        }
        (task_id, todo_id)
    }

    /// Clones a task: the clone gets the source's predictor state, a copy
    /// of every completed todo of the source with identical due and
    /// completion instants, and one open todo due when the source's open
    /// todo is due.  Fails recoverably on an unknown source, and with the
    /// distinct "paused tasks unsupported" error when the source has no
    /// open todo.
    #[verifier::loop_isolation(false)]
    pub fn clone_task(&mut self, task_id: &TaskId, title: String) -> (r: Result<
        (TaskId, TodoId),
        EngineError,
    >)
        requires
            old(self).wf(),
            old(self)@.store.tasks.len() < u64::MAX,
            old(self)@.store.last_todo_id + old(self)@.store.todos.len() + 1 <= u64::MAX,
        ensures
            final(self).wf(),
            match r {
                Ok((tid, oid)) => {
                    &&& old(self)@.store.has_task(task_id.0)
                    &&& open_idx(old(self)@.store.todos, task_id.0) != -1
                    &&& final(self)@ =~~= tr_clone_task(old(self)@, task_id.0, title@)
                    &&& tid.0 == old(self)@.store.tasks.len() + 1
                    &&& oid.0 == old(self)@.store.last_todo_id + completed_of(
                        old(self)@.store.todos,
                        task_id.0,
                    ).len() + 1
                },
                Err(e) => {
                    &&& final(self)@ == old(self)@
                    &&& (e == EngineError::TaskNotFound || e == EngineError::TaskPaused)
                    &&& (e == EngineError::TaskNotFound <==> !old(self)@.store.has_task(
                        task_id.0,
                    ))
                    &&& e == EngineError::TaskPaused ==> open_idx(
                        old(self)@.store.todos,
                        task_id.0,
                    ) == -1
                },
            },
    {
        let ghost s0 = self@;
        let ghost title_v = title@;
        match self.store.get_task(task_id) {
            Some(_) => {},
            None => {
                return Err(EngineError::TaskNotFound);
            },
        }
        let open_src = match self.store.find_open_todo(task_id) {
            Some(t) => t,
            None => {
                return Err(EngineError::TaskPaused);
            },
        };
        proof {
            lemma_open_idx(s0.store.todos, task_id.0);
        }
        let new_task_id = self.store.create_task(title);
        proof {
            assert(s0.guesser.contains_key(task_id.0));
        }
        self.due_guesser.copy_task(&self.store, &new_task_id, task_id);
        let todos = self.store.get_todos(Some(task_id), Some(true));
        let ghost pred = |t: TodoV| matches_filters(t, Some(task_id.0), Some(true));
        proof {
            let c1 = |t: TodoV| matches_filters(
                t,
                crate::mem_store::opt_task_filter(Some(task_id)),
                Some(true),
            );
            assert forall|t: TodoV| #[trigger] c1(t) == pred(t) by {}
            assert(c1 =~= pred);
            s0.store.todos.lemma_filter_len(pred);
            crate::data::lemma_filter_preserves(
                s0.store.todos,
                pred,
                |t: TodoV| t.task <= s0.store.tasks.len() && due_in_range(t.due) && (
                match t.completed {
                    Some(d) => date_in_range(d),
                    None => true,
                }),
            );
        }
        let ghost completed = completed_of(s0.store.todos, task_id.0);
        let ghost tid = new_task_id.0;
        let ghost cloned = Seq::new(
            completed.len(),
            |i: int| TodoV {
                id: (s0.store.last_todo_id + 1 + i) as u64,
                task: tid,
                due: completed[i].due,
                completed: completed[i].completed,
            },
        );
        proof {
            assert(todos@.map_values(|t: Todo| t@) == completed);
            assert(self.store@.todos == s0.store.todos + cloned.take(0));
            lemma_open_idx(self.store@.todos, tid);
            if open_idx(self.store@.todos, tid) != -1 {
                let r = open_idx(self.store@.todos, tid);
                assert(s0.store.todos[r].task <= s0.store.tasks.len());
                assert(false);
            }
        }
        let n = todos.len();
        for k in 0..n
            invariant
                self.store@.tasks == s0.store.tasks.push(TaskV { id: tid, title: title_v }),
                self.store@.last_task_id == tid,
                self.store@.todos == s0.store.todos + cloned.take(k as int),
                self.store@.last_todo_id == s0.store.last_todo_id + k,
                self.store@.wf(),
                self.due_guesser@ == s0.guesser.insert(tid, s0.guesser[task_id.0]),
                self.due_guesser.wf(),
                open_idx(self.store@.todos, tid) == -1,
        {
            let t = &todos[k];
            proof {
                assert(t@ == completed[k as int]);
                s0.store.todos.lemma_filter_pred(pred, k as int);
            }
            let todo_id = self.store.create_todo(&new_task_id, t.due);
            proof {
                let after_push = self.store@.todos;
                assert(after_push.last().id == todo_id.0);
                assert forall|j: int|
                    0 <= j < after_push.len() - 1 implies (#[trigger] after_push[j]).id
                    != todo_id.0 by {}
                lemma_idx_of_is(after_push, todo_id.0, after_push.len() - 1);
            }
            let res = self.store.set_todo_completed(&todo_id, t.completed);
            match res {
                Ok(()) => {},
                Err(_) => {
                    vstd::pervasive::unreached::<()>();
                },
            }
            proof {
                assert(cloned.take(k + 1) =~= cloned.take(k as int).push(cloned[k as int]));
                assert(self.store@.todos =~= s0.store.todos + cloned.take(k + 1));
                lemma_open_idx(self.store@.todos, tid);
                if open_idx(self.store@.todos, tid) != -1 {
                    let r = open_idx(self.store@.todos, tid);
                    if r < s0.store.todos.len() {
                        assert(s0.store.todos[r].task <= s0.store.tasks.len());
                    } else {
                        let r2 = r - s0.store.todos.len();
                        s0.store.todos.lemma_filter_pred(pred, r2);
                        assert(cloned[r2].completed is Some);
                    }
                    assert(false);
                }
            }
        }
        proof {
            assert(cloned.take(n as int) =~= cloned);
            assert(due_in_range(s0.store.todos[open_idx(s0.store.todos, task_id.0)].due));
        }
        let todo_id = self.store.create_todo(&new_task_id, open_src.due);
        proof {
            assert(self@.store.todos =~= s0.store.todos + cloned + seq![
                TodoV {
                    id: todo_id.0,
                    task: tid,
                    due: s0.store.todos[open_idx(s0.store.todos, task_id.0)].due,
                    completed: None,
                },
            ]);
            assert(self@ =~~= tr_clone_task(s0, task_id.0, title_v));
            assert forall|t: u64|
                1 <= t <= self.store@.tasks.len() implies self.due_guesser@.contains_key(
                t,
            ) by {
                if t <= s0.store.tasks.len() {
                    assert(s0.guesser.contains_key(t));
                }
            }
        }
        Ok((new_task_id, todo_id))
    }

    /// Completes an existing open todo and immediately creates the task's
    /// next open todo, due at the completion instant plus the updated
    /// predicted interval.  Completing an unknown todo is a recoverable
    /// error and changes nothing.
    pub fn complete_todo(&mut self, todo_id: &TodoId, completed: TodoCompleted) -> (r: Result<
        (),
        EngineError,
    >)
        requires
            old(self).wf(),
            date_in_range(completed.date.nanos as int),
            old(self)@.store.last_todo_id < u64::MAX,
            ({
                let i = idx_of(old(self)@.store.todos, todo_id.0);
                i != -1 ==> old(self)@.store.todos[i].completed is None
            }),
        ensures
            final(self).wf(),
            match r {
                Ok(()) => idx_of(old(self)@.store.todos, todo_id.0) != -1 && final(self)@
                    =~~= tr_complete_todo(old(self)@, todo_id.0, completed.date),
                Err(e) => {
                    &&& e == EngineError::TodoNotFound
                    &&& idx_of(old(self)@.store.todos, todo_id.0) == -1
                    &&& final(self)@ == old(self)@
                },
            },
    {
        let ghost s0 = self@;
        let todo = match self.store.get_todo(todo_id) {
            Some(t) => t,
            None => {
                return Err(EngineError::TodoNotFound);
            },
        };
        proof {
            lemma_idx_of(s0.store.todos, todo_id.0);
        }
        self.due_guesser.handle_completion(&self.store, todo_id, &completed);
        match self.store.set_todo_completed(todo_id, Some(completed)) {
            Ok(()) => {},
            Err(_) => {
                vstd::pervasive::unreached::<()>();
            },
        }
        let task_id = todo.task;
        proof {
            assert(s0.guesser.contains_key(task_id.0));
        }
        let due = self.due_guesser.guess_due_at(&task_id, completed.date);
        proof {
            let ghost i = idx_of(s0.store.todos, todo_id.0);
            // After the update the task has no open todo left: the completed
            // one was its only open one.
            lemma_open_idx(self.store@.todos, task_id.0);
            if open_idx(self.store@.todos, task_id.0) != -1 {
                let r = open_idx(self.store@.todos, task_id.0);
                assert(r != i);
                assert(s0.store.todos[r].task == task_id.0);
                assert(s0.store.todos[r].completed is None);
                assert(s0.store.todos[i].completed is None);
                assert(false);
            }
        }
        let new_id = self.store.create_todo(&task_id, due);
        proof {
            assert(self@ =~~= tr_complete_todo(s0, todo_id.0, completed.date));
            assert forall|t: u64|
                1 <= t <= self.store@.tasks.len() implies self.due_guesser@.contains_key(
                t,
            ) by {
                assert(s0.guesser.contains_key(t));
            }
        }
        Ok(())
    }

    /// Postpones an existing todo: its due instant moves to the postponed
    /// guess anchored at `now`.  Fails recoverably on an unknown todo, or
    /// when the new due instant would leave the representable range.
    pub fn todo_later_at(&mut self, todo_id: &TodoId, now: TodoDate) -> (r: Result<
        (),
        EngineError,
    >)
        requires
            old(self).wf(),
            clock_in_range(now.nanos as int),
        ensures
            final(self).wf(),
            match r {
                Ok(()) => {
                    &&& idx_of(old(self)@.store.todos, todo_id.0) != -1
                    &&& due_in_range(
                        spec_guess_later(
                            old(self)@.guesser,
                            old(self)@.store,
                            todo_id.0,
                            now.nanos as int,
                        ),
                    )
                    &&& final(self)@ =~~= tr_todo_later(old(self)@, todo_id.0, now.nanos as int)
                },
                Err(e) => {
                    &&& final(self)@ == old(self)@
                    &&& (e == EngineError::TodoNotFound || e == EngineError::DueOutOfRange)
                    &&& (e == EngineError::TodoNotFound <==> idx_of(
                        old(self)@.store.todos,
                        todo_id.0,
                    ) == -1)
                    &&& e == EngineError::DueOutOfRange ==> !due_in_range(
                        spec_guess_later(
                            old(self)@.guesser,
                            old(self)@.store,
                            todo_id.0,
                            now.nanos as int,
                        ),
                    )
                },
            },
    {
        let ghost s0 = self@;
        match self.store.get_todo(todo_id) {
            Some(_) => {},
            None => {
                return Err(EngineError::TodoNotFound);
            },
        }
        let due = self.due_guesser.guess_later_at(&self.store, todo_id, now);
        if due.nanos > crate::data::DUE_ABS_MAX || due.nanos < -crate::data::DUE_ABS_MAX {
            return Err(EngineError::DueOutOfRange);
        }
        match self.store.set_todo_due(todo_id, due) {
            Ok(()) => {},
            Err(_) => {
                vstd::pervasive::unreached::<()>();
            },
        }
        proof {
            assert(self@ =~~= tr_todo_later(s0, todo_id.0, now.nanos as int));
        }
        Ok(())
    }

    /// Pauses a task by deleting its open todo; the predictor keeps the
    /// learned interval but forgets the completion anchor.  Fails
    /// recoverably when the task is unknown or already paused.
    pub fn pause_task(&mut self, task_id: &TaskId) -> (r: Result<(), EngineError>)
        requires
            old(self).wf(),
        ensures
            final(self).wf(),
            match r {
                Ok(()) => open_idx(old(self)@.store.todos, task_id.0) != -1 && final(self)@
                    =~~= tr_pause_task(old(self)@, task_id.0),
                Err(e) => {
                    &&& e == EngineError::TaskNotFoundOrPaused
                    &&& open_idx(old(self)@.store.todos, task_id.0) == -1
                    &&& final(self)@ == old(self)@
                },
            },
    {
        let ghost s0 = self@;
        let todo = match self.store.find_open_todo(task_id) {
            Some(t) => t,
            None => {
                return Err(EngineError::TaskNotFoundOrPaused);
            },
        };
        proof {
            let oi = open_idx(s0.store.todos, task_id.0);
            lemma_open_idx(s0.store.todos, task_id.0);
            lemma_idx_of(s0.store.todos, todo.id.0);
            let fi = idx_of(s0.store.todos, todo.id.0);
            if fi == -1 {
                assert(s0.store.todos[oi].id == todo.id.0);
                assert(false);
            }
            // ids are strictly increasing, so the found index is the open one
            if fi != oi {
                assert(s0.store.todos[fi].id == s0.store.todos[oi].id);
                assert(false);
            }
        }
        match self.store.delete_todo(&todo.id) {
            Ok(()) => {},
            Err(_) => {
                vstd::pervasive::unreached::<()>();
            },
        }
        self.due_guesser.handle_pause(task_id);
        proof {
            assert(self@ =~~= tr_pause_task(s0, task_id.0));
            assert forall|t: u64|
                1 <= t <= self.store@.tasks.len() implies self.due_guesser@.contains_key(
                t,
            ) by {
                assert(s0.guesser.contains_key(t));
            }
        }
        Ok(())
    }

    /// Creates a new open todo for a paused task, due at `now`.  The caller
    /// is responsible for only unpausing paused tasks; the open-todo
    /// invariant makes that a precondition here.
    pub fn unpause_task_at(&mut self, task_id: &TaskId, now: TodoDate) -> (r: TodoId)
        requires
            old(self).wf(),
            old(self)@.store.has_task(task_id.0),
            open_idx(old(self)@.store.todos, task_id.0) == -1,
            old(self)@.store.last_todo_id < u64::MAX,
            clock_in_range(now.nanos as int),
        ensures
            final(self).wf(),
            final(self)@ =~~= tr_unpause_task(old(self)@, task_id.0, now.nanos as int),
            r.0 == old(self)@.store.last_todo_id + 1,
    {
        let ghost s0 = self@;
        let todo_id = self.store.create_todo(task_id, now);
        proof {
            assert(self@ =~~= tr_unpause_task(s0, task_id.0, now.nanos as int));
        }
        todo_id
    }

    /// `create_task_at` read at the current instant: the new open todo is
    /// due immediately.
    pub fn create_task(&mut self, title: String, due_every: Option<Span>) -> (r: (
        TaskId,
        TodoId,
    ))
        requires
            old(self).wf(),
            old(self)@.store.tasks.len() < u64::MAX,
            old(self)@.store.last_todo_id < u64::MAX,
            match due_every {
                Some(d) => fixed_span_in_range(d.nanos as int),
                None => true,
            },
        ensures
            final(self).wf(),
            exists|now: int|
                clock_in_range(now) && final(self)@ =~~= tr_create_task(
                    old(self)@,
                    title@,
                    due_every,
                    now,
                ),
            r.0.0 == old(self)@.store.tasks.len() + 1,
            r.1.0 == old(self)@.store.last_todo_id + 1,
    {
        let ghost s0 = self@;
        let ghost title_v = title@;
        let now = TodoDate { nanos: now_nanos() };
        let r = self.create_task_at(title, due_every, now);
        proof {
            assert(clock_in_range(now.nanos as int) && self@ =~~= tr_create_task(
                s0,
                title_v,
                due_every,
                now.nanos as int,
            ));
        }
        r
    }

    /// `todo_later_at` read at the current instant.  Success is owed for
    /// every existing todo whose postponed guess stays storable whatever
    /// instant the clock reports.
    pub fn todo_later(&mut self, todo_id: &TodoId) -> (r: Result<(), EngineError>)
        requires
            old(self).wf(),
        ensures
            final(self).wf(),
            match r {
                Ok(()) => idx_of(old(self)@.store.todos, todo_id.0) != -1 && exists|now: int|
                    clock_in_range(now) && final(self)@ =~~= tr_todo_later(
                        old(self)@,
                        todo_id.0,
                        now,
                    ),
                Err(e) => {
                    &&& final(self)@ == old(self)@
                    &&& (e == EngineError::TodoNotFound || e == EngineError::DueOutOfRange)
                    &&& (e == EngineError::TodoNotFound <==> idx_of(
                        old(self)@.store.todos,
                        todo_id.0,
                    ) == -1)
                    &&& e == EngineError::DueOutOfRange ==> exists|now: int|
                        clock_in_range(now) && !due_in_range(
                            spec_guess_later(
                                old(self)@.guesser,
                                old(self)@.store,
                                todo_id.0,
                                now,
                            ),
                        )
                },
            },
            (idx_of(old(self)@.store.todos, todo_id.0) != -1 && forall|now: int|
                clock_in_range(now) ==> #[trigger] due_in_range(
                    spec_guess_later(old(self)@.guesser, old(self)@.store, todo_id.0, now),
                )) ==> r is Ok,
    {
        let ghost s0 = self@;
        let now = TodoDate { nanos: now_nanos() };
        let r = self.todo_later_at(todo_id, now);
        proof {
            if r is Ok {
                assert(clock_in_range(now.nanos as int) && self@ =~~= tr_todo_later(
                    s0,
                    todo_id.0,
                    now.nanos as int,
                ));
            }
            if r == Err::<(), EngineError>(EngineError::DueOutOfRange) {
                assert(clock_in_range(now.nanos as int) && !due_in_range(
                    spec_guess_later(s0.guesser, s0.store, todo_id.0, now.nanos as int),
                ));
            }
        }
        r
    }

    /// `unpause_task_at` read at the current instant: the revived todo is
    /// due immediately.
    pub fn unpause_task(&mut self, task_id: &TaskId) -> (r: TodoId)
        requires
            old(self).wf(),
            old(self)@.store.has_task(task_id.0),
            open_idx(old(self)@.store.todos, task_id.0) == -1,
            old(self)@.store.last_todo_id < u64::MAX,
        ensures
            final(self).wf(),
            exists|now: int|
                clock_in_range(now) && final(self)@ =~~= tr_unpause_task(
                    old(self)@,
                    task_id.0,
                    now,
                ),
            r.0 == old(self)@.store.last_todo_id + 1,
    {
        let ghost s0 = self@;
        let now = TodoDate { nanos: now_nanos() };
        let r = self.unpause_task_at(task_id, now);
        proof {
            assert(clock_in_range(now.nanos as int) && self@ =~~= tr_unpause_task(
                s0,
                task_id.0,
                now.nanos as int,
            ));
        }
        r
    }
}

/// Law: completing a todo immediately yields exactly one open todo for its
/// task — the freshly pushed one — due at the completion instant plus the
/// updated predicted interval, i.e. exactly the `guess_due` formula for the
/// just-recorded completion.
pub proof fn lemma_complete_then_open_todo(s: EngineV, todo: u64, completed: TodoDate)
    requires
        s.store.wf(),
        idx_of(s.store.todos, todo) != -1,
        s.store.todos[idx_of(s.store.todos, todo)].completed is None,
    ensures
        ({
            let s2 = tr_complete_todo(s, todo, completed);
            let task = s.store.todos[idx_of(s.store.todos, todo)].task;
            let oi = open_idx(s2.store.todos, task);
            &&& oi == s2.store.todos.len() - 1
            &&& s2.store.todos[oi].completed is None
            &&& s2.store.todos[oi].due == completed.nanos as int + interval_of(
                completed_info(s.guesser[task], completed).due_in,
            )
        }),
{
    lemma_idx_of(s.store.todos, todo);
    let i = idx_of(s.store.todos, todo);
    let task = s.store.todos[i].task;
    let s2 = tr_complete_todo(s, todo, completed);
    let todos2 = s2.store.todos;
    assert forall|k: int|
        0 <= k < todos2.len() - 1 implies !((#[trigger] todos2[k]).task == task
        && todos2[k].completed is None) by {
        if k != i && todos2[k].task == task && todos2[k].completed is None {
            assert(s.store.todos[k].completed is None);
            assert(s.store.todos[i].completed is None);
            assert(false);
        }
    }
    lemma_open_idx_is(todos2, task, todos2.len() - 1);
}

/// Law: pausing then unpausing a task leaves it with exactly one open todo,
/// due precisely at the instant the unpause read from the clock — whatever
/// interval the predictor has learned for the task.
pub proof fn lemma_pause_then_unpause_due(s: EngineV, task: u64, now: int)
    requires
        s.store.wf(),
        open_idx(s.store.todos, task) != -1,
    ensures
        ({
            let s2 = tr_unpause_task(tr_pause_task(s, task), task, now);
            let oi = open_idx(s2.store.todos, task);
            &&& oi == s2.store.todos.len() - 1
            &&& s2.store.todos[oi].due == now
            &&& s2.store.todos[oi].completed is None
        }),
{
    lemma_open_idx(s.store.todos, task);
    let i = open_idx(s.store.todos, task);
    let s1 = tr_pause_task(s, task);
    let s2 = tr_unpause_task(s1, task, now);
    let todos2 = s2.store.todos;
    assert forall|k: int|
        0 <= k < todos2.len() - 1 implies !((#[trigger] todos2[k]).task == task
        && todos2[k].completed is None) by {
        let j: int = if k < i {
            k
        } else {
            k + 1
        };
        assert(s1.store.todos[k] == s.store.todos[j]);
        if todos2[k].task == task && todos2[k].completed is None {
            assert(s.store.todos[j].task == task && s.store.todos[j].completed is None);
            assert(s.store.todos[i].task == task && s.store.todos[i].completed is None);
            assert(j != i);
            assert(false);
        }
    }
    lemma_open_idx_is(todos2, task, todos2.len() - 1);
}

/// Law: postponing a todo of a task with no recorded history — so the
/// default 30-day period applies — moves its due instant to the later of
/// "now" and the current due, plus exactly six days (a fifth of the default
/// period, which exceeds the one-day minimum).
pub proof fn lemma_guess_later_default(m: Map<u64, DueInfo>, store: StoreV, todo: u64, now: int)
    requires
        idx_of(store.todos, todo) != -1,
        ({
            let t = store.todos[idx_of(store.todos, todo)];
            m.contains_key(t.task) ==> m[t.task].due_in is None
        }),
    ensures
        ({
            let t = store.todos[idx_of(store.todos, todo)];
            let anchor: int = if now >= t.due {
                now
            } else {
                t.due
            };
            spec_guess_later(m, store, todo, now) == anchor + 6 * (
            crate::data::NANOS_PER_DAY as int)
        }),
{
    assert(crate::data::div_trunc(crate::data::DEFAULT_PERIOD_NANOS as int, 5) == 6 * (
    crate::data::NANOS_PER_DAY as int));
}

/// Law: the first observed completion gap discards a fixed interval — the
/// predictor afterwards reports exactly that gap, whatever interval the
/// task was created with.
pub proof fn lemma_first_gap_supersedes_fixed(info: DueInfo, completed: TodoDate)
    requires
        info.last_completed is Some,
        !(info.due_in matches Some(DueIn::Calculated(_, _))),
        -(crate::data::DIFF_ABS_MAX as int) <= completed.nanos - info.last_completed->0.nanos
            <= crate::data::DIFF_ABS_MAX as int,
    ensures
        interval_of(completed_info(info, completed).due_in) == completed.nanos as int
            - info.last_completed->0.nanos as int,
{
    let diff = completed.nanos as int - info.last_completed->0.nanos as int;
    assert(interval_of(completed_info(info, completed).due_in) == crate::data::div_trunc(
        diff,
        1,
    ));
    if diff >= 0 {
        assert(diff / 1 == diff);
    } else {
        assert((-diff) / 1 == -diff);
    }
}

} // verus!
